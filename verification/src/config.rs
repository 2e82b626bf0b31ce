//! Settings: environment variables take precedence over the config file,
//! which takes precedence over built-in defaults.

use vstd::prelude::*;
use crate::text::{concat_str, owned};

verus! {

/// A preset combination of flags, selected by number (`h 1 ...`).
#[derive(Debug, Clone)]
pub struct ModeConfig {
    pub name: Option<String>,
    pub flags: Option<String>,
}

impl Default for ModeConfig {
    /// A mode with neither name nor flags.
    fn default() -> (r: ModeConfig)
        ensures
            r.name is None && r.flags is None,
    {
        ModeConfig { name: None, flags: None }
    }
}

/// The resolved settings.
#[derive(Debug, Clone)]
pub struct Config {
    pub base_url: String,
    pub api_key: String,
    pub fast_model: String,
    pub slow_model: String,
    pub fast_timeout: u64,
    pub slow_timeout: u64,
    pub custom_prompt: String,
    pub session_limit: u64,
    pub modes: Vec<ModeConfig>,
    pub show_token_usage: bool,
    pub stream_output: bool,
}

/// The settings stored in the config file; any of them may be absent.
#[derive(Debug, Clone)]
pub struct FileConfig {
    pub base_url: Option<String>,
    pub api_key: Option<String>,
    pub fast_model: Option<String>,
    pub slow_model: Option<String>,
    pub fast_timeout: Option<u64>,
    pub slow_timeout: Option<u64>,
    pub custom_prompt: Option<String>,
    pub session_limit: Option<u64>,
    pub modes: Option<Vec<ModeConfig>>,
    pub show_token_usage: Option<bool>,
    pub stream_output: Option<bool>,
}

/// The `HOW2_*` environment variables, as set (numbers still as text).
#[derive(Debug, Clone)]
pub struct EnvSettings {
    pub base_url: Option<String>,
    pub api_key: Option<String>,
    pub fast_model: Option<String>,
    pub slow_model: Option<String>,
    pub fast_timeout: Option<String>,
    pub slow_timeout: Option<String>,
    pub custom_prompt: Option<String>,
    pub session_limit: Option<String>,
}

pub type ModeView = (Option<Seq<char>>, Option<Seq<char>>);

pub struct ConfigView {
    pub base_url: Seq<char>,
    pub api_key: Seq<char>,
    pub fast_model: Seq<char>,
    pub slow_model: Seq<char>,
    pub fast_timeout: u64,
    pub slow_timeout: u64,
    pub custom_prompt: Seq<char>,
    pub session_limit: u64,
    pub modes: Seq<ModeView>,
    pub show_token_usage: bool,
    pub stream_output: bool,
}

pub struct FileConfigView {
    pub base_url: Option<Seq<char>>,
    pub api_key: Option<Seq<char>>,
    pub fast_model: Option<Seq<char>>,
    pub slow_model: Option<Seq<char>>,
    pub fast_timeout: Option<u64>,
    pub slow_timeout: Option<u64>,
    pub custom_prompt: Option<Seq<char>>,
    pub session_limit: Option<u64>,
    pub modes: Option<Seq<ModeView>>,
    pub show_token_usage: Option<bool>,
    pub stream_output: Option<bool>,
}

pub struct EnvView {
    pub base_url: Option<Seq<char>>,
    pub api_key: Option<Seq<char>>,
    pub fast_model: Option<Seq<char>>,
    pub slow_model: Option<Seq<char>>,
    pub fast_timeout: Option<Seq<char>>,
    pub slow_timeout: Option<Seq<char>>,
    pub custom_prompt: Option<Seq<char>>,
    pub session_limit: Option<Seq<char>>,
}

pub open spec fn sv(o: Option<String>) -> Option<Seq<char>> {
    match o {
        Some(s) => Some(s@),
        None => None,
    }
}

pub open spec fn modes_view(v: Seq<ModeConfig>) -> Seq<ModeView> {
    Seq::new(v.len(), |i: int| v[i]@)
}

impl View for ModeConfig {
    type V = ModeView;

    open spec fn view(&self) -> ModeView {
        (sv(self.name), sv(self.flags))
    }
}

impl View for Config {
    type V = ConfigView;

    open spec fn view(&self) -> ConfigView {
        ConfigView {
            base_url: self.base_url@,
            api_key: self.api_key@,
            fast_model: self.fast_model@,
            slow_model: self.slow_model@,
            fast_timeout: self.fast_timeout,
            slow_timeout: self.slow_timeout,
            custom_prompt: self.custom_prompt@,
            session_limit: self.session_limit,
            modes: modes_view(self.modes@),
            show_token_usage: self.show_token_usage,
            stream_output: self.stream_output,
        }
    }
}

impl View for FileConfig {
    type V = FileConfigView;

    open spec fn view(&self) -> FileConfigView {
        FileConfigView {
            base_url: sv(self.base_url),
            api_key: sv(self.api_key),
            fast_model: sv(self.fast_model),
            slow_model: sv(self.slow_model),
            fast_timeout: self.fast_timeout,
            slow_timeout: self.slow_timeout,
            custom_prompt: sv(self.custom_prompt),
            session_limit: self.session_limit,
            modes: match self.modes {
                Some(m) => Some(modes_view(m@)),
                None => None,
            },
            show_token_usage: self.show_token_usage,
            stream_output: self.stream_output,
        }
    }
}

impl View for EnvSettings {
    type V = EnvView;

    open spec fn view(&self) -> EnvView {
        EnvView {
            base_url: sv(self.base_url),
            api_key: sv(self.api_key),
            fast_model: sv(self.fast_model),
            slow_model: sv(self.slow_model),
            fast_timeout: sv(self.fast_timeout),
            slow_timeout: sv(self.slow_timeout),
            custom_prompt: sv(self.custom_prompt),
            session_limit: sv(self.session_limit),
        }
    }
}

/// No `HOW2_*` variable set.
pub open spec fn no_env() -> EnvView {
    EnvView {
        base_url: None,
        api_key: None,
        fast_model: None,
        slow_model: None,
        fast_timeout: None,
        slow_timeout: None,
        custom_prompt: None,
        session_limit: None,
    }
}

/// The first value present, else the default.
pub open spec fn first_of<T>(a: Option<T>, b: Option<T>, d: T) -> T {
    match a {
        Some(x) => x,
        None => match b {
            Some(y) => y,
            None => d,
        },
    }
}

pub open spec fn is_digit(c: char) -> bool {
    '0' <= c && c <= '9'
}

/// The number written by decimal digits.
pub open spec fn digits_value(d: Seq<char>) -> int
    decreases d.len(),
{
    if d.len() == 0 {
        0
    } else {
        digits_value(d.drop_last()) * 10 + (d.last() as int - '0' as int)
    }
}

/// The text after an optional leading `+`.
pub open spec fn unsigned_part(s: Seq<char>) -> Seq<char> {
    if s.len() > 0 && s[0] == '+' {
        s.drop_first()
    } else {
        s
    }
}

pub open spec fn all_digits(d: Seq<char>) -> bool {
    forall|i: int| 0 <= i < d.len() ==> is_digit(#[trigger] d[i])
}

/// `str::parse::<u64>`: an optional `+`, then one or more ASCII digits
/// whose value fits in 64 bits.
pub open spec fn parsed_u64(s: Seq<char>) -> Option<u64> {
    let d = unsigned_part(s);
    if d.len() > 0 && all_digits(d) && digits_value(d) <= u64::MAX {
        Some(digits_value(d) as u64)
    } else {
        None
    }
}

proof fn lemma_digits_value_grows(d: Seq<char>, i: int)
    requires
        0 <= i <= d.len(),
        forall|k: int| 0 <= k < d.len() ==> is_digit(#[trigger] d[k]),
    ensures
        0 <= digits_value(d.take(i)) <= digits_value(d),
    decreases d.len(),
{
    if d.len() > 0 {
        if i == d.len() {
            assert(d.take(i) =~= d);
            lemma_digits_value_grows(d.drop_last(), d.len() - 1);
            assert(d.drop_last().take(d.len() - 1) =~= d.drop_last());
        } else {
            assert(d.take(i) =~= d.drop_last().take(i));
            assert(is_digit(d[d.len() - 1]));
            lemma_digits_value_grows(d.drop_last(), i);
            lemma_digits_value_grows(d.drop_last(), d.len() - 1);
            assert(d.drop_last().take(d.len() - 1) =~= d.drop_last());
        }
    }
}

/// Parses a decimal number as `str::parse::<u64>` does.
pub fn parse_u64(s: &str) -> (r: Option<u64>)
    ensures
        r == parsed_u64(s@),
{
    let n = s.unicode_len();
    let start: usize = if n > 0 && s.get_char(0) == '+' {
        1
    } else {
        0
    };
    let ghost d = unsigned_part(s@);
    assert(d =~= s@.subrange(start as int, n as int));
    if start >= n {
        return None;
    }
    let mut v: u64 = 0;
    let mut i = start;
    assert(d.take(0) =~= Seq::<char>::empty());
    while i < n
        invariant
            start <= i <= n,
            n == s@.len(),
            d == s@.subrange(start as int, n as int),
            d == unsigned_part(s@),
            forall|k: int| 0 <= k < i - start ==> is_digit(#[trigger] d[k]),
            v == digits_value(d.take(i - start)),
        decreases n - i,
    {
        let c = s.get_char(i);
        assert(d[i - start] == c);
        if !('0' <= c && c <= '9') {
            assert(!is_digit(d[i - start]));
            assert(!all_digits(d));
            return None;
        }
        let digit = (c as u32 - '0' as u32) as u64;
        let w: u128 = v as u128 * 10 + digit as u128;
        assert(d.take(i - start + 1).drop_last() =~= d.take(i - start));
        assert(d.take(i - start + 1).last() == c);
        assert(digits_value(d.take(i - start + 1)) == w);
        if w > u64::MAX as u128 {
            proof {
                assert forall|k: int| 0 <= k < i - start + 1 implies is_digit(
                    #[trigger] d.take(i - start + 1)[k],
                ) by {}
                if all_digits(d) {
                    lemma_digits_value_grows(d, i - start + 1);
                }
            }
            return None;
        }
        v = w as u64;
        i += 1;
    }
    assert(d.take(n - start) =~= d);
    Some(v)
}

/// The settings as resolved: each from its environment variable, else from
/// the config file, else the default (a number in the environment counts
/// only when it parses).
pub open spec fn resolved(env: EnvView, file: FileConfigView) -> ConfigView {
    ConfigView {
        base_url: first_of(env.base_url, file.base_url, "https://ds.fsmallcold.top"@),
        api_key: first_of(env.api_key, file.api_key, Seq::empty()),
        fast_model: first_of(env.fast_model, file.fast_model, "deepseek-chat"@),
        slow_model: first_of(env.slow_model, file.slow_model, "deepseek-reasoner"@),
        fast_timeout: first_of(parse_opt(env.fast_timeout), file.fast_timeout, 30),
        slow_timeout: first_of(parse_opt(env.slow_timeout), file.slow_timeout, 300),
        custom_prompt: first_of(env.custom_prompt, file.custom_prompt, Seq::empty()),
        session_limit: first_of(parse_opt(env.session_limit), file.session_limit, 100),
        modes: match file.modes {
            Some(m) => m,
            None => seq![],
        },
        show_token_usage: match file.show_token_usage {
            Some(b) => b,
            None => true,
        },
        stream_output: match file.stream_output {
            Some(b) => b,
            None => true,
        },
    }
}

pub open spec fn parse_opt(s: Option<Seq<char>>) -> Option<u64> {
    match s {
        Some(t) => parsed_u64(t),
        None => None,
    }
}

/// The message given when no API key is configured.
pub open spec fn missing_key_message() -> Seq<char> {
    "未找到 API key。請執行 `h --setup` 進行設定。"@
}

fn pick_text(a: Option<String>, b: Option<String>, d: &str) -> (r: String)
    ensures
        r@ == first_of(sv(a), sv(b), d@),
{
    match a {
        Some(x) => x,
        None => match b {
            Some(y) => y,
            None => owned(d),
        },
    }
}

fn pick_number(a: &Option<String>, b: Option<u64>, d: u64) -> (r: u64)
    ensures
        r == first_of(parse_opt(sv(*a)), b, d),
{
    let p = match a {
        Some(s) => parse_u64(s.as_str()),
        None => None,
    };
    match p {
        Some(x) => x,
        None => match b {
            Some(y) => y,
            None => d,
        },
    }
}

/// The settings resolved from the environment and the config file, without
/// checking them (the defaults the setup wizard offers).
pub fn resolve_settings(env: EnvSettings, file: FileConfig) -> (r: Config)
    ensures
        r@ == resolved(env@, file@),
{
    let ghost ev = env@;
    let ghost fv = file@;
    let fast_timeout = pick_number(&env.fast_timeout, file.fast_timeout, 30);
    let slow_timeout = pick_number(&env.slow_timeout, file.slow_timeout, 300);
    let session_limit = pick_number(&env.session_limit, file.session_limit, 100);
    let modes = match file.modes {
        Some(m) => m,
        None => Vec::new(),
    };
    let r = Config {
        base_url: pick_text(env.base_url, file.base_url, "https://ds.fsmallcold.top"),
        api_key: pick_text(env.api_key, file.api_key, ""),
        fast_model: pick_text(env.fast_model, file.fast_model, "deepseek-chat"),
        slow_model: pick_text(env.slow_model, file.slow_model, "deepseek-reasoner"),
        fast_timeout,
        slow_timeout,
        custom_prompt: pick_text(env.custom_prompt, file.custom_prompt, ""),
        session_limit,
        modes,
        show_token_usage: match file.show_token_usage {
            Some(b) => b,
            None => true,
        },
        stream_output: match file.stream_output {
            Some(b) => b,
            None => true,
        },
    };
    proof {
        reveal_strlit("");
    }
    let ghost rv = resolved(ev, fv);
    assert(r@.modes =~= rv.modes);
    assert(r@.base_url == rv.base_url);
    assert(r@.api_key == rv.api_key);
    assert(r@.custom_prompt == rv.custom_prompt);
    assert(r@.fast_timeout == rv.fast_timeout);
    assert(r@.show_token_usage == rv.show_token_usage);
    r
}

/// The configuration, or the missing-key message when no API key is set.
pub fn resolve_config(env: EnvSettings, file: FileConfig) -> (r: Result<Config, String>)
    ensures
        r is Ok <==> resolved(env@, file@).api_key.len() > 0,
        r matches Ok(c) ==> c@ == resolved(env@, file@),
        r matches Err(e) ==> e@ == missing_key_message(),
{
    let c = resolve_settings(env, file);
    if c.api_key.as_str().is_empty() {
        return Err(owned("未找到 API key。請執行 `h --setup` 進行設定。"));
    }
    Ok(c)
}

impl Config {
    /// The search-enhanced model: the fast model's name with `-search`.
    pub fn search_model(&self) -> (r: String)
        ensures
            r@ == self.fast_model@ + "-search"@,
    {
        concat_str(self.fast_model.as_str(), "-search")
    }
}

/// At most nine modes can be defined.
pub open spec fn mode_count_ok(n: u64) -> bool {
    n <= 9
}

/// Accepts a number of modes from zero to nine.
pub fn validate_mode_count(n: u64) -> (r: Result<(), String>)
    ensures
        r is Ok <==> mode_count_ok(n),
        r matches Err(e) ==> e@ == "最多只能定義 9 個模式"@,
{
    if n <= 9 {
        Ok(())
    } else {
        Err(owned("最多只能定義 9 個模式"))
    }
}

/// An answer in the setup wizard: empty means absent.
pub open spec fn answer(s: Seq<char>) -> Option<Seq<char>> {
    if s.len() == 0 {
        None
    } else {
        Some(s)
    }
}

fn optional_answer(s: String) -> (r: Option<String>)
    ensures
        sv(r) == answer(s@),
{
    if s.as_str().is_empty() {
        None
    } else {
        Some(s)
    }
}

/// A mode as entered in the setup wizard.
pub fn mode_from_answers(name: String, flags: String) -> (r: ModeConfig)
    ensures
        r@ == (answer(name@), answer(flags@)),
{
    ModeConfig { name: optional_answer(name), flags: optional_answer(flags) }
}

/// The defaults the wizard offers for the `i`-th mode: the existing mode's
/// name and flags, or empty.
pub fn mode_defaults(existing: &Vec<ModeConfig>, i: usize) -> (r: (String, String))
    ensures
        i < existing@.len() ==> r.0@ == first_of(existing@[i as int]@.0, None, Seq::empty())
            && r.1@ == first_of(existing@[i as int]@.1, None, Seq::empty()),
        i >= existing@.len() ==> r.0@.len() == 0 && r.1@.len() == 0,
{
    if i < existing.len() {
        let m = &existing[i];
        let name = match &m.name {
            Some(n) => owned(n.as_str()),
            None => String::new(),
        };
        let flags = match &m.flags {
            Some(f) => owned(f.as_str()),
            None => String::new(),
        };
        (name, flags)
    } else {
        (String::new(), String::new())
    }
}

/// What the setup wizard writes to the config file: every answer, except an
/// empty custom prompt and an empty list of modes, which are left out.
pub open spec fn saved(c: ConfigView) -> FileConfigView {
    FileConfigView {
        base_url: Some(c.base_url),
        api_key: Some(c.api_key),
        fast_model: Some(c.fast_model),
        slow_model: Some(c.slow_model),
        fast_timeout: Some(c.fast_timeout),
        slow_timeout: Some(c.slow_timeout),
        custom_prompt: answer(c.custom_prompt),
        session_limit: Some(c.session_limit),
        modes: if c.modes.len() == 0 {
            None
        } else {
            Some(c.modes)
        },
        show_token_usage: Some(c.show_token_usage),
        stream_output: Some(c.stream_output),
    }
}

/// The file settings for the wizard's answers.
pub fn file_config_from_answers(answers: Config) -> (r: FileConfig)
    ensures
        r@ == saved(answers@),
{
    let ghost a = answers@;
    let modes = if answers.modes.len() == 0 {
        None
    } else {
        Some(answers.modes)
    };
    let r = FileConfig {
        base_url: Some(answers.base_url),
        api_key: Some(answers.api_key),
        fast_model: Some(answers.fast_model),
        slow_model: Some(answers.slow_model),
        fast_timeout: Some(answers.fast_timeout),
        slow_timeout: Some(answers.slow_timeout),
        custom_prompt: optional_answer(answers.custom_prompt),
        session_limit: Some(answers.session_limit),
        modes,
        show_token_usage: Some(answers.show_token_usage),
        stream_output: Some(answers.stream_output),
    };
    assert(r@ == saved(a));
    r
}

/// Settings persist: with no `HOW2_*` variable set, what the setup wizard
/// saves resolves back to exactly the answers given.
pub proof fn saved_settings_resolve_to_answers(c: ConfigView)
    ensures
        resolved(no_env(), saved(c)) == c,
{
    let r = resolved(no_env(), saved(c));
    assert(r.custom_prompt == c.custom_prompt);
    assert(r.modes =~= c.modes);
}

/// Settings persist under any environment: saving the settings that resolve
/// now (the defaults the wizard offers, all accepted) and resolving again in
/// the same environment gives the same settings.
pub proof fn saved_settings_persist(env: EnvView, file: FileConfigView)
    ensures
        resolved(env, saved(resolved(env, file))) == resolved(env, file),
{
    let c = resolved(env, file);
    let r = resolved(env, saved(c));
    assert(r.custom_prompt == c.custom_prompt);
    assert(r.modes =~= c.modes);
}

/// Every variable set in `setup` is set, to the same text, in `load`.
pub open spec fn env_kept(setup: EnvView, load: EnvView) -> bool {
    &&& setup.base_url is Some ==> load.base_url == setup.base_url
    &&& setup.api_key is Some ==> load.api_key == setup.api_key
    &&& setup.fast_model is Some ==> load.fast_model == setup.fast_model
    &&& setup.slow_model is Some ==> load.slow_model == setup.slow_model
    &&& setup.fast_timeout is Some ==> load.fast_timeout == setup.fast_timeout
    &&& setup.slow_timeout is Some ==> load.slow_timeout == setup.slow_timeout
    &&& setup.custom_prompt is Some ==> load.custom_prompt == setup.custom_prompt
    &&& setup.session_limit is Some ==> load.session_limit == setup.session_limit
}

/// Nothing gets lost across a setup: the wizard offers the settings that
/// resolve in the environment it sees and saves them all accepted; loading
/// later, in an environment that keeps every variable the wizard saw (and
/// may set more), resolves to what loading the old file there would give.
pub proof fn setup_loses_nothing(setup: EnvView, load: EnvView, file: FileConfigView)
    requires
        env_kept(setup, load),
    ensures
        resolved(load, saved(resolved(setup, file))) == resolved(load, file),
{
    let c = resolved(setup, file);
    let r = resolved(load, saved(c));
    let e = resolved(load, file);
    assert(r.custom_prompt == e.custom_prompt);
    assert(r.modes =~= e.modes);
    assert(r.base_url == e.base_url);
    assert(r.fast_timeout == e.fast_timeout);
    assert(r.slow_timeout == e.slow_timeout);
    assert(r.session_limit == e.session_limit);
}

/// A mode offered as the wizard's defaults and accepted is saved unchanged,
/// unless its name or flags were present but empty (read back as absent).
pub proof fn accepted_mode_is_unchanged(m: ModeView)
    requires
        m.0 != Some(Seq::<char>::empty()),
        m.1 != Some(Seq::<char>::empty()),
    ensures
        (answer(first_of(m.0, None, Seq::empty())), answer(first_of(m.1, None, Seq::empty()))) == m,
{
    if let Some(x) = m.0 {
        if x.len() == 0 {
            assert(x =~= Seq::<char>::empty());
        }
    }
    if let Some(y) = m.1 {
        if y.len() == 0 {
            assert(y =~= Seq::<char>::empty());
        }
    }
}

/// Each setting given in the environment overrides the config file.
pub proof fn environment_overrides_file(env: EnvView, file: FileConfigView)
    ensures
        env.base_url matches Some(u) ==> resolved(env, file).base_url == u,
        env.api_key matches Some(k) ==> resolved(env, file).api_key == k,
        env.fast_model matches Some(m) ==> resolved(env, file).fast_model == m,
        env.slow_model matches Some(m) ==> resolved(env, file).slow_model == m,
        env.custom_prompt matches Some(p) ==> resolved(env, file).custom_prompt == p,
        parse_opt(env.fast_timeout) matches Some(t) ==> resolved(env, file).fast_timeout == t,
        parse_opt(env.slow_timeout) matches Some(t) ==> resolved(env, file).slow_timeout == t,
        parse_opt(env.session_limit) matches Some(n) ==> resolved(env, file).session_limit == n,
{
}

} // verus!
