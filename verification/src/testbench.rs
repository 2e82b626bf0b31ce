//! Checking a suggested command against expected ones by their base
//! commands (the program name, with the sub-command of tools such as `git`).

use vstd::prelude::*;
use crate::text::{
    is_ws, lemma_split_on_concat, lemma_split_on_len, lemma_split_on_plain,
    lemma_words_after_word, lemma_words_trim, lowercase, owned, split_class, split_words, str_eq,
    strings_view, strs_view, to_lowercase, trim, trim_ws, split_on, words, CharClass,
};

verus! {

/// Tools whose first argument is a sub-command worth comparing.
pub open spec fn is_compound_prefix(w: Seq<char>) -> bool {
    ||| w == "docker"@
    ||| w == "git"@
    ||| w == "systemctl"@
    ||| w == "apt"@
    ||| w == "pacman"@
    ||| w == "brew"@
    ||| w == "dnf"@
    ||| w == "zypper"@
    ||| w == "cargo"@
    ||| w == "npm"@
    ||| w == "pip"@
    ||| w == "kubectl"@
    ||| w == "docker-compose"@
}

fn compound_prefix(w: &str) -> (r: bool)
    ensures
        r == is_compound_prefix(w@),
{
    str_eq(w, "docker") || str_eq(w, "git") || str_eq(w, "systemctl") || str_eq(w, "apt")
        || str_eq(w, "pacman") || str_eq(w, "brew") || str_eq(w, "dnf") || str_eq(w, "zypper")
        || str_eq(w, "cargo") || str_eq(w, "npm") || str_eq(w, "pip") || str_eq(w, "kubectl")
        || str_eq(w, "docker-compose")
}

/// The base of a segment given its lower-case words: `sudo` skipped, then the
/// program name, with the sub-command of a compound tool unless that is a flag.
pub open spec fn base_of_lowered(t: Seq<Seq<char>>) -> Seq<Seq<char>> {
    if t.len() == 0 {
        seq![]
    } else {
        let start: int = if t[0] == "sudo"@ {
            1
        } else {
            0
        };
        if start >= t.len() {
            seq![]
        } else {
            let first = t[start];
            if t.len() > start + 1 && is_compound_prefix(first) && !(t[start + 1].len() > 0
                && t[start + 1][0] == '-') {
                seq![first, t[start + 1]]
            } else {
                seq![first]
            }
        }
    }
}

/// The lower-case forms of the words.
pub open spec fn lowered(ws: Seq<Seq<char>>) -> Seq<Seq<char>> {
    Seq::new(ws.len(), |i: int| lowercase(ws[i]))
}

/// The base command(s) of one pipeline segment.
pub open spec fn segment_base(segment: Seq<char>) -> Seq<Seq<char>> {
    base_of_lowered(lowered(words(segment)))
}

/// The base of a segment from its lower-case words (see `base_of_lowered`).
pub fn base_of_lowered_words(t: &Vec<String>) -> (r: Vec<String>)
    ensures
        strings_view(r@) == base_of_lowered(strings_view(t@)),
{
    let ghost tv = strings_view(t@);
    let n = t.len();
    let mut out: Vec<String> = Vec::new();
    if n == 0 {
        assert(strings_view(out@) =~= seq![]);
        return out;
    }
    assert(tv[0] == t@[0]@);
    let start: usize = if str_eq(t[0].as_str(), "sudo") {
        1
    } else {
        0
    };
    if start >= n {
        assert(strings_view(out@) =~= seq![]);
        return out;
    }
    assert(tv[start as int] == t@[start as int]@);
    let first = t[start].as_str();
    out.push(owned(first));
    if n > start + 1 && compound_prefix(first) {
        let second = t[start + 1].as_str();
        assert(tv[start + 1] == second@);
        if !(second.unicode_len() > 0 && second.get_char(0) == '-') {
            out.push(owned(second));
            assert(strings_view(out@) =~= seq![tv[start as int], tv[start + 1]]);
            return out;
        }
    }
    assert(strings_view(out@) =~= seq![tv[start as int]]);
    out
}

/// Extracts the base command(s) from a single pipeline segment:
/// `docker ps -a` gives `docker ps`, `sudo ss -tulpn` gives `ss`.
pub fn extract_base_from_segment(segment: &str) -> (r: Vec<String>)
    ensures
        strings_view(r@) == segment_base(segment@),
{
    let ws = split_words(segment);
    let ghost wv = strs_view(ws@);
    let mut low: Vec<String> = Vec::new();
    let mut i: usize = 0;
    while i < ws.len()
        invariant
            i <= ws@.len(),
            wv == strs_view(ws@),
            strings_view(low@) == lowered(wv).take(i as int),
        decreases ws@.len() - i,
    {
        let ghost prev = low@;
        let l = to_lowercase(ws[i]);
        assert(wv[i as int] == ws@[i as int]@);
        low.push(l);
        assert(low@ == prev.push(l));
        assert(strings_view(low@) =~= strings_view(prev).push(l@));
        assert(lowered(wv)[i as int] == l@);
        assert(strings_view(low@) =~= lowered(wv).take(i + 1));
        i += 1;
    }
    assert(lowered(wv).take(ws@.len() as int) =~= lowered(wv));
    base_of_lowered_words(&low)
}

/// The segments of a command line: split at `|`, then at `;`.
pub open spec fn split_each(parts: Seq<Seq<char>>) -> Seq<Seq<char>>
    decreases parts.len(),
{
    if parts.len() == 0 {
        seq![]
    } else {
        split_each(parts.drop_last()) + split_on(parts.last(), CharClass::Is(';'))
    }
}

pub open spec fn segments(cmd: Seq<char>) -> Seq<Seq<char>> {
    split_each(split_on(cmd, CharClass::Is('|')))
}

/// The non-empty bases of the (trimmed) segments, in order.
pub open spec fn bases_of(segs: Seq<Seq<char>>) -> Seq<Seq<Seq<char>>>
    decreases segs.len(),
{
    if segs.len() == 0 {
        seq![]
    } else {
        let r = bases_of(segs.drop_last());
        let b = segment_base(trim(segs.last()));
        if b.len() > 0 {
            r.push(b)
        } else {
            r
        }
    }
}

/// All base commands of a command line, one list per pipeline segment.
pub open spec fn all_bases(cmd: Seq<char>) -> Seq<Seq<Seq<char>>> {
    bases_of(segments(cmd))
}

pub open spec fn bases_view(v: Seq<Vec<String>>) -> Seq<Seq<Seq<char>>> {
    Seq::new(v.len(), |i: int| strings_view(v[i]@))
}

proof fn lemma_bases_of_append(a: Seq<Seq<char>>, b: Seq<Seq<char>>)
    ensures
        bases_of(a + b) == bases_of(a) + bases_of(b),
    decreases b.len(),
{
    if b.len() == 0 {
        assert(a + b =~= a);
        assert(bases_of(a) + bases_of(b) =~= bases_of(a));
    } else {
        assert((a + b).drop_last() =~= a + b.drop_last());
        assert((a + b).last() == b.last());
        lemma_bases_of_append(a, b.drop_last());
        let x = segment_base(trim(b.last()));
        if x.len() > 0 {
            assert((bases_of(a) + bases_of(b.drop_last())).push(x) =~= bases_of(a) + bases_of(
                b.drop_last(),
            ).push(x));
        }
    }
}

/// Extracts all base commands from a full command, handling `|` and `;`:
/// `echo hello | tr a-z A-Z` gives `[[echo], [tr]]`.
pub fn extract_all_bases(cmd: &str) -> (r: Vec<Vec<String>>)
    ensures
        bases_view(r@) == all_bases(cmd@),
{
    let parts = split_class(cmd, CharClass::Is('|'));
    let ghost pv = strs_view(parts@);
    let mut out: Vec<Vec<String>> = Vec::new();
    let mut i: usize = 0;
    assert(bases_view(out@) =~= bases_of(split_each(pv.take(0))));
    while i < parts.len()
        invariant
            i <= parts@.len(),
            pv == strs_view(parts@),
            bases_view(out@) == bases_of(split_each(pv.take(i as int))),
        decreases parts@.len() - i,
    {
        let segs = split_class(parts[i], CharClass::Is(';'));
        let ghost sv = strs_view(segs@);
        let ghost before = bases_view(out@);
        assert(pv.take(i + 1).drop_last() =~= pv.take(i as int));
        assert(pv.take(i + 1).last() == parts@[i as int]@);
        let mut j: usize = 0;
        while j < segs.len()
            invariant
                j <= segs@.len(),
                sv == strs_view(segs@),
                bases_view(out@) == before + bases_of(sv.take(j as int)),
            decreases segs@.len() - j,
        {
            assert(sv.take(j + 1).drop_last() =~= sv.take(j as int));
            assert(sv.take(j + 1).last() == segs@[j as int]@);
            let b = extract_base_from_segment(trim_ws(segs[j]));
            if b.len() > 0 {
                let ghost prev = out@;
                out.push(b);
                assert(bases_view(out@) =~= bases_view(prev).push(strings_view(b@)));
            }
            j += 1;
        }
        assert(sv.take(segs@.len() as int) =~= sv);
        proof {
            lemma_bases_of_append(split_each(pv.take(i as int)), sv);
        }
        i += 1;
    }
    assert(pv.take(parts@.len() as int) =~= pv);
    out
}

/// Some base list of `a` equals some base list of `b`.
pub open spec fn bases_overlap(a: Seq<Seq<Seq<char>>>, b: Seq<Seq<Seq<char>>>) -> bool {
    exists|i: int, j: int| 0 <= i < a.len() && 0 <= j < b.len() && #[trigger] a[i] == #[trigger] b[j]
}

/// A suggested command matches the expected ones when some pipeline segment
/// of it has the same base command(s) as some segment of an expected one.
pub open spec fn matches_expected(ai: Seq<char>, expected: Seq<Seq<char>>) -> bool {
    let a = all_bases(ai);
    a.len() > 0 && exists|k: int| 0 <= k < expected.len() && bases_overlap(a, all_bases(#[trigger] expected[k]))
}

fn words_eq(a: &Vec<String>, b: &Vec<String>) -> (r: bool)
    ensures
        r == (strings_view(a@) == strings_view(b@)),
{
    if a.len() != b.len() {
        assert(strings_view(a@).len() != strings_view(b@).len());
        return false;
    }
    let mut i: usize = 0;
    while i < a.len()
        invariant
            a@.len() == b@.len(),
            i <= a@.len(),
            forall|k: int| 0 <= k < i ==> a@[k]@ == b@[k]@,
        decreases a@.len() - i,
    {
        if !str_eq(a[i].as_str(), b[i].as_str()) {
            assert(strings_view(a@)[i as int] != strings_view(b@)[i as int]);
            return false;
        }
        i += 1;
    }
    assert(strings_view(a@) =~= strings_view(b@));
    true
}

/// Checks whether the suggested command matches any expected command: some
/// pipeline segment's base command (`sudo` ignored) equals one of theirs.
pub fn command_matches(ai_cmd: &str, expected_commands: &[String]) -> (r: bool)
    ensures
        r == matches_expected(ai_cmd@, strings_view(expected_commands@)),
{
    let ghost ev = strings_view(expected_commands@);
    let ai_bases = extract_all_bases(ai_cmd);
    let ghost a = bases_view(ai_bases@);
    if ai_bases.len() == 0 {
        return false;
    }
    let mut k: usize = 0;
    while k < expected_commands.len()
        invariant
            k <= expected_commands@.len(),
            ev == strings_view(expected_commands@),
            a == bases_view(ai_bases@),
            a == all_bases(ai_cmd@),
            forall|x: int| 0 <= x < k ==> !bases_overlap(a, all_bases(#[trigger] ev[x])),
        decreases expected_commands@.len() - k,
    {
        let exp_bases = extract_all_bases(expected_commands[k].as_str());
        let ghost b = bases_view(exp_bases@);
        assert(ev[k as int] == expected_commands@[k as int]@);
        let mut i: usize = 0;
        while i < ai_bases.len()
            invariant
                i <= ai_bases@.len(),
                k < expected_commands@.len(),
                a == bases_view(ai_bases@),
                b == bases_view(exp_bases@),
                b == all_bases(ev[k as int]),
                ev == strings_view(expected_commands@),
                a == all_bases(ai_cmd@),
                forall|x: int, y: int| 0 <= x < i && 0 <= y < b.len() ==> a[x] != b[y],
            decreases ai_bases@.len() - i,
        {
            let mut j: usize = 0;
            while j < exp_bases.len()
                invariant
                    i < ai_bases@.len(),
                    j <= exp_bases@.len(),
                    k < expected_commands@.len(),
                    a == bases_view(ai_bases@),
                    b == bases_view(exp_bases@),
                    b == all_bases(ev[k as int]),
                    ev == strings_view(expected_commands@),
                    a == all_bases(ai_cmd@),
                    forall|x: int, y: int| 0 <= x < i && 0 <= y < b.len() ==> a[x] != b[y],
                    forall|y: int| 0 <= y < j ==> a[i as int] != b[y],
                decreases exp_bases@.len() - j,
            {
                if words_eq(&ai_bases[i], &exp_bases[j]) {
                    assert(a[i as int] == strings_view(ai_bases@[i as int]@));
                    assert(b[j as int] == strings_view(exp_bases@[j as int]@));
                    assert(a[i as int] == b[j as int]);
                    assert(bases_overlap(a, all_bases(ev[k as int])));
                    assert(matches_expected(ai_cmd@, ev));
                    return true;
                }
                j += 1;
            }
            i += 1;
        }
        assert(!bases_overlap(a, all_bases(ev[k as int])));
        k += 1;
    }
    false
}

/// A leading `sudo` does not change a segment's base: for lower-case words
/// `sudo w ...` with `w` not itself `sudo`, the base is that of `w ...`.
pub proof fn sudo_prefix_is_transparent(t: Seq<Seq<char>>)
    requires
        t.len() >= 2,
        t[0] == "sudo"@,
        t[1] != "sudo"@,
    ensures
        base_of_lowered(t) == base_of_lowered(t.drop_first()),
{
    let d = t.drop_first();
    assert(d[0] == t[1]);
    if d.len() > 1 {
        assert(d[1] == t[2]);
    }
}

proof fn lemma_split_each_concat(x: Seq<Seq<char>>, y: Seq<Seq<char>>)
    ensures
        split_each(x + y) == split_each(x) + split_each(y),
    decreases y.len(),
{
    if y.len() == 0 {
        assert(x + y =~= x);
        assert(split_each(x) + split_each(y) =~= split_each(x));
    } else {
        assert((x + y).drop_last() =~= x + y.drop_last());
        assert((x + y).last() == y.last());
        lemma_split_each_concat(x, y.drop_last());
        assert(split_each(x) + split_each(y.drop_last()) + split_on(y.last(), CharClass::Is(';'))
            =~= split_each(x) + (split_each(y.drop_last()) + split_on(
            y.last(),
            CharClass::Is(';'),
        )));
    }
}

proof fn lemma_split_each_one(q: Seq<char>)
    ensures
        split_each(seq![q]) == split_on(q, CharClass::Is(';')),
{
    let e = seq![q].drop_last();
    assert(e =~= Seq::<Seq<char>>::empty());
    assert(split_each(e) == Seq::<Seq<char>>::empty());
    assert(seq![q].last() == q);
    assert(Seq::<Seq<char>>::empty() + split_on(q, CharClass::Is(';')) =~= split_on(
        q,
        CharClass::Is(';'),
    ));
}

/// Splitting `p` followed by a text, where `p` holds no separator: `p`
/// joins the text's first piece.
proof fn lemma_split_after_plain(p: Seq<char>, c: Seq<char>, k: CharClass)
    requires
        forall|i: int| 0 <= i < p.len() ==> !k.holds(#[trigger] p[i]),
    ensures
        split_on(p + c, k) == seq![p + split_on(c, k)[0]] + split_on(c, k).drop_first(),
        split_on(c, k) == seq![split_on(c, k)[0]] + split_on(c, k).drop_first(),
{
    lemma_split_on_plain(Seq::empty(), p, k);
    assert(Seq::<char>::empty() + p =~= p);
    assert(split_on(p, k) =~= seq![p]);
    lemma_split_on_concat(p, c, k);
    lemma_split_on_len(c, k);
    assert(seq![p].drop_last() =~= Seq::<Seq<char>>::empty());
    assert(Seq::<Seq<char>>::empty() + seq![p + split_on(c, k)[0]] =~= seq![
        p + split_on(c, k)[0],
    ]);
    assert(split_on(c, k) =~= seq![split_on(c, k)[0]] + split_on(c, k).drop_first());
}

/// The first segment of a command line.
pub open spec fn first_segment(c: Seq<char>) -> Seq<char> {
    segments(c)[0]
}

/// A leading `sudo` is transparent to matching: with a word that lower-cases
/// to `sudo` (and holds no space, `|` or `;`) and a space in front of a
/// command line whose first word does not lower-case to `sudo`, the base
/// commands stay the same, so the line matches the same expected commands.
pub proof fn leading_sudo_keeps_matches(
    w: Seq<char>,
    c: Seq<char>,
    expected: Seq<Seq<char>>,
)
    requires
        w.len() > 0,
        forall|i: int| 0 <= i < w.len() ==> !is_ws(#[trigger] w[i]) && w[i] != '|' && w[i] != ';',
        lowercase(w) == "sudo"@,
        words(first_segment(c)).len() == 0 || lowercase(words(first_segment(c))[0]) != "sudo"@,
    ensures
        all_bases(w.push(' ') + c) == all_bases(c),
        matches_expected(w.push(' ') + c, expected) == matches_expected(c, expected),
{
    let wp = w.push(' ');
    let bar = CharClass::Is('|');
    let semi = CharClass::Is(';');
    assert forall|i: int| 0 <= i < wp.len() implies !bar.holds(#[trigger] wp[i]) && !semi.holds(
        wp[i],
    ) by {
        if i < w.len() {
            assert(wp[i] == w[i]);
        }
    }
    // Pipeline parts: `w ` joins the first one.
    lemma_split_after_plain(wp, c, bar);
    let pc = split_on(c, bar);
    let p0 = pc[0];
    let prest = pc.drop_first();
    // Segments: `w ` joins the first one.
    lemma_split_after_plain(wp, p0, semi);
    let qc = split_on(p0, semi);
    let q0 = qc[0];
    let qrest = qc.drop_first();
    lemma_split_each_concat(seq![wp + p0], prest);
    lemma_split_each_one(wp + p0);
    lemma_split_each_concat(seq![p0], prest);
    lemma_split_each_one(p0);
    let tail = qrest + split_each(prest);
    assert(segments(wp + c) =~= seq![wp + q0] + tail);
    assert(segments(c) =~= seq![q0] + tail);
    assert(first_segment(c) == q0);
    lemma_bases_of_append(seq![wp + q0], tail);
    lemma_bases_of_append(seq![q0], tail);
    // The first segment keeps its base.
    lemma_words_trim(wp + q0);
    lemma_words_trim(q0);
    assert forall|i: int| 0 <= i < w.len() implies !is_ws(#[trigger] w[i]) by {}
    lemma_words_after_word(w, q0);
    let ws = words(q0);
    assert(lowered(seq![w] + ws) =~= seq!["sudo"@] + lowered(ws));
    let t = seq!["sudo"@] + lowered(ws);
    if ws.len() == 0 {
        assert(lowered(ws) =~= Seq::<Seq<char>>::empty());
        assert(base_of_lowered(t) =~= Seq::<Seq<char>>::empty());
    } else {
        assert(t[1] == lowercase(ws[0]));
        sudo_prefix_is_transparent(t);
        assert(t.drop_first() =~= lowered(ws));
    }
    assert(segment_base(trim(wp + q0)) == segment_base(trim(q0)));
    let e1 = seq![wp + q0].drop_last();
    let e2 = seq![q0].drop_last();
    assert(e1 =~= Seq::<Seq<char>>::empty());
    assert(e2 =~= Seq::<Seq<char>>::empty());
    assert(bases_of(e1) == Seq::<Seq<Seq<char>>>::empty());
    assert(bases_of(e2) == Seq::<Seq<Seq<char>>>::empty());
    assert(seq![wp + q0].last() == wp + q0);
    assert(seq![q0].last() == q0);
    assert(bases_of(seq![wp + q0]) == bases_of(seq![q0]));
}

/// The tools whose sub-command is compared, as the test bench lists them.
pub open spec fn listed_compound(w: Seq<char>) -> bool {
    ||| w == "docker"@
    ||| w == "git"@
    ||| w == "systemctl"@
    ||| w == "apt"@
    ||| w == "pacman"@
    ||| w == "brew"@
    ||| w == "dnf"@
    ||| w == "zypper"@
    ||| w == "cargo"@
    ||| w == "npm"@
    ||| w == "pip"@
    ||| w == "kubectl"@
    ||| w == "docker-compose"@
}

proof fn lemma_listed_not_sudo(w: Seq<char>)
    requires
        listed_compound(w),
    ensures
        w != "sudo"@,
{
    reveal_strlit("sudo");
    reveal_strlit("docker");
    reveal_strlit("git");
    reveal_strlit("systemctl");
    reveal_strlit("apt");
    reveal_strlit("pacman");
    reveal_strlit("brew");
    reveal_strlit("dnf");
    reveal_strlit("zypper");
    reveal_strlit("cargo");
    reveal_strlit("npm");
    reveal_strlit("pip");
    reveal_strlit("kubectl");
    reveal_strlit("docker-compose");
    if w == "sudo"@ {
        assert(w[0] == 's');
        assert(w.len() == 4);
    }
}

/// Each of docker, git, systemctl, apt, pacman, brew, dnf, zypper, cargo,
/// npm, pip, kubectl and docker-compose keeps its sub-command: the base of
/// lower-case words `w s ...`, where `s` is not a flag, is `[w, s]`.
pub proof fn compound_tools_keep_subcommand(t: Seq<Seq<char>>)
    requires
        t.len() >= 2,
        listed_compound(t[0]),
        !(t[1].len() > 0 && t[1][0] == '-'),
    ensures
        base_of_lowered(t) == seq![t[0], t[1]],
{
    lemma_listed_not_sudo(t[0]);
}

/// A compound tool followed by a flag, and any program not in that list, is
/// its base alone: for lower-case words `w ...` with `w` not `sudo`, the base
/// is `[w]` unless `w` is one of the listed tools and a non-flag word follows.
pub proof fn other_commands_stand_alone(t: Seq<Seq<char>>)
    requires
        t.len() >= 1,
        t[0] != "sudo"@,
        !listed_compound(t[0]) || t.len() == 1 || (t[1].len() > 0 && t[1][0] == '-'),
    ensures
        base_of_lowered(t) == seq![t[0]],
{
}

/// Matching is symmetric: a command matches another exactly when the other
/// matches it.
pub proof fn command_match_is_symmetric(a: Seq<char>, b: Seq<char>)
    ensures
        matches_expected(a, seq![b]) == matches_expected(b, seq![a]),
{
    let ab = all_bases(a);
    let bb = all_bases(b);
    if matches_expected(a, seq![b]) {
        let k = choose|k: int| 0 <= k < 1 && bases_overlap(ab, all_bases(#[trigger] seq![b][k]));
        assert(seq![b][k] == b);
        let (i, j) = choose|i: int, j: int| 0 <= i < ab.len() && 0 <= j < bb.len() && #[trigger] ab[i] == #[trigger] bb[j];
        assert(bases_overlap(bb, ab));
        assert(seq![a][0] == a);
    }
    if matches_expected(b, seq![a]) {
        let k = choose|k: int| 0 <= k < 1 && bases_overlap(bb, all_bases(#[trigger] seq![a][k]));
        assert(seq![a][k] == a);
        let (i, j) = choose|i: int, j: int| 0 <= i < bb.len() && 0 <= j < ab.len() && #[trigger] bb[i] == #[trigger] ab[j];
        assert(bases_overlap(ab, bb));
        assert(seq![b][0] == b);
    }
}

/// A command with at least one base command matches itself.
pub proof fn command_matches_itself(a: Seq<char>)
    ensures
        matches_expected(a, seq![a]) == (all_bases(a).len() > 0),
{
    let ab = all_bases(a);
    if ab.len() > 0 {
        assert(ab[0] == ab[0]);
        assert(bases_overlap(ab, ab));
        assert(seq![a][0] == a);
    }
}

} // verus!
