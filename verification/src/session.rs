//! Per-directory conversation history: one JSON record per line, read back
//! as (question, answer) pairs.

use vstd::prelude::*;
use crate::text::{
    concat_str, lemma_lead_len_bound, lemma_split_on_concat, lemma_split_on_len,
    lemma_split_on_plain, lemma_split_on_sep,
    lead_len, lines_of, owned, split_lines, split_on, str_eq, strip_cr, strs_view, trim, trim_class,
    trim_start_by, trim_ws, CharClass,
};

verus! {

/// One stored message: its role (`user` or `assistant`) and its text.
#[derive(Debug, Clone)]
pub struct Message {
    pub role: String,
    pub content: String,
}

pub open spec fn messages_view(v: Seq<Message>) -> Seq<(Seq<char>, Seq<char>)> {
    Seq::new(v.len(), |i: int| (v[i].role@, v[i].content@))
}

pub open spec fn pairs_view(v: Seq<(String, String)>) -> Seq<(Seq<char>, Seq<char>)> {
    Seq::new(v.len(), |i: int| (v[i].0@, v[i].1@))
}

/// Reading messages in order: a user message waits for its answer (a later
/// user message replaces it); an assistant message completes the waiting
/// question into a pair; messages of other roles are ignored.
pub open spec fn pair_state(msgs: Seq<(Seq<char>, Seq<char>)>) -> (
    Seq<(Seq<char>, Seq<char>)>,
    Option<Seq<char>>,
)
    decreases msgs.len(),
{
    if msgs.len() == 0 {
        (seq![], None)
    } else {
        let (pairs, pending) = pair_state(msgs.drop_last());
        let m = msgs.last();
        if m.0 == "user"@ {
            (pairs, Some(m.1))
        } else if m.0 == "assistant"@ {
            match pending {
                Some(u) => (pairs.push((u, m.1)), None),
                None => (pairs, None),
            }
        } else {
            (pairs, pending)
        }
    }
}

/// The (question, answer) pairs of a conversation.
pub open spec fn history_pairs(msgs: Seq<(Seq<char>, Seq<char>)>) -> Seq<(Seq<char>, Seq<char>)> {
    pair_state(msgs).0
}

/// The most recent pairs within a limit of `n` messages, a question and its
/// answer each counting as one (so `n / 2` pairs, none when `n < 2`);
/// everything without a limit.
pub open spec fn limit_pairs(pairs: Seq<(Seq<char>, Seq<char>)>, limit: Option<usize>) -> Seq<
    (Seq<char>, Seq<char>),
> {
    match limit {
        Some(n) => {
            let keep: int = (n / 2) as int;
            let skip: int = if pairs.len() > keep {
                pairs.len() - keep
            } else {
                0
            };
            pairs.skip(skip)
        },
        None => pairs,
    }
}

/// The conversation history as (user, assistant) pairs, limited to the most
/// recent `limit` messages (user and assistant each count as one).
pub fn history_from_messages(messages: &Vec<Message>, limit: Option<usize>) -> (r: Vec<
    (String, String),
>)
    ensures
        pairs_view(r@) == limit_pairs(history_pairs(messages_view(messages@)), limit),
{
    let ghost mv = messages_view(messages@);
    let mut pairs: Vec<(String, String)> = Vec::new();
    let mut pending: Option<String> = None;
    let mut i: usize = 0;
    assert(mv.take(0) =~= Seq::<(Seq<char>, Seq<char>)>::empty());
    assert(pairs_view(pairs@) =~= seq![]);
    while i < messages.len()
        invariant
            i <= messages@.len(),
            mv == messages_view(messages@),
            pair_state(mv.take(i as int)) == (pairs_view(pairs@), match pending {
                Some(p) => Some(p@),
                None => None::<Seq<char>>,
            }),
        decreases messages@.len() - i,
    {
        assert(mv.take(i + 1).drop_last() =~= mv.take(i as int));
        assert(mv.take(i + 1).last() == (messages@[i as int].role@, messages@[i as int].content@));
        let m = &messages[i];
        if str_eq(m.role.as_str(), "user") {
            pending = Some(owned(m.content.as_str()));
        } else if str_eq(m.role.as_str(), "assistant") {
            match pending {
                Some(u) => {
                    let ghost prev = pairs@;
                    let a = owned(m.content.as_str());
                    let ghost uv = u@;
                    pairs.push((u, a));
                    assert(pairs_view(pairs@) =~= pairs_view(prev).push((uv, a@)));
                    pending = None;
                },
                None => {},
            }
        }
        i += 1;
    }
    assert(mv.take(messages@.len() as int) =~= mv);
    let ghost all = pairs_view(pairs@);
    let n = pairs.len();
    let skip: usize = match limit {
        Some(l) => {
            let keep = l / 2;
            if n > keep {
                n - keep
            } else {
                0
            }
        },
        None => 0,
    };
    let mut out: Vec<(String, String)> = Vec::new();
    let mut j = skip;
    while j < n
        invariant
            skip <= j <= n,
            n == pairs@.len(),
            all == pairs_view(pairs@),
            pairs_view(out@) == all.subrange(skip as int, j as int),
        decreases n - j,
    {
        let ghost prev = out@;
        let p = (owned(pairs[j].0.as_str()), owned(pairs[j].1.as_str()));
        assert(p.0@ == pairs@[j as int].0@ && p.1@ == pairs@[j as int].1@);
        let ghost pv = (p.0@, p.1@);
        out.push(p);
        assert(pairs_view(out@) =~= pairs_view(prev).push(pv));
        assert(all[j as int] == (pairs@[j as int].0@, pairs@[j as int].1@));
        assert(pairs_view(out@) =~= all.subrange(skip as int, j + 1));
        j += 1;
    }
    assert(all.subrange(skip as int, n as int) =~= limit_pairs(all, limit));
    out
}

/// A question and its answer, appended as the next two messages, come back
/// as the last pair of the history.
pub proof fn appended_exchange_is_last_pair(
    msgs: Seq<(Seq<char>, Seq<char>)>,
    question: Seq<char>,
    answer: Seq<char>,
)
    ensures
        history_pairs(msgs.push(("user"@, question)).push(("assistant"@, answer)))
            == history_pairs(msgs).push((question, answer)),
{
    reveal_strlit("user");
    reveal_strlit("assistant");
    let m1 = msgs.push(("user"@, question));
    let m2 = m1.push(("assistant"@, answer));
    assert(m2.drop_last() =~= m1);
    assert(m1.drop_last() =~= msgs);
    assert(m1.last() == ("user"@, question));
    assert(m2.last() == ("assistant"@, answer));
    assert("user"@ != "assistant"@) by {
        assert("user"@.len() != "assistant"@.len());
    }
    assert(pair_state(m1) == (history_pairs(msgs), Some(question)));
}

/// With no limit, or a limit of at least two messages, the history loaded
/// after an exchange is appended ends with that exchange.
pub proof fn history_remembers_last_exchange(
    msgs: Seq<(Seq<char>, Seq<char>)>,
    question: Seq<char>,
    answer: Seq<char>,
    limit: Option<usize>,
)
    requires
        limit matches Some(n) ==> n >= 2,
    ensures
        ({
            let h = limit_pairs(
                history_pairs(msgs.push(("user"@, question)).push(("assistant"@, answer))),
                limit,
            );
            h.len() > 0 && h.last() == (question, answer)
        }),
{
    appended_exchange_is_last_pair(msgs, question, answer);
}

/// A limit of `n` messages keeps the `min(n / 2, all)` most recent pairs,
/// so never more than `n` messages.
pub proof fn limit_keeps_recent_pairs(pairs: Seq<(Seq<char>, Seq<char>)>, n: usize)
    ensures
        ({
            let h = limit_pairs(pairs, Some(n));
            &&& h.len() == if pairs.len() < n / 2 {
                pairs.len() as int
            } else {
                (n / 2) as int
            }
            &&& 2 * h.len() <= n
            &&& h == pairs.subrange(pairs.len() - h.len(), pairs.len() as int)
        }),
{
    let h = limit_pairs(pairs, Some(n));
    assert(h =~= pairs.subrange(pairs.len() - h.len(), pairs.len() as int));
}

/// The non-blank lines of a session file: its records.
pub open spec fn record_lines(content: Seq<char>) -> Seq<Seq<char>>
    decreases content.len(),
{
    nonblank(lines_of(content))
}

/// The lines that are not blank, in order.
pub open spec fn nonblank(ls: Seq<Seq<char>>) -> Seq<Seq<char>>
    decreases ls.len(),
{
    if ls.len() == 0 {
        ls
    } else {
        let r = nonblank(ls.drop_last());
        if trim(ls.last()).len() > 0 {
            r.push(ls.last())
        } else {
            r
        }
    }
}

/// The records of a session file, one per non-blank line.
pub fn session_records(content: &str) -> (r: Vec<&str>)
    ensures
        strs_view(r@) == record_lines(content@),
{
    let lines = split_lines(content);
    let ghost lv = strs_view(lines@);
    let mut out: Vec<&str> = Vec::new();
    let mut i: usize = 0;
    while i < lines.len()
        invariant
            i <= lines@.len(),
            lv == strs_view(lines@),
            strs_view(out@) == nonblank(lv.take(i as int)),
        decreases lines@.len() - i,
    {
        assert(lv.take(i + 1).drop_last() =~= lv.take(i as int));
        assert(lv.take(i + 1).last() == lines@[i as int]@);
        let l = lines[i];
        if trim_ws(l).unicode_len() > 0 {
            let ghost prev = out@;
            out.push(l);
            assert(strs_view(out@) =~= strs_view(prev).push(l@));
        }
        i += 1;
    }
    assert(lv.take(lines@.len() as int) =~= lv);
    out
}

/// The text appended to a session file for one exchange: each record that
/// could be written, followed by a line break.
pub open spec fn framed(records: Seq<Option<Seq<char>>>) -> Seq<char>
    decreases records.len(),
{
    if records.len() == 0 {
        seq![]
    } else {
        framed(records.drop_last()) + match records.last() {
            Some(r) => r + seq!['\n'],
            None => seq![],
        }
    }
}

/// Joins the serialised user and assistant records into the text appended
/// to the session file.
pub fn frame_exchange(user_record: Option<&str>, assistant_record: Option<&str>) -> (r: String)
    ensures
        r@ == framed(
            seq![
                match user_record { Some(u) => Some(u@), None => None },
                match assistant_record { Some(a) => Some(a@), None => None },
            ],
        ),
{
    let ghost recs = seq![
        match user_record { Some(u) => Some(u@), None => None::<Seq<char>> },
        match assistant_record { Some(a) => Some(a@), None => None::<Seq<char>> },
    ];
    assert(recs.drop_last().drop_last() =~= Seq::<Option<Seq<char>>>::empty());
    proof {
        reveal_strlit("\n");
    }
    assert("\n"@ =~= seq!['\n']);
    assert(framed(recs.drop_last().drop_last()) == Seq::<char>::empty());
    let mut data = String::new();
    if let Some(u) = user_record {
        data.append(u);
        data.append("\n");
    }
    assert(data@ =~= framed(recs.drop_last()));
    if let Some(a) = assistant_record {
        data.append(a);
        data.append("\n");
    }
    assert(data@ =~= framed(recs));
    data
}

/// A record as written: one line, not blank, not ending in a carriage return
/// (serialised JSON escapes both line breaks and carriage returns).
pub open spec fn single_line_record(r: Seq<char>) -> bool {
    &&& forall|i: int| 0 <= i < r.len() ==> #[trigger] r[i] != '\n'
    &&& !(r.len() > 0 && r.last() == '\r')
    &&& trim(r).len() > 0
}

/// What is appended for an exchange reads back as its two records.
pub proof fn framed_exchange_reads_back(user_record: Seq<char>, assistant_record: Seq<char>)
    requires
        single_line_record(user_record),
        single_line_record(assistant_record),
    ensures
        record_lines(framed(seq![Some(user_record), Some(assistant_record)])) == seq![
            user_record,
            assistant_record,
        ],
{
    let u = user_record;
    let a = assistant_record;
    let nl = CharClass::Is('\n');
    let recs = seq![Some(u), Some(a)];
    assert(recs.drop_last().drop_last() =~= Seq::<Option<Seq<char>>>::empty());
    assert(recs.drop_last().last() == Some(u));
    let text = u + seq!['\n'] + a + seq!['\n'];
    assert(framed(recs.drop_last().drop_last()) =~= Seq::<char>::empty());
    assert(framed(recs.drop_last()) =~= u + seq!['\n']);
    assert(recs.last() == Some(a));
    assert(framed(recs) =~= text);
    let e = Seq::<char>::empty();
    lemma_split_on_plain(e, u, nl);
    assert(e + u =~= u);
    assert(split_on(u, nl) =~= seq![u]);
    lemma_split_on_sep(u, '\n', nl);
    assert(u.push('\n') =~= u + seq!['\n']);
    lemma_split_on_plain(u + seq!['\n'], a, nl);
    assert(split_on(u + seq!['\n'] + a, nl) =~= seq![u, a]);
    lemma_split_on_sep(u + seq!['\n'] + a, '\n', nl);
    assert((u + seq!['\n'] + a).push('\n') =~= text);
    let p = split_on(text, nl);
    assert(p =~= seq![u, e, ].update(1, a).push(e));
    assert(p =~= seq![u, a, e]);
    assert(strip_cr(u) == u);
    assert(strip_cr(a) == a);
    assert(lines_of(text) =~= seq![u, a]);
    let ls = seq![u, a];
    assert(ls.drop_last() =~= seq![u]);
    assert(ls.drop_last().drop_last() =~= Seq::<Seq<char>>::empty());
    let one = seq![u];
    assert(one.drop_last() =~= Seq::<Seq<char>>::empty());
    assert(one.last() == u);
    assert(nonblank(one.drop_last()) =~= Seq::<Seq<char>>::empty());
    assert(trim(one.last()).len() > 0);
    assert(nonblank(one) =~= seq![u]);
    assert(ls.last() == a);
    assert(nonblank(ls) =~= seq![u, a]);
}

proof fn lemma_nonblank_concat(x: Seq<Seq<char>>, y: Seq<Seq<char>>)
    ensures
        nonblank(x + y) == nonblank(x) + nonblank(y),
    decreases y.len(),
{
    if y.len() == 0 {
        assert(x + y =~= x);
        assert(nonblank(x) + nonblank(y) =~= nonblank(x));
    } else {
        assert((x + y).drop_last() =~= x + y.drop_last());
        assert((x + y).last() == y.last());
        lemma_nonblank_concat(x, y.drop_last());
        if trim(y.last()).len() > 0 {
            assert((nonblank(x) + nonblank(y.drop_last())).push(y.last()) =~= nonblank(x)
                + nonblank(y.drop_last()).push(y.last()));
        }
    }
}

/// The lines of a text that is empty or ends with a line break, followed by
/// more text, are its lines followed by those of the rest.
proof fn lemma_lines_after_line_break(f: Seq<char>, x: Seq<char>)
    requires
        f.len() == 0 || f.last() == '\n',
    ensures
        lines_of(f + x) == lines_of(f) + lines_of(x),
{
    let nl = CharClass::Is('\n');
    lemma_split_on_len(x, nl);
    let sx = split_on(x, nl);
    if f.len() == 0 {
        assert(f + x =~= x);
        assert(split_on(f, nl) =~= seq![Seq::<char>::empty()]);
        assert(lines_of(f) =~= Seq::<Seq<char>>::empty());
        assert(lines_of(f) + lines_of(x) =~= lines_of(x));
    } else {
        let f0 = f.drop_last();
        assert(f0.push('\n') =~= f);
        lemma_split_on_sep(f0, '\n', nl);
        lemma_split_on_len(f0, nl);
        let a = split_on(f0, nl);
        let sf = split_on(f, nl);
        assert(sf =~= a.push(Seq::<char>::empty()));
        lemma_split_on_concat(f, x, nl);
        let p = split_on(f + x, nl);
        assert(sf.drop_last() =~= a);
        assert(sf.last() + sx[0] =~= sx[0]);
        assert(p =~= a + sx);
        assert(lines_of(f) =~= Seq::new(a.len(), |i: int| strip_cr(a[i])));
        let lf = lines_of(f);
        let lx = lines_of(x);
        let lp = lines_of(f + x);
        assert(p.last() == sx.last());
        assert(lp.len() == lf.len() + lx.len());
        assert forall|i: int| 0 <= i < lp.len() implies #[trigger] lp[i] == (lf + lx)[i] by {
            if i < a.len() {
                assert(p[i] == a[i]);
            } else {
                assert(p[i] == sx[i - a.len()]);
            }
        }
        assert(lp =~= lf + lx);
    }
}

/// An exchange appended to a session file that is empty or ends with a line
/// break reads back as the file's earlier records followed by the exchange's
/// two records.
pub proof fn appended_exchange_reads_back(
    prior: Seq<char>,
    user_record: Seq<char>,
    assistant_record: Seq<char>,
)
    requires
        prior.len() == 0 || prior.last() == '\n',
        single_line_record(user_record),
        single_line_record(assistant_record),
    ensures
        record_lines(prior + framed(seq![Some(user_record), Some(assistant_record)]))
            == record_lines(prior) + seq![user_record, assistant_record],
{
    let x = framed(seq![Some(user_record), Some(assistant_record)]);
    lemma_lines_after_line_break(prior, x);
    lemma_nonblank_concat(lines_of(prior), lines_of(x));
    framed_exchange_reads_back(user_record, assistant_record);
}

/// The messages read from records, in order, through a record decoder;
/// records it cannot read are skipped.
pub open spec fn decoded_messages(
    records: Seq<Seq<char>>,
    decode: spec_fn(Seq<char>) -> Option<(Seq<char>, Seq<char>)>,
) -> Seq<(Seq<char>, Seq<char>)>
    decreases records.len(),
{
    if records.len() == 0 {
        seq![]
    } else {
        let r = decoded_messages(records.drop_last(), decode);
        match decode(records.last()) {
            Some(m) => r.push(m),
            None => r,
        }
    }
}

/// The session remembers an exchange: after a question and its answer are
/// appended (as records that the decoder reads back as a user and an
/// assistant message) to a session file that is empty or ends with a line
/// break, the unlimited history is the earlier one with that exchange added.
pub proof fn session_remembers_exchange(
    prior: Seq<char>,
    user_record: Seq<char>,
    assistant_record: Seq<char>,
    question: Seq<char>,
    answer: Seq<char>,
    decode: spec_fn(Seq<char>) -> Option<(Seq<char>, Seq<char>)>,
)
    requires
        prior.len() == 0 || prior.last() == '\n',
        single_line_record(user_record),
        single_line_record(assistant_record),
        decode(user_record) == Some(("user"@, question)),
        decode(assistant_record) == Some(("assistant"@, answer)),
    ensures
        history_pairs(
            decoded_messages(
                record_lines(prior + framed(seq![Some(user_record), Some(assistant_record)])),
                decode,
            ),
        ) == history_pairs(decoded_messages(record_lines(prior), decode)).push((question, answer)),
{
    appended_exchange_reads_back(prior, user_record, assistant_record);
    let r0 = record_lines(prior);
    let r2 = r0 + seq![user_record, assistant_record];
    let r1 = r0.push(user_record);
    assert(r2.drop_last() =~= r1);
    assert(r2.last() == assistant_record);
    assert(r1.drop_last() =~= r0);
    assert(r1.last() == user_record);
    let m0 = decoded_messages(r0, decode);
    assert(decoded_messages(r1, decode) == m0.push(("user"@, question)));
    assert(decoded_messages(r2, decode) == m0.push(("user"@, question)).push(
        ("assistant"@, answer),
    ));
    appended_exchange_is_last_pair(m0, question, answer);
}

/// The file name of a directory's session: the directory path with its
/// separators made `_` and leading `_` removed, then `.jsonl`.
pub open spec fn sanitized(path: Seq<char>) -> Seq<char> {
    trim_start_by(separators_to_underscore(path), CharClass::Is('_'))
}

/// `path` with each `/` and `\` replaced by `_`.
pub open spec fn separators_to_underscore(path: Seq<char>) -> Seq<char> {
    Seq::new(path.len(), |i: int| if path[i] == '/' || path[i] == '\\' { '_' } else { path[i] })
}

/// Turns a directory path into a file-name stem: `/` and `\` become `_`,
/// and leading `_` are removed.
pub fn sanitize_path(path: &str) -> (r: String)
    ensures
        r@ == sanitized(path@),
        forall|i: int| 0 <= i < r@.len() ==> r@[i] != '/' && r@[i] != '\\',
        r@.len() > 0 ==> r@[0] != '_',
{
    let n = path.unicode_len();
    let ghost mapped = separators_to_underscore(path@);
    let mut s = String::new();
    let mut i: usize = 0;
    proof {
        reveal_strlit("_");
    }
    while i < n
        invariant
            n == path@.len(),
            i <= n,
            s@ == mapped.take(i as int),
            mapped == separators_to_underscore(path@),
        decreases n - i,
    {
        let c = path.get_char(i);
        let ghost prev = s@;
        if c == '/' || c == '\\' {
            proof {
                reveal_strlit("_");
            }
            s.append("_");
            assert("_"@ =~= seq!['_']);
        } else {
            let one = path.substring_char(i, i + 1);
            assert(one@ =~= seq![c]);
            s.append(one);
        }
        assert(s@ =~= prev.push(mapped[i as int]));
        assert(s@ =~= mapped.take(i + 1));
        i += 1;
    }
    assert(mapped.take(n as int) =~= mapped);
    let r = owned(trim_class(s.as_str(), CharClass::Is('_'), true, false));
    proof {
        let k = lead_len(mapped, CharClass::Is('_'));
        lemma_lead_len_bound(mapped, CharClass::Is('_'));
        assert forall|i: int| 0 <= i < r@.len() implies r@[i] != '/' && r@[i] != '\\' by {
            assert(r@[i] == mapped[i + k]);
        }
        if r@.len() > 0 {
            assert(r@[0] == mapped[k as int]);
        }
    }
    r
}

/// The name of the session file of a directory.
pub fn session_file_name(cwd: &str) -> (r: String)
    ensures
        r@ == sanitized(cwd@) + ".jsonl"@,
{
    let stem = sanitize_path(cwd);
    concat_str(stem.as_str(), ".jsonl")
}

} // verus!
