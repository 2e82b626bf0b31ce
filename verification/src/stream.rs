//! Decoding a streamed completion (server-sent events): complete lines are
//! taken from the text received so far; `data: {json}` lines carry pieces
//! of the answer and `data: [DONE]` ends it.

use vstd::prelude::*;
use crate::api::{choice_content, json_choice_content};
use crate::text::{
    concat_str, lemma_trim_padded, lemma_trimmed_ends, owned, starts_with, str_eq, strings_view,
    trim, trim_ws, CharClass,
};

verus! {

/// What one event line does.
pub enum LineEffect {
    Skip,
    Done,
    Piece(Seq<char>),
}

/// A trimmed line `data: [DONE]` ends the stream; another `data: ` line adds
/// the string at `choices[0].delta.content` of its JSON, when there is one;
/// any other line is skipped.
pub open spec fn line_effect(line: Seq<char>) -> LineEffect {
    let t = trim(line);
    if t.len() >= 6 && t.take(6) == "data: "@ {
        let js = t.skip(6);
        if trim(js) == "[DONE]"@ {
            LineEffect::Done
        } else {
            match json_choice_content(js, "delta"@) {
                Some(Some(c)) => LineEffect::Piece(c),
                _ => LineEffect::Skip,
            }
        }
    } else {
        LineEffect::Skip
    }
}

/// Offset of the first line break.
pub open spec fn first_newline(s: Seq<char>) -> Option<int>
    decreases s.len(),
{
    if s.len() == 0 {
        None
    } else if s[0] == '\n' {
        Some(0)
    } else {
        match first_newline(s.drop_first()) {
            Some(p) => Some(p + 1),
            None => None,
        }
    }
}

/// Taking the complete lines off `buffer` in order, adding the pieces they
/// carry to `full` and to `pieces`, until no line break is left or a line
/// ends the stream: (buffer left, answer so far, ended, pieces).
pub open spec fn drain(buffer: Seq<char>, full: Seq<char>, pieces: Seq<Seq<char>>) -> (
    Seq<char>,
    Seq<char>,
    bool,
    Seq<Seq<char>>,
)
    decreases buffer.len(),
{
    match first_newline(buffer) {
        None => (buffer, full, false, pieces),
        Some(p) => if 0 <= p < buffer.len() {
            let rest = buffer.skip(p + 1);
            match line_effect(buffer.take(p)) {
                LineEffect::Done => (rest, full, true, pieces),
                LineEffect::Piece(c) => drain(rest, full + c, pieces.push(c)),
                LineEffect::Skip => drain(rest, full, pieces),
            }
        } else {
            (buffer, full, false, pieces)
        },
    }
}

/// The decoder after a chunk of text arrives, and the pieces to show: an
/// ended stream ignores what follows.
pub open spec fn feed(state: (Seq<char>, Seq<char>, bool), chunk: Seq<char>) -> (
    (Seq<char>, Seq<char>, bool),
    Seq<Seq<char>>,
) {
    if state.2 {
        (state, seq![])
    } else {
        let d = drain(state.0 + chunk, state.1, seq![]);
        ((d.0, d.1, d.2), d.3)
    }
}

/// The state of a streamed completion being read.
pub struct StreamDecoder {
    buffer: String,
    full_response: String,
    done: bool,
}

impl View for StreamDecoder {
    /// (text not yet ending in a line break, answer so far, ended)
    type V = (Seq<char>, Seq<char>, bool);

    closed spec fn view(&self) -> (Seq<char>, Seq<char>, bool) {
        (self.buffer@, self.full_response@, self.done)
    }
}

enum Outcome {
    Skip,
    Done,
    Piece(String),
}

proof fn lemma_first_newline_bounds(s: Seq<char>)
    ensures
        first_newline(s) matches Some(p) ==> 0 <= p < s.len() && s[p] == '\n' && forall|
            i: int,
        | 0 <= i < p ==> s[i] != '\n',
        first_newline(s) is None ==> forall|i: int| 0 <= i < s.len() ==> s[i] != '\n',
    decreases s.len(),
{
    if s.len() > 0 && s[0] != '\n' {
        lemma_first_newline_bounds(s.drop_first());
        let t = s.drop_first();
        assert forall|i: int| 1 <= i < s.len() implies s[i] == t[i - 1] by {}
    }
}

proof fn lemma_first_newline_at(s: Seq<char>, p: int)
    requires
        0 <= p <= s.len(),
        forall|i: int| 0 <= i < p ==> s[i] != '\n',
        p == s.len() || s[p] == '\n',
    ensures
        p < s.len() ==> first_newline(s) == Some(p),
        p == s.len() ==> first_newline(s) is None,
    decreases p,
{
    if p > 0 {
        let t = s.drop_first();
        assert forall|i: int| 0 <= i < p - 1 implies t[i] != '\n' by {
            assert(t[i] == s[i + 1]);
        }
        if p < s.len() {
            assert(t[p - 1] == s[p]);
        }
        lemma_first_newline_at(t, p - 1);
    }
}

fn find_newline(s: &str) -> (r: Option<usize>)
    ensures
        r matches Some(p) ==> first_newline(s@) == Some(p as int),
        r is None ==> first_newline(s@) is None,
{
    let n = s.unicode_len();
    let mut i: usize = 0;
    while i < n
        invariant
            n == s@.len(),
            i <= n,
            forall|k: int| 0 <= k < i ==> s@[k] != '\n',
        decreases n - i,
    {
        if s.get_char(i) == '\n' {
            proof {
                lemma_first_newline_at(s@, i as int);
            }
            return Some(i);
        }
        i += 1;
    }
    proof {
        lemma_first_newline_at(s@, n as int);
    }
    None
}

fn outcome_of(line: &str) -> (r: Outcome)
    ensures
        match (r, line_effect(line@)) {
            (Outcome::Skip, LineEffect::Skip) => true,
            (Outcome::Done, LineEffect::Done) => true,
            (Outcome::Piece(c), LineEffect::Piece(d)) => c@ == d,
            _ => false,
        },
{
    let t = trim_ws(line);
    if !starts_with(t, "data: ") {
        proof {
            reveal_strlit("data: ");
        }
        return Outcome::Skip;
    }
    proof {
        reveal_strlit("data: ");
    }
    let js = t.substring_char(6, t.unicode_len());
    assert(js@ =~= t@.skip(6));
    if str_eq(trim_ws(js), "[DONE]") {
        return Outcome::Done;
    }
    match choice_content(js, "delta") {
        Some(Some(c)) => Outcome::Piece(c),
        _ => Outcome::Skip,
    }
}

impl StreamDecoder {
    /// A decoder that has received nothing.
    pub fn new() -> (r: StreamDecoder)
        ensures
            r@ == (Seq::<char>::empty(), Seq::<char>::empty(), false),
    {
        StreamDecoder { buffer: String::new(), full_response: String::new(), done: false }
    }

    /// The answer received so far.
    pub fn full_response(&self) -> (r: &str)
        ensures
            r@ == self@.1,
    {
        self.full_response.as_str()
    }

    /// Whether the stream has ended with `data: [DONE]`.
    pub fn is_done(&self) -> (r: bool)
        ensures
            r == self@.2,
    {
        self.done
    }

    /// The whole answer.
    pub fn into_response(self) -> (r: String)
        ensures
            r@ == self@.1,
    {
        self.full_response
    }

    /// Takes in a chunk of received text; returns the pieces of the answer
    /// that its complete lines carry, in order (to be shown as they come).
    pub fn push_chunk(&mut self, chunk: &str) -> (r: Vec<String>)
        ensures
            (final(self)@, strings_view(r@)) == feed(old(self)@, chunk@),
    {
        if self.done {
            let v: Vec<String> = Vec::new();
            assert(strings_view(v@) =~= seq![]);
            return v;
        }
        let ghost start = drain(self.buffer@ + chunk@, self.full_response@, seq![]);
        let mut buf = concat_str(self.buffer.as_str(), chunk);
        let mut full = owned(self.full_response.as_str());
        let mut pieces: Vec<String> = Vec::new();
        assert(strings_view(pieces@) =~= seq![]);
        let mut ended = false;
        loop
            invariant_except_break
                drain(buf@, full@, strings_view(pieces@)) == start,
                !ended,
            ensures
                start == (buf@, full@, ended, strings_view(pieces@)),
            decreases buf@.len(),
        {
            match find_newline(buf.as_str()) {
                None => {
                    break;
                },
                Some(p) => {
                    proof {
                        lemma_first_newline_bounds(buf@);
                    }
                    let n = buf.as_str().unicode_len();
                    let line = buf.as_str().substring_char(0, p);
                    let rest = owned(buf.as_str().substring_char(p + 1, n));
                    assert(line@ =~= buf@.take(p as int));
                    assert(rest@ =~= buf@.skip(p + 1));
                    match outcome_of(line) {
                        Outcome::Done => {
                            buf = rest;
                            ended = true;
                            break;
                        },
                        Outcome::Piece(c) => {
                            let ghost prev = strings_view(pieces@);
                            let ghost cv = c@;
                            full = concat_str(full.as_str(), c.as_str());
                            pieces.push(c);
                            assert(strings_view(pieces@) =~= prev.push(cv));
                            buf = rest;
                        },
                        Outcome::Skip => {
                            buf = rest;
                        },
                    }
                },
            }
        }
        self.buffer = buf;
        self.full_response = full;
        self.done = ended;
        pieces
    }
}

proof fn lemma_drain_pieces(buffer: Seq<char>, full: Seq<char>, ps: Seq<Seq<char>>)
    ensures
        ({
            let a = drain(buffer, full, ps);
            let b = drain(buffer, full, seq![]);
            a.0 == b.0 && a.1 == b.1 && a.2 == b.2 && a.3 == ps + b.3
        }),
    decreases buffer.len(),
{
    match first_newline(buffer) {
        None => {
            assert(ps + seq![] =~= ps);
        },
        Some(p) => {
            if 0 <= p < buffer.len() {
                let rest = buffer.skip(p + 1);
                match line_effect(buffer.take(p)) {
                    LineEffect::Done => {
                        assert(ps + Seq::<Seq<char>>::empty() =~= ps);
                    },
                    LineEffect::Piece(c) => {
                        lemma_drain_pieces(rest, full + c, ps.push(c));
                        lemma_drain_pieces(rest, full + c, seq![c]);
                        let b = drain(rest, full + c, seq![]);
                        assert(ps.push(c) + b.3 =~= ps + (seq![c] + b.3));
                        assert(seq![].push(c) =~= seq![c]);
                    },
                    LineEffect::Skip => {
                        lemma_drain_pieces(rest, full, ps);
                    },
                }
            } else {
                assert(ps + seq![] =~= ps);
            }
        },
    }
}

proof fn lemma_first_newline_append(x: Seq<char>, b: Seq<char>)
    ensures
        first_newline(x) matches Some(p) ==> first_newline(x + b) == Some(p),
        first_newline(x) is None ==> first_newline(x + b) == match first_newline(b) {
            Some(q) => Some(x.len() + q),
            None => None::<int>,
        },
    decreases x.len(),
{
    if x.len() == 0 {
        assert(x + b =~= b);
    } else {
        assert((x + b)[0] == x[0]);
        assert((x + b).drop_first() =~= x.drop_first() + b);
        lemma_first_newline_append(x.drop_first(), b);
    }
}

/// Taking lines off `x + b` is taking them off `x`, then (unless the stream
/// ended) off what is left of `x` followed by `b`.
proof fn lemma_drain_append(x: Seq<char>, b: Seq<char>, full: Seq<char>, ps: Seq<Seq<char>>)
    ensures
        ({
            let d = drain(x, full, ps);
            let e = drain(x + b, full, ps);
            if d.2 {
                e.1 == d.1 && e.2 && e.3 == d.3
            } else {
                e == drain(d.0 + b, d.1, d.3)
            }
        }),
    decreases x.len(),
{
    lemma_first_newline_append(x, b);
    lemma_first_newline_bounds(x);
    match first_newline(x) {
        None => {},
        Some(p) => {
            assert((x + b).take(p) =~= x.take(p));
            assert((x + b).skip(p + 1) =~= x.skip(p + 1) + b);
            lemma_first_newline_bounds(x + b);
            match line_effect(x.take(p)) {
                LineEffect::Done => {},
                LineEffect::Piece(c) => {
                    lemma_drain_append(x.skip(p + 1), b, full + c, ps.push(c));
                },
                LineEffect::Skip => {
                    lemma_drain_append(x.skip(p + 1), b, full, ps);
                },
            }
        },
    }
}

/// The pieces joined in order.
pub open spec fn joined_pieces(ps: Seq<Seq<char>>) -> Seq<char>
    decreases ps.len(),
{
    if ps.len() == 0 {
        seq![]
    } else {
        ps[0] + joined_pieces(ps.drop_first())
    }
}

proof fn lemma_drain_full(buffer: Seq<char>, full: Seq<char>)
    ensures
        drain(buffer, full, seq![]).1 == full + joined_pieces(drain(buffer, full, seq![]).3),
    decreases buffer.len(),
{
    match first_newline(buffer) {
        None => {
            assert(full + Seq::<char>::empty() =~= full);
        },
        Some(p) => {
            if 0 <= p < buffer.len() {
                let rest = buffer.skip(p + 1);
                match line_effect(buffer.take(p)) {
                    LineEffect::Done => {
                        assert(full + Seq::<char>::empty() =~= full);
                    },
                    LineEffect::Piece(c) => {
                        assert(seq![].push(c) =~= seq![c]);
                        lemma_drain_pieces(rest, full + c, seq![c]);
                        lemma_drain_full(rest, full + c);
                        let d = drain(rest, full + c, seq![]);
                        assert((seq![c] + d.3).drop_first() =~= d.3);
                        assert((seq![c] + d.3)[0] == c);
                        assert(full + c + joined_pieces(d.3) =~= full + (c + joined_pieces(d.3)));
                    },
                    LineEffect::Skip => {
                        lemma_drain_full(rest, full);
                    },
                }
            } else {
                assert(full + Seq::<char>::empty() =~= full);
            }
        },
    }
}

/// The answer grows by exactly the pieces shown, in order.
pub proof fn answer_is_the_pieces_shown(state: (Seq<char>, Seq<char>, bool), chunk: Seq<char>)
    ensures
        feed(state, chunk).0.1 == state.1 + joined_pieces(feed(state, chunk).1),
{
    if state.2 {
        assert(state.1 + Seq::<char>::empty() =~= state.1);
    } else {
        lemma_drain_full(state.0 + chunk, state.1);
    }
}

/// Every piece of the answer counts, whatever it holds: at the start of a
/// line, an event line `data: J` whose JSON `J` (not `[DONE]`, with no line
/// break or surrounding whitespace) holds the string `c` at
/// `choices[0].delta.content` adds exactly `c` to the answer and shows
/// exactly `c`, an empty or whitespace-only `c` included.
pub proof fn every_piece_counts(full: Seq<char>, json: Seq<char>, c: Seq<char>)
    requires
        json.len() > 0,
        trim(json) == json,
        forall|i: int| 0 <= i < json.len() ==> json[i] != '\n',
        json != "[DONE]"@,
        json_choice_content(json, "delta"@) == Some(Some(c)),
    ensures
        feed((Seq::empty(), full, false), "data: "@ + json + "\n"@) == (
            (Seq::<char>::empty(), full + c, false),
            seq![c],
        ),
{
    reveal_strlit("data: ");
    reveal_strlit("\n");
    let pre = "data: "@;
    let line = pre + json;
    let chunk = line + "\n"@;
    let buf = Seq::<char>::empty() + chunk;
    assert(buf =~= chunk);
    assert forall|i: int| 0 <= i < line.len() implies chunk[i] != '\n' by {
        assert(chunk[i] == line[i]);
        if i >= 6 {
            assert(line[i] == json[i - 6]);
        }
    }
    assert(chunk[line.len() as int] == '\n');
    lemma_first_newline_at(chunk, line.len() as int);
    assert(chunk.take(line.len() as int) =~= line);
    let rest = chunk.skip(line.len() as int + 1);
    assert(rest =~= Seq::<char>::empty());
    lemma_trimmed_ends(json, CharClass::Whitespace);
    assert(line[0] == 'd');
    assert(line.last() == json.last());
    lemma_trim_padded(Seq::empty(), line, Seq::empty(), CharClass::Whitespace);
    assert(Seq::<char>::empty() + line + Seq::<char>::empty() =~= line);
    assert(trim(line) == line);
    assert(line.take(6) =~= pre);
    assert(line.skip(6) =~= json);
    assert(line_effect(line) == LineEffect::Piece(c));
    lemma_first_newline_at(rest, 0);
    assert(first_newline(rest) is None);
    let e = Seq::<Seq<char>>::empty();
    assert(e.push(c) =~= seq![c]);
    assert(drain(rest, full + c, e.push(c)) == (rest, full + c, false, e.push(c)));
    assert(first_newline(chunk) == Some(line.len() as int));
    assert(drain(chunk, full, e) == drain(rest, full + c, e.push(c)));
    assert(feed((Seq::empty(), full, false), chunk) == ((rest, full + c, false), e.push(c)));
}

/// How the received text is split into chunks does not matter: feeding `a`
/// then `b` shows the same pieces, ends with the same answer and the same
/// ended-or-not as feeding `a + b` at once (and, while not ended, keeps the
/// same unfinished line).
pub proof fn chunking_does_not_matter(
    state: (Seq<char>, Seq<char>, bool),
    a: Seq<char>,
    b: Seq<char>,
)
    ensures
        ({
            let (s1, p1) = feed(state, a);
            let (s2, p2) = feed(s1, b);
            let (s3, p3) = feed(state, a + b);
            &&& s2.1 == s3.1
            &&& s2.2 == s3.2
            &&& p1 + p2 == p3
            &&& !s3.2 ==> s2.0 == s3.0
        }),
{
    if !state.2 {
        let x = state.0 + a;
        assert(state.0 + (a + b) =~= x + b);
        lemma_drain_append(x, b, state.1, seq![]);
        let d = drain(x, state.1, seq![]);
        if !d.2 {
            lemma_drain_pieces(d.0 + b, d.1, d.3);
        } else {
            assert(d.3 + seq![] =~= d.3);
        }
    } else {
        assert(seq![] + Seq::<Seq<char>>::empty() =~= Seq::<Seq<char>>::empty());
    }
}

} // verus!
