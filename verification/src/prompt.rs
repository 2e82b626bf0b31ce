//! System prompts for the model, and the reading of its replies.

use vstd::prelude::*;
use vstd::utf8::{
    decode_utf8, encode_utf8, encode_utf8_decode_utf8, encode_utf8_valid_utf8, is_ascii_chars,
    is_ascii_chars_encode_utf8, is_char_boundary, is_char_boundary_iff_not_is_continuation_byte,
    is_char_boundary_start_end_of_seq, valid_utf8,
};
use crate::shell::ShellContext;
use crate::text::{
    ascii_lower_bytes, ascii_lower_code, byte_len, byte_slice, find_bytes, find_from,
    lemma_encode_concat, lemma_find_from_bounds, lemma_find_from_first, lemma_lead_len,
    lemma_trail_len, lemma_trim_idempotent, lemma_trim_padded, lemma_trimmed_ends, lines_of,
    lowercase, lowers_ascii_prefix, occurs_at, owned, split_lines, strs_view, to_lowercase, trim,
    trim_by, trim_class, trim_start_by, trim_ws, CharClass,
};

verus! {

/// The talk-mode prompt: the user's own prompt, or a plain default.
pub open spec fn talk_prompt(custom: Seq<char>) -> Seq<char> {
    if custom.len() == 0 {
        "You are a helpful assistant. Answer concisely."@
    } else {
        custom
    }
}

/// The opening of the command-mode prompts, which names the user's system.
pub open spec fn system_intro(ctx: ShellContext) -> Seq<char> {
    "You are a command-line expert. The user is on "@ + ctx.os@ + " using "@ + ctx.shell@
        + " shell with "@ + ctx.package_manager@
        + " package manager.\nThe user will describe what they want to do. "@
}

/// The answer format the model is asked to follow.
pub open spec fn answer_format() -> Seq<char> {
    "Respond ONLY in this format:\nCOMMAND: <the command>\nEXPLANATION: <brief explanation of what the command does, what each flag means, help the user understand and remember>"@
}

/// The user's additional instructions, when there are any.
pub open spec fn custom_suffix(custom: Seq<char>) -> Seq<char> {
    if custom.len() == 0 {
        Seq::empty()
    } else {
        "\n\nAdditional instructions from user:\n"@ + custom
    }
}

/// The prompt for a direct answer.
pub open spec fn direct_prompt(ctx: ShellContext, custom: Seq<char>) -> Seq<char> {
    system_intro(ctx) + "Give the exact shell command and a brief explanation.\n"@
        + answer_format() + custom_suffix(custom)
}

/// The prompt for a searched and verified answer.
pub open spec fn search_prompt(ctx: ShellContext, custom: Seq<char>) -> Seq<char> {
    system_intro(ctx)
        + "Think carefully and verify your answer. Search for the most accurate and up-to-date command. Consider edge cases and common pitfalls.\n"@
        + answer_format() + custom_suffix(custom)
}

/// Both command prompts ask for the same answer format, a `COMMAND:` line
/// then an `EXPLANATION:`, and differ only in the task sentence between the
/// introduction and that format.
pub proof fn prompts_ask_for_the_answer_format(ctx: ShellContext, custom: Seq<char>)
    ensures
        direct_prompt(ctx, custom) == system_intro(ctx)
            + "Give the exact shell command and a brief explanation.\n"@
            + "Respond ONLY in this format:\nCOMMAND: <the command>\nEXPLANATION: <brief explanation of what the command does, what each flag means, help the user understand and remember>"@
            + custom_suffix(custom),
        search_prompt(ctx, custom) == system_intro(ctx)
            + "Think carefully and verify your answer. Search for the most accurate and up-to-date command. Consider edge cases and common pitfalls.\n"@
            + "Respond ONLY in this format:\nCOMMAND: <the command>\nEXPLANATION: <brief explanation of what the command does, what each flag means, help the user understand and remember>"@
            + custom_suffix(custom),
{
}

pub fn build_talk_prompt(custom_prompt: &str) -> (r: String)
    ensures
        r@ == talk_prompt(custom_prompt@),
{
    if custom_prompt.is_empty() {
        owned("You are a helpful assistant. Answer concisely.")
    } else {
        owned(custom_prompt)
    }
}

fn system_prompt(shell_ctx: &ShellContext, custom_prompt: &str, task: &str) -> (r: String)
    ensures
        r@ == system_intro(*shell_ctx) + task@ + answer_format() + custom_suffix(custom_prompt@),
{
    let mut p = String::new();
    p.append("You are a command-line expert. The user is on ");
    p.append(shell_ctx.os.as_str());
    p.append(" using ");
    p.append(shell_ctx.shell.as_str());
    p.append(" shell with ");
    p.append(shell_ctx.package_manager.as_str());
    p.append(" package manager.\nThe user will describe what they want to do. ");
    p.append(task);
    p.append(
        "Respond ONLY in this format:\nCOMMAND: <the command>\nEXPLANATION: <brief explanation of what the command does, what each flag means, help the user understand and remember>",
    );
    if !custom_prompt.is_empty() {
        p.append("\n\nAdditional instructions from user:\n");
        p.append(custom_prompt);
    }
    assert(p@ =~= system_intro(*shell_ctx) + task@ + answer_format() + custom_suffix(
        custom_prompt@,
    ));
    p
}

pub fn build_direct_prompt(shell_ctx: &ShellContext, custom_prompt: &str) -> (r: String)
    ensures
        r@ == direct_prompt(*shell_ctx, custom_prompt@),
{
    system_prompt(shell_ctx, custom_prompt, "Give the exact shell command and a brief explanation.\n")
}

pub fn build_search_prompt(shell_ctx: &ShellContext, custom_prompt: &str) -> (r: String)
    ensures
        r@ == search_prompt(*shell_ctx, custom_prompt@),
{
    system_prompt(
        shell_ctx,
        custom_prompt,
        "Think carefully and verify your answer. Search for the most accurate and up-to-date command. Consider edge cases and common pitfalls.\n",
    )
}


/// A line that opens or closes a fenced code block.
pub open spec fn is_fence(t: Seq<char>) -> bool {
    t.len() >= 3 && t[0] == '`' && t[1] == '`' && t[2] == '`'
}

/// The first non-empty (trimmed) line inside the first fenced code block,
/// scanning `lines` from `i`; `in_block` tells whether a fence is open.
pub open spec fn code_block_line(lines: Seq<Seq<char>>, i: int, in_block: bool) -> Option<
    Seq<char>,
>
    decreases lines.len() - i,
{
    if i < 0 || i >= lines.len() {
        None
    } else {
        let t = trim(lines[i]);
        if is_fence(t) {
            if in_block {
                None
            } else {
                code_block_line(lines, i + 1, true)
            }
        } else if in_block && t.len() > 0 {
            Some(t)
        } else {
            code_block_line(lines, i + 1, in_block)
        }
    }
}

/// A trimmed line read as a command: a `$` prompt line gives what follows
/// the `$`; else a line that is not a `#` or `//` comment and is longer than
/// two bytes.
pub open spec fn command_like(t: Seq<char>) -> Option<Seq<char>> {
    if t.len() > 0 && t[0] == '$' {
        Some(trim(t.drop_first()))
    } else if t.len() > 0 && t[0] != '#' && !(t.len() >= 2 && t[0] == '/' && t[1] == '/')
        && encode_utf8(t).len() > 2 {
        Some(t)
    } else {
        None
    }
}

/// The first line from `i` on that reads as a command.
pub open spec fn command_like_line(lines: Seq<Seq<char>>, i: int) -> Option<Seq<char>>
    decreases lines.len() - i,
{
    if i < 0 || i >= lines.len() {
        None
    } else {
        match command_like(trim(lines[i])) {
            Some(c) => Some(c),
            None => command_like_line(lines, i + 1),
        }
    }
}

/// The first code-like line of a text: from a fenced block, else the first
/// command-like line, else the first line (trimmed), else nothing.
pub open spec fn first_code_line(text: Seq<char>) -> Seq<char> {
    let lines = lines_of(text);
    match code_block_line(lines, 0, false) {
        Some(l) => l,
        None => match command_like_line(lines, 0) {
            Some(l) => l,
            None => if lines.len() > 0 {
                trim(lines[0])
            } else {
                Seq::empty()
            },
        },
    }
}

fn is_fence_exec(t: &str) -> (r: bool)
    ensures
        r == is_fence(t@),
{
    t.unicode_len() >= 3 && t.get_char(0) == '`' && t.get_char(1) == '`' && t.get_char(2) == '`'
}

fn find_code_block_line(lines: &Vec<&str>) -> (r: Option<String>)
    ensures
        r matches Some(l) ==> code_block_line(strs_view(lines@), 0, false) == Some(l@),
        r is None ==> code_block_line(strs_view(lines@), 0, false) is None,
{
    let ghost ls = strs_view(lines@);
    let mut in_block = false;
    let mut i: usize = 0;
    while i < lines.len()
        invariant
            i <= lines@.len(),
            ls == strs_view(lines@),
            code_block_line(ls, 0, false) == code_block_line(ls, i as int, in_block),
        decreases lines@.len() - i,
    {
        let t = trim_ws(lines[i]);
        assert(ls[i as int] == lines@[i as int]@);
        if is_fence_exec(t) {
            if in_block {
                return None;
            }
            in_block = true;
        } else if in_block && t.unicode_len() > 0 {
            return Some(owned(t));
        }
        i += 1;
    }
    None
}

fn command_like_exec(t: &str) -> (r: Option<String>)
    ensures
        r matches Some(c) ==> command_like(t@) == Some(c@),
        r is None ==> command_like(t@) is None,
{
    let n = t.unicode_len();
    if n > 0 && t.get_char(0) == '$' {
        let rest = t.substring_char(1, n);
        assert(rest@ =~= t@.drop_first());
        return Some(owned(trim_ws(rest)));
    }
    if n > 0 && t.get_char(0) != '#' && !(n >= 2 && t.get_char(0) == '/' && t.get_char(1) == '/')
        && byte_len(t) > 2 {
        return Some(owned(t));
    }
    None
}

fn find_command_like_line(lines: &Vec<&str>) -> (r: Option<String>)
    ensures
        r matches Some(l) ==> command_like_line(strs_view(lines@), 0) == Some(l@),
        r is None ==> command_like_line(strs_view(lines@), 0) is None,
{
    let ghost ls = strs_view(lines@);
    let mut i: usize = 0;
    while i < lines.len()
        invariant
            i <= lines@.len(),
            ls == strs_view(lines@),
            command_like_line(ls, 0) == command_like_line(ls, i as int),
        decreases lines@.len() - i,
    {
        assert(ls[i as int] == lines@[i as int]@);
        match command_like_exec(trim_ws(lines[i])) {
            Some(c) => {
                return Some(c);
            },
            None => {},
        }
        i += 1;
    }
    None
}

/// Tries to extract the first code-like line from a text.
pub fn extract_first_code_line(text: &str) -> (r: String)
    ensures
        r@ == first_code_line(text@),
{
    let lines = split_lines(text);
    match find_code_block_line(&lines) {
        Some(l) => l,
        None => match find_command_like_line(&lines) {
            Some(l) => l,
            None => if lines.len() > 0 {
                assert(strs_view(lines@)[0] == lines@[0]@);
                owned(trim_ws(lines[0]))
            } else {
                String::new()
            },
        },
    }
}

/// The bytes of `command:`.
pub open spec fn command_marker() -> Seq<u8> {
    seq![99u8, 111u8, 109u8, 109u8, 97u8, 110u8, 100u8, 58u8]
}

/// The bytes of `explanation:`.
pub open spec fn explanation_marker() -> Seq<u8> {
    seq![101u8, 120u8, 112u8, 108u8, 97u8, 110u8, 97u8, 116u8, 105u8, 111u8, 110u8, 58u8]
}

fn command_marker_bytes() -> (r: Vec<u8>)
    ensures
        r@ == command_marker(),
{
    let mut v: Vec<u8> = Vec::new();
    v.push(99);
    v.push(111);
    v.push(109);
    v.push(109);
    v.push(97);
    v.push(110);
    v.push(100);
    v.push(58);
    assert(v@ =~= command_marker());
    v
}

fn explanation_marker_bytes() -> (r: Vec<u8>)
    ensures
        r@ == explanation_marker(),
{
    let mut v: Vec<u8> = Vec::new();
    v.push(101);
    v.push(120);
    v.push(112);
    v.push(108);
    v.push(97);
    v.push(110);
    v.push(97);
    v.push(116);
    v.push(105);
    v.push(111);
    v.push(110);
    v.push(58);
    assert(v@ =~= explanation_marker());
    v
}

/// The text between byte offsets `a` and `b` of `tb`.
pub open spec fn piece(tb: Seq<u8>, a: int, b: int) -> Seq<char> {
    decode_utf8(tb.subrange(a, b))
}

/// Byte offsets `a..b` can be cut out of `tb` (else `&text[a..b]` panics).
pub open spec fn cut_ok(tb: Seq<u8>, a: int, b: int) -> bool {
    0 <= a <= b <= tb.len() && is_char_boundary(tb, a) && is_char_boundary(tb, b)
}

/// The byte offsets of the two markers in the lower-case form of the reply.
pub open spec fn marker_offsets(lower: Seq<char>) -> (Option<int>, Option<int>) {
    (
        find_from(encode_utf8(lower), command_marker(), 0),
        find_from(encode_utf8(lower), explanation_marker(), 0),
    )
}

/// The cuts that reading a reply makes out of its trimmed text all fall on
/// character boundaries: the markers are found in the lower-case form of the
/// text and their offsets are used on the text itself.
pub open spec fn cuts_ok(text: Seq<char>, lower: Seq<char>) -> bool {
    let tb = encode_utf8(text);
    let n = tb.len() as int;
    match marker_offsets(lower) {
        (Some(c), Some(e)) => (if c < e {
            cut_ok(tb, c + 8, e)
        } else {
            cut_ok(tb, c + 8, n)
        }) && (if e < c {
            cut_ok(tb, e + 12, c)
        } else {
            cut_ok(tb, e + 12, n)
        }),
        (Some(c), None) => cut_ok(tb, c + 8, n),
        (None, Some(e)) => cut_ok(tb, 0, e) && cut_ok(tb, e + 12, n),
        (None, None) => true,
    }
}

/// Command and explanation as read from the trimmed reply, before the
/// command is cleaned.
pub open spec fn raw_parts(text: Seq<char>, lower: Seq<char>) -> (Seq<char>, Seq<char>) {
    let tb = encode_utf8(text);
    let n = tb.len() as int;
    match marker_offsets(lower) {
        (Some(c), Some(e)) => (
            trim(
                if c < e {
                    piece(tb, c + 8, e)
                } else {
                    piece(tb, c + 8, n)
                },
            ),
            trim(
                if e < c {
                    piece(tb, e + 12, c)
                } else {
                    piece(tb, e + 12, n)
                },
            ),
        ),
        (Some(c), None) => (trim(piece(tb, c + 8, n)), Seq::empty()),
        (None, Some(e)) => {
            let before = trim(piece(tb, 0, e));
            (
                if before.len() > 0 {
                    first_code_line(before)
                } else {
                    Seq::empty()
                },
                trim(piece(tb, e + 12, n)),
            )
        },
        (None, None) => (first_code_line(text), text),
    }
}

/// A command with surrounding whitespace and backticks removed.
pub open spec fn clean_command(c: Seq<char>) -> Seq<char> {
    trim(trim_by(trim(c), CharClass::Is('`')))
}

/// The command and explanation read from a reply, given the lower-case form
/// of its trimmed text.
pub open spec fn parsed_reply(response: Seq<char>, lower: Seq<char>) -> (Seq<char>, Seq<char>) {
    let (c, e) = raw_parts(trim(response), lower);
    (clean_command(c), e)
}

fn cut(text: &str, a: usize, b: usize) -> (r: String)
    requires
        cut_ok(encode_utf8(text@), a as int, b as int),
    ensures
        r@ == trim(piece(encode_utf8(text@), a as int, b as int)),
{
    owned(trim_ws(byte_slice(text, a, b)))
}

fn markers(lower: &str) -> (r: (Option<usize>, Option<usize>))
    ensures
        r.0 matches Some(c) ==> marker_offsets(lower@).0 == Some(c as int) && c + 8 <= encode_utf8(
            lower@,
        ).len(),
        r.0 is None ==> marker_offsets(lower@).0 is None,
        r.1 matches Some(e) ==> marker_offsets(lower@).1 == Some(e as int) && e + 12
            <= encode_utf8(lower@).len(),
        r.1 is None ==> marker_offsets(lower@).1 is None,
        encode_utf8(lower@).len() <= usize::MAX,
{
    let lb = lower.as_bytes();
    let lbn = lb.len();
    let c = find_bytes(lb, &command_marker_bytes());
    let e = find_bytes(lb, &explanation_marker_bytes());
    proof {
        lemma_find_from_bounds(lb@, command_marker(), 0);
        lemma_find_from_bounds(lb@, explanation_marker(), 0);
    }
    (c, e)
}

/// Reads a reply given the lower-case form of its trimmed text: the parts
/// after `COMMAND:` and `EXPLANATION:` (in either order, any letter case),
/// or a code-like line when a marker is missing.
pub fn parse_response_lowered(response: &str, lower: &str) -> (r: (String, String))
    requires
        cuts_ok(trim(response@), lower@),
    ensures
        (r.0@, r.1@) == parsed_reply(response@, lower@),
{
    let text = trim_ws(response);
    let n = byte_len(text);
    let ghost tb = encode_utf8(text@);
    let (command, explanation): (String, String) = match markers(lower) {
        (Some(c), Some(e)) => {
            let command = if c < e {
                cut(text, c + 8, e)
            } else {
                cut(text, c + 8, n)
            };
            let explanation = if e < c {
                cut(text, e + 12, c)
            } else {
                cut(text, e + 12, n)
            };
            (command, explanation)
        },
        (Some(c), None) => (cut(text, c + 8, n), String::new()),
        (None, Some(e)) => {
            let before = trim_ws(byte_slice(text, 0, e));
            let command = if !before.is_empty() {
                extract_first_code_line(before)
            } else {
                String::new()
            };
            (command, cut(text, e + 12, n))
        },
        (None, None) => (extract_first_code_line(text), owned(text)),
    };
    let cleaned = owned(trim_ws(trim_class(trim_ws(command.as_str()), CharClass::Is('`'), true, true)));
    (cleaned, explanation)
}

/// Reads a model's reply into a command and an explanation.
pub fn parse_response(response: &str) -> (r: (String, String))
    requires
        cuts_ok(trim(response@), lowercase(trim(response@))),
    ensures
        (r.0@, r.1@) == parsed_reply(response@, lowercase(trim(response@))),
{
    let lower = to_lowercase(trim_ws(response));
    parse_response_lowered(response, lower.as_str())
}

/// The command and the explanation read from a reply carry no leading or
/// trailing whitespace.
pub proof fn parsed_reply_is_trimmed(response: Seq<char>, lower: Seq<char>)
    ensures
        trim(parsed_reply(response, lower).0) == parsed_reply(response, lower).0,
        trim(parsed_reply(response, lower).1) == parsed_reply(response, lower).1,
{
    let text = trim(response);
    let tb = encode_utf8(text);
    let n = tb.len() as int;
    let (c, e) = raw_parts(text, lower);
    lemma_trim_idempotent(trim_by(trim(c), CharClass::Is('`')), CharClass::Whitespace);
    lemma_trim_idempotent(response, CharClass::Whitespace);
    match marker_offsets(lower) {
        (Some(cp), Some(ep)) => {
            lemma_trim_idempotent(
                if ep < cp {
                    piece(tb, ep + 12, cp)
                } else {
                    piece(tb, ep + 12, n)
                },
                CharClass::Whitespace,
            );
        },
        (Some(cp), None) => {
            assert(trim(Seq::<char>::empty()) =~= Seq::<char>::empty());
        },
        (None, Some(ep)) => {
            lemma_trim_idempotent(piece(tb, ep + 12, n), CharClass::Whitespace);
        },
        (None, None) => {},
    }
}

/// A reply in the format the prompts ask for.
pub open spec fn formatted_reply(command: Seq<char>, explanation: Seq<char>) -> Seq<char> {
    "COMMAND: "@ + command + "\nEXPLANATION: "@ + explanation
}

/// A command and an explanation that the format carries through unchanged:
/// the command is ASCII, has no whitespace or backticks around it and holds
/// no `explanation:` in any letter case; the explanation has no whitespace
/// around it.
pub open spec fn reply_fields_ok(command: Seq<char>, explanation: Seq<char>) -> bool {
    &&& is_ascii_chars(command)
    &&& trim(command) == command
    &&& trim_by(command, CharClass::Is('`')) == command
    &&& !(exists|k: int| occurs_at(ascii_lower_bytes(command), explanation_marker(), k))
    &&& trim(explanation) == explanation
}

/// The ASCII part of a formatted reply, up to and with `EXPLANATION:`.
spec fn reply_head(command: Seq<char>) -> Seq<char> {
    "COMMAND: "@ + command + "\nEXPLANATION:"@
}

/// What a trimmed formatted reply holds after its head.
spec fn reply_tail(explanation: Seq<char>) -> Seq<char> {
    if explanation.len() == 0 {
        Seq::empty()
    } else {
        seq![' '] + explanation
    }
}

/// The encoding of a text that starts with ASCII characters starts with
/// those characters' bytes, each a character boundary.
proof fn lemma_ascii_bytes(text: Seq<char>, r: Seq<char>, rest: Seq<char>)
    requires
        text == r + rest,
        is_ascii_chars(r),
    ensures
        encode_utf8(text) == encode_utf8(r) + encode_utf8(rest),
        encode_utf8(r).len() == r.len(),
        forall|i: int| 0 <= i < r.len() ==> #[trigger] encode_utf8(text)[i] == r[i] as u8,
        valid_utf8(encode_utf8(text)),
        forall|i: int|
            0 <= i < r.len() ==> #[trigger] is_char_boundary(encode_utf8(text), i),
{
    lemma_encode_concat(r, rest);
    is_ascii_chars_encode_utf8(r);
    encode_utf8_valid_utf8(text);
    let tb = encode_utf8(text);
    assert forall|i: int| 0 <= i < r.len() implies #[trigger] tb[i] == r[i] as u8 by {
        assert(tb[i] == encode_utf8(r)[i]);
    }
    assert forall|i: int| 0 <= i < r.len() implies #[trigger] is_char_boundary(tb, i) by {
        assert(tb[i] == encode_utf8(r)[i]);
        assert('\0' <= r[i] <= '\u{7f}');
        assert(r[i] as int <= 127);
        is_char_boundary_iff_not_is_continuation_byte(tb, i);
    }
}

proof fn lemma_reply_head_ascii(c: Seq<char>)
    requires
        is_ascii_chars(c),
    ensures
        is_ascii_chars(reply_head(c)),
        reply_head(c).len() == 22 + c.len(),
{
    reveal_strlit("COMMAND: ");
    reveal_strlit("\nEXPLANATION:");
    let r = reply_head(c);
    let cl: int = c.len() as int;
    assert forall|i: int| 0 <= i < r.len() implies '\0' <= #[trigger] r[i] <= '\u{7f}' by {
        if i < 9 {
            assert(r[i] == "COMMAND: "@[i]);
        } else if i < 9 + cl {
            assert(r[i] == c[i - 9]);
        } else {
            assert(r[i] == "\nEXPLANATION:"@[i - 9 - cl]);
        }
    }
}

/// A formatted reply trims to its head and tail.
proof fn lemma_reply_trims(c: Seq<char>, e: Seq<char>)
    requires
        trim(e) == e,
    ensures
        trim(formatted_reply(c, e)) == reply_head(c) + reply_tail(e),
{
    reveal_strlit("COMMAND: ");
    reveal_strlit("\nEXPLANATION: ");
    reveal_strlit("\nEXPLANATION:");
    let response = formatted_reply(c, e);
    let r = reply_head(c);
    lemma_trimmed_ends(e, CharClass::Whitespace);
    assert(response[0] == 'C');
    lemma_lead_len(response, CharClass::Whitespace, 0);
    assert(trim_start_by(response, CharClass::Whitespace) =~= response);
    if e.len() == 0 {
        assert(response =~= r + seq![' ']);
        lemma_trail_len(response, CharClass::Whitespace, response.len() - 1);
        assert(trim(response) =~= r + reply_tail(e));
    } else {
        assert(response =~= r + reply_tail(e));
        assert(response.last() == e.last());
        lemma_trail_len(response, CharClass::Whitespace, response.len() as int);
        assert(trim(response) =~= r + reply_tail(e));
    }
}

/// `lower` begins with the ASCII lower-case form of the head of a reply.
spec fn head_lowered(c: Seq<char>, lower: Seq<char>) -> bool {
    &&& lower.len() >= reply_head(c).len()
    &&& forall|j: int|
        #![trigger lower[j]]
        0 <= j < reply_head(c).len() ==> lower[j] as int == ascii_lower_code(
            reply_head(c)[j] as int,
        )
}

/// `lb` begins with the bytes of the ASCII lower-case form of a reply's head.
spec fn head_bytes_lowered(c: Seq<char>, lb: Seq<u8>) -> bool {
    &&& lb.len() >= reply_head(c).len()
    &&& forall|i: int|
        #![trigger lb[i]]
        0 <= i < reply_head(c).len() ==> lb[i] as int == ascii_lower_code(reply_head(c)[i] as int)
}

proof fn lemma_lowered_bytes(c: Seq<char>, lower: Seq<char>)
    requires
        is_ascii_chars(c),
        head_lowered(c, lower),
    ensures
        head_bytes_lowered(c, encode_utf8(lower)),
{
    let r = reply_head(c);
    lemma_reply_head_ascii(c);
    let nr = r.len() as int;
    let low = lower.take(nr);
    assert(is_ascii_chars(low)) by {
        assert forall|i: int| 0 <= i < low.len() implies '\0' <= #[trigger] low[i] <= '\u{7f}' by {
            assert(low[i] == lower[i]);
            assert(lower[i] as int == ascii_lower_code(r[i] as int));
            assert('\0' <= r[i] <= '\u{7f}');
        }
    }
    assert(lower =~= low + lower.skip(nr));
    lemma_ascii_bytes(lower, low, lower.skip(nr));
    let lb = encode_utf8(lower);
    assert forall|i: int| 0 <= i < nr implies #[trigger] lb[i] as int == ascii_lower_code(
        r[i] as int,
    ) by {
        assert(lb[i] == low[i] as u8);
        assert(low[i] == lower[i]);
        assert(lower[i] as int == ascii_lower_code(r[i] as int));
    }
}

/// Before the marker line of a reply's head, `explanation:` does not occur.
proof fn lemma_no_early_explanation(c: Seq<char>, lb: Seq<u8>)
    requires
        !(exists|k: int| occurs_at(ascii_lower_bytes(c), explanation_marker(), k)),
        head_bytes_lowered(c, lb),
    ensures
        forall|k: int| 0 <= k < 10 + c.len() ==> !#[trigger] occurs_at(lb, explanation_marker(), k),
{
    reveal_strlit("COMMAND: ");
    reveal_strlit("\nEXPLANATION:");
    let pre = "COMMAND: "@;
    let m = "\nEXPLANATION:"@;
    let r = reply_head(c);
    let cl: int = c.len() as int;
    let em = explanation_marker();
    assert forall|k: int| 0 <= k < 10 + cl implies !#[trigger] occurs_at(lb, em, k) by {
        if occurs_at(lb, em, k) {
            assert(lb.subrange(k, k + 12)[0] == em[0]);
            assert(lb[k] as int == ascii_lower_code(r[k] as int));
            if k < 9 {
                assert(r[k] == pre[k]);
            } else if k < 9 + cl {
                if k + 12 <= 9 + cl {
                    let cb = ascii_lower_bytes(c);
                    assert forall|t: int| 0 <= t < 12 implies #[trigger] cb.subrange(
                        k - 9,
                        k + 3,
                    )[t] == em[t] by {
                        assert(lb.subrange(k, k + 12)[t] == em[t]);
                        assert(r[k + t] == c[k - 9 + t]);
                        assert(lb[k + t] as int == ascii_lower_code(r[k + t] as int));
                    }
                    assert(cb.subrange(k - 9, k + 3) =~= em);
                    assert(occurs_at(cb, em, k - 9));
                } else {
                    let z = 9 + cl - k;
                    assert(lb.subrange(k, k + 12)[z] == em[z]);
                    assert(r[9 + cl] == m[0]);
                    assert(lb[9 + cl] as int == ascii_lower_code(r[9 + cl] as int));
                }
            } else {
                assert(r[k] == m[0]);
            }
        }
    }
}

proof fn lemma_head_lowered(c: Seq<char>, e: Seq<char>, lower: Seq<char>)
    requires
        is_ascii_chars(c),
        trim(e) == e,
        lowers_ascii_prefix(trim(formatted_reply(c, e)), lower),
    ensures
        head_lowered(c, lower),
{
    lemma_reply_head_ascii(c);
    lemma_reply_trims(c, e);
    let s = trim(formatted_reply(c, e));
    let r = reply_head(c);
    assert(s == r + reply_tail(e));
    assert forall|j: int| 0 <= j < r.len() implies j < lower.len() && #[trigger] lower[j] as int
        == ascii_lower_code(r[j] as int) by {
        assert(s.take(j + 1) =~= r.take(j + 1));
        assert(s[j] == r[j]);
        assert(is_ascii_chars(s.take(j + 1)));
    }
    let last = r.len() - 1;
    assert(s.take(last + 1) =~= r.take(last + 1));
    assert(s[last] == r[last]);
    assert(is_ascii_chars(s.take(last + 1)));
}

/// In a lower-case form that begins with the ASCII lower-case of a reply's
/// head, `command:` is first found at the start and `explanation:` first
/// found after the command's line.
proof fn lemma_reply_markers(c: Seq<char>, lower: Seq<char>)
    requires
        is_ascii_chars(c),
        !(exists|k: int| occurs_at(ascii_lower_bytes(c), explanation_marker(), k)),
        head_lowered(c, lower),
    ensures
        marker_offsets(lower) == (Some(0int), Some(10 + c.len() as int)),
{
    reveal_strlit("COMMAND: ");
    reveal_strlit("\nEXPLANATION:");
    let pre = "COMMAND: "@;
    let m = "\nEXPLANATION:"@;
    let r = reply_head(c);
    let cl: int = c.len() as int;
    let p: int = 10 + cl;
    lemma_lowered_bytes(c, lower);
    let lb = encode_utf8(lower);
    assert(occurs_at(lb, command_marker(), 0)) by {
        assert forall|t: int| 0 <= t < 8 implies #[trigger] lb.subrange(0, 8)[t]
            == command_marker()[t] by {
            assert(r[t] == pre[t]);
            assert(lb[t] as int == ascii_lower_code(r[t] as int));
        }
        assert(lb.subrange(0, 8) =~= command_marker());
    }
    lemma_find_from_first(lb, command_marker(), 0, 0);
    let em = explanation_marker();
    assert(occurs_at(lb, em, p)) by {
        assert forall|t: int| 0 <= t < 12 implies #[trigger] lb.subrange(p, p + 12)[t]
            == em[t] by {
            assert(r[p + t] == m[t + 1]);
            assert(lb[p + t] as int == ascii_lower_code(r[p + t] as int));
        }
        assert(lb.subrange(p, p + 12) =~= em);
    }
    lemma_no_early_explanation(c, lb);
    lemma_find_from_first(lb, em, 0, p);
}

/// A reply in the prompted format reads back as exactly its command and its
/// explanation, whatever lower-case map is used, as long as it lower-cases
/// the ASCII start of the reply as ASCII.
pub proof fn formatted_reply_reads_back(command: Seq<char>, explanation: Seq<char>, lower: Seq<char>)
    requires
        reply_fields_ok(command, explanation),
        lowers_ascii_prefix(trim(formatted_reply(command, explanation)), lower),
    ensures
        cuts_ok(trim(formatted_reply(command, explanation)), lower),
        parsed_reply(formatted_reply(command, explanation), lower) == (command, explanation),
{
    let c = command;
    let e = explanation;
    let r = reply_head(c);
    let rest = reply_tail(e);
    let text = r + rest;
    let cl: int = c.len() as int;
    let nr = r.len() as int;
    let p: int = 10 + cl;
    lemma_reply_head_ascii(c);
    lemma_reply_trims(c, e);
    lemma_head_lowered(c, e, lower);
    lemma_reply_markers(c, lower);
    lemma_ascii_bytes(text, r, rest);
    let tb = encode_utf8(text);
    let n = tb.len() as int;
    assert(is_char_boundary(tb, 8));
    assert(is_char_boundary(tb, p));
    is_char_boundary_start_end_of_seq(tb);
    if e.len() == 0 {
        assert(tb.len() == nr);
    } else {
        assert(is_ascii_chars(seq![' ']));
        is_ascii_chars_encode_utf8(seq![' ']);
        lemma_encode_concat(seq![' '], e);
        assert(tb[nr] == encode_utf8(rest)[0]);
        assert(encode_utf8(rest)[0] == 32);
        is_char_boundary_iff_not_is_continuation_byte(tb, nr);
    }
    assert(is_char_boundary(tb, p + 12));
    let x = r.subrange(8, p);
    assert(is_ascii_chars(x));
    is_ascii_chars_encode_utf8(x);
    assert(tb.subrange(8, p) =~= encode_utf8(x)) by {
        assert forall|i: int| 0 <= i < x.len() implies tb.subrange(8, p)[i]
            == #[trigger] encode_utf8(x)[i] by {
            assert(tb[8 + i] == r[8 + i] as u8);
        }
    }
    encode_utf8_decode_utf8(x);
    reveal_strlit("COMMAND: ");
    reveal_strlit("\nEXPLANATION:");
    assert(x =~= seq![' '] + c + seq!['\n']);
    lemma_trimmed_ends(c, CharClass::Whitespace);
    lemma_trim_padded(seq![' '], c, seq!['\n'], CharClass::Whitespace);
    assert(tb.subrange(p + 12, n) =~= encode_utf8(rest));
    encode_utf8_decode_utf8(rest);
    if e.len() == 0 {
        lemma_trim_padded(Seq::empty(), e, Seq::empty(), CharClass::Whitespace);
        assert(Seq::<char>::empty() + e + Seq::<char>::empty() =~= rest);
    } else {
        lemma_trimmed_ends(e, CharClass::Whitespace);
        lemma_trim_padded(seq![' '], e, Seq::empty(), CharClass::Whitespace);
        assert(seq![' '] + e + Seq::<char>::empty() =~= rest);
    }
}

fn cut_valid(text: &str, a: usize, b: usize) -> (r: bool)
    ensures
        r == cut_ok(encode_utf8(text@), a as int, b as int),
{
    a <= b && b <= byte_len(text) && text.is_char_boundary(a) && text.is_char_boundary(b)
}

/// Reads a reply as `parse_response` does, or gives `None` for a reply whose
/// marker offsets (found in its lower-case form) would cut its text inside a
/// character.
pub fn try_parse_response(response: &str) -> (r: Option<(String, String)>)
    ensures
        r is Some <==> cuts_ok(trim(response@), lowercase(trim(response@))),
        r matches Some(p) ==> (p.0@, p.1@) == parsed_reply(response@, lowercase(trim(response@))),
        forall|c: Seq<char>, e: Seq<char>|
            #![trigger formatted_reply(c, e)]
            reply_fields_ok(c, e) && response@ == formatted_reply(c, e) ==> (r matches Some(p)
                && p.0@ == c && p.1@ == e),
{
    let text = trim_ws(response);
    let lower = to_lowercase(text);
    proof {
        assert forall|c: Seq<char>, e: Seq<char>|
            #![trigger formatted_reply(c, e)]
            reply_fields_ok(c, e) && response@ == formatted_reply(c, e) implies cuts_ok(
            trim(response@),
            lowercase(trim(response@)),
        ) && parsed_reply(response@, lowercase(trim(response@))) == (c, e) by {
            formatted_reply_reads_back(c, e, lower@);
        }
    }
    let n = byte_len(text);
    let ok = match markers(lower.as_str()) {
        (Some(c), Some(e)) => (if c < e {
            cut_valid(text, c + 8, e)
        } else {
            cut_valid(text, c + 8, n)
        }) && (if e < c {
            cut_valid(text, e + 12, c)
        } else {
            cut_valid(text, e + 12, n)
        }),
        (Some(c), None) => cut_valid(text, c + 8, n),
        (None, Some(e)) => cut_valid(text, 0, e) && cut_valid(text, e + 12, n),
        (None, None) => true,
    };
    if ok {
        Some(parse_response(response))
    } else {
        None
    }
}

} // verus!
