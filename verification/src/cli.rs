//! The decisions the command line makes around its requests.

use vstd::prelude::*;
use crate::config::Config;
use crate::path::{file_name, file_name_of};
use crate::text::{concat_str, str_eq, strings_view};

verus! {

/// The program was invoked under the name `name`: the file name of its first
/// argument.
pub open spec fn invoked_under(arg0: Option<Seq<char>>, name: Seq<char>) -> bool {
    match arg0 {
        Some(a) => file_name_of(a) == Some(name),
        None => false,
    }
}

/// Invoked as `ht`: the think mode, with the slow reasoning model.
pub open spec fn think_invocation(arg0: Option<Seq<char>>) -> bool {
    invoked_under(arg0, "ht"@)
}

/// Whether the file name of the first argument is `name`.
pub fn invoked_as(arg0: Option<&str>, name: &str) -> (r: bool)
    ensures
        r == invoked_under(
            match arg0 {
                Some(a) => Some(a@),
                None => None,
            },
            name@,
        ),
{
    match arg0 {
        Some(a) => match file_name(a) {
            Some(n) => str_eq(n.as_str(), name),
            None => false,
        },
        None => false,
    }
}

/// Whether the program was invoked under the name `ht` (the file name of
/// its first argument).
pub fn is_think_mode(arg0: Option<&str>) -> (r: bool)
    ensures
        r == think_invocation(match arg0 {
            Some(a) => Some(a@),
            None => None,
        }),
{
    invoked_as(arg0, "ht")
}

/// The search-enhanced model: the one asked for on the command line with
/// `-search`, else the configured one.
pub fn search_model_name(cli_model: Option<&str>, config: &Config) -> (r: String)
    ensures
        r@ == match cli_model {
            Some(m) => m@ + "-search"@,
            None => config.fast_model@ + "-search"@,
        },
{
    match cli_model {
        Some(m) => concat_str(m, "-search"),
        None => config.search_model(),
    }
}

/// The answer to use: the search-enhanced one when it arrived in time, else
/// the direct one (or its error).
pub open spec fn chosen_answer(search: Option<Seq<char>>, direct: Result<Seq<char>, Seq<char>>) -> Result<
    Seq<char>,
    Seq<char>,
> {
    match search {
        Some(s) => Ok(s),
        None => direct,
    }
}

pub open spec fn text_result(r: Result<String, String>) -> Result<Seq<char>, Seq<char>> {
    match r {
        Ok(s) => Ok(s@),
        Err(e) => Err(e@),
    }
}

/// Prefers the search-enhanced answer when it completed, else falls back to
/// the direct one.
pub fn pick_response(search: Option<String>, direct: Result<String, String>) -> (r: Result<
    String,
    String,
>)
    ensures
        text_result(r) == chosen_answer(
            match search {
                Some(s) => Some(s@),
                None => None,
            },
            text_result(direct),
        ),
{
    match search {
        Some(s) => Ok(s),
        None => direct,
    }
}

/// The search-enhanced answer wins whenever it arrived, whatever became of
/// the direct request (an error included); without it, the direct result
/// stands as it is.
pub proof fn search_answer_wins(search: Seq<char>, direct: Result<Seq<char>, Seq<char>>)
    ensures
        chosen_answer(Some(search), direct) == Ok::<Seq<char>, Seq<char>>(search),
        chosen_answer(None, direct) == direct,
{
}

/// The words joined with single spaces.
pub open spec fn joined(words: Seq<Seq<char>>) -> Seq<char>
    decreases words.len(),
{
    if words.len() == 0 {
        seq![]
    } else if words.len() == 1 {
        words[0]
    } else {
        joined(words.drop_last()) + seq![' '] + words.last()
    }
}

/// The question: the command-line words joined with spaces.
pub fn join_query(words: &Vec<String>) -> (r: String)
    ensures
        r@ == joined(strings_view(words@)),
{
    let ghost wv = strings_view(words@);
    let mut q = String::new();
    let mut i: usize = 0;
    assert(wv.take(0) =~= Seq::<Seq<char>>::empty());
    while i < words.len()
        invariant
            i <= words@.len(),
            wv == strings_view(words@),
            q@ == joined(wv.take(i as int)),
        decreases words@.len() - i,
    {
        assert(wv.take(i + 1).drop_last() =~= wv.take(i as int));
        assert(wv.take(i + 1).last() == words@[i as int]@);
        if i > 0 {
            q.append(" ");
            proof {
                reveal_strlit(" ");
            }
        }
        let ghost prev = q@;
        q.append(words[i].as_str());
        if i == 0 {
            assert(q@ =~= joined(wv.take(1)));
        } else {
            assert(q@ =~= joined(wv.take(i + 1)));
        }
        i += 1;
    }
    assert(wv.take(words@.len() as int) =~= wv);
    q
}

/// Which parts of a command answer are shown: the command when there is
/// one, the explanation when asked for and present.
pub fn result_layout(command: &str, explanation: &str, show_explanation: bool) -> (r: (bool, bool))
    ensures
        r.0 == (command@.len() > 0),
        r.1 == (show_explanation && explanation@.len() > 0),
{
    (!command.is_empty(), show_explanation && !explanation.is_empty())
}

} // verus!
