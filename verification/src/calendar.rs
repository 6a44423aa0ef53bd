use vstd::prelude::*;
use vstd::string::StrSliceExecFns;

use crate::helpers::{between_and_after, spec_after, spec_before, spec_find, spec_find_ensures};
use crate::types::MyErr;

verus! {

/// The marker opening one block of the calendar analyzer's report.
pub open spec fn original_form_marker() -> Seq<char> {
    "Original form: "@
}

/// What one block of the report yields: the expression echoed back and the
/// textual moment of its next elapse, with the rest of the report — or
/// nothing for a block without a readable next elapse.
pub open spec fn spec_parse_one_elapse(rest: Seq<char>) -> Option<(Seq<char>, Seq<char>)> {
    let utc = spec_split_two(rest, " (in UTC): "@, " UTC\n"@);
    match utc {
        Some(p) => Some(p),
        None => spec_split_two(rest, "Next elapse: "@, "\n"@),
    }
}

/// The part between the first occurrences of `start` then `end`, with what
/// follows `end`.
pub open spec fn spec_split_two(s: Seq<char>, start: Seq<char>, end: Seq<char>) -> Option<
    (Seq<char>, Seq<char>),
> {
    match spec_after(s, start) {
        Some(t) => match spec_find(t, end) {
            Some(_) => Some((spec_before(t, end)->0, spec_after(t, end)->0)),
            None => None,
        },
        None => None,
    }
}

/// What the analyzer's whole report parses to: for each block, the
/// expression and the textual moment of its next elapse; nothing for a
/// report with an unreadable block.
pub open spec fn spec_parse_analyzer_output(s: Seq<char>) -> Option<Seq<(Seq<char>, Seq<char>)>>
    decreases s.len(),
    when true via spec_parse_analyzer_output_decreases
{
    match spec_split_two(s, original_form_marker(), "\n"@) {
        None => Some(Seq::<(Seq<char>, Seq<char>)>::empty()),
        Some((event, rest)) => {
            match spec_parse_one_elapse(rest) {
                Some((next_elapse, rest2)) => {
                    match spec_parse_analyzer_output(rest2) {
                        Some(tail) => Some(seq![(event, next_elapse)] + tail),
                        None => None,
                    }
                },
                None => None,
            }
        },
    }
}

/// Each split hands back a strictly shorter rest.
pub proof fn lemma_split_two_shorter(s: Seq<char>, start: Seq<char>, end: Seq<char>)
    requires
        start.len() > 0,
        end.len() > 0,
    ensures
        spec_split_two(s, start, end) matches Some(p) ==> p.1.len() < s.len(),
{
    spec_find_ensures(s, start);
    match spec_find(s, start) {
        Some(i) => {
            let t = s.subrange(i + start.len(), s.len() as int);
            spec_find_ensures(t, end);
        }
        None => {}
    }
}

#[via_fn]
proof fn spec_parse_analyzer_output_decreases(s: Seq<char>) {
    reveal_strlit("Original form: ");
    reveal_strlit("\n");
    reveal_strlit(" (in UTC): ");
    reveal_strlit(" UTC\n");
    reveal_strlit("Next elapse: ");
    lemma_split_two_shorter(s, original_form_marker(), "\n"@);
    match spec_split_two(s, original_form_marker(), "\n"@) {
        Some((event, rest)) => {
            lemma_split_two_shorter(rest, " (in UTC): "@, " UTC\n"@);
            lemma_split_two_shorter(rest, "Next elapse: "@, "\n"@);
        }
        None => {}
    }
}

/// Split the part between `start` and `end`, with what follows `end`.
fn split_two<'a>(s: &'a str, start: &str, end: &str) -> (r: Option<(&'a str, &'a str)>)
    ensures
        match r {
            Some((mid, rest)) => spec_split_two(s@, start@, end@) == Some((mid@, rest@)),
            None => spec_split_two(s@, start@, end@) is None,
        },
{
    between_and_after(s, start, end)
}

/// Parse the calendar analyzer's report: each block names an expression and
/// the moment of its next elapse, as text. A block without a readable next
/// elapse is an error; text after the last block is ignored.
pub fn parse_analyzer_output(output: &str) -> (r: Result<Vec<(String, String)>, MyErr>)
    ensures
        match r {
            Ok(l) => spec_parse_analyzer_output(output@) matches Some(sl) && l@.len() == sl.len()
                && (forall|i: int|
                0 <= i < l@.len() ==> ((#[trigger] l@[i]).0@, l@[i].1@) == sl[i]),
            Err(e) => spec_parse_analyzer_output(output@) is None && e is External,
        },
{
    let mut r: Vec<(String, String)> = Vec::new();
    let mut cur: &str = output;
    loop
        invariant
            match spec_parse_analyzer_output(cur@) {
                Some(tail) => spec_parse_analyzer_output(output@) matches Some(whole)
                    && whole.len() == r@.len() + tail.len() && (forall|i: int|
                    0 <= i < r@.len() ==> ((#[trigger] r@[i]).0@, r@[i].1@) == whole[i]) && (
                forall|i: int| 0 <= i < tail.len() ==> #[trigger] tail[i] == whole[r@.len() + i]),
                None => spec_parse_analyzer_output(output@) is None,
            },
        decreases cur@.len(),
    {
        proof {
            reveal_strlit("Original form: ");
            reveal_strlit("\n");
            assert("Original form: "@ =~= original_form_marker());
            lemma_split_two_shorter(cur@, original_form_marker(), "\n"@);
        }
        let (event, rest) = match split_two(cur, "Original form: ", "\n") {
            Some(p) => p,
            None => {
                return Ok(r);
            },
        };
        let (next_elapse, rest2) = match split_two(rest, " (in UTC): ", " UTC\n") {
            Some(p) => p,
            None => {
                match split_two(rest, "Next elapse: ", "\n") {
                    Some(p) => p,
                    None => {
                        let mut msg = String::new();
                        msg.append("invalid calendar analyzer output");
                        return Err(MyErr::External(msg));
                    },
                }
            },
        };
        proof {
            reveal_strlit(" (in UTC): ");
            reveal_strlit(" UTC\n");
            reveal_strlit("Next elapse: ");
            reveal_strlit("\n");
            lemma_split_two_shorter(rest@, " (in UTC): "@, " UTC\n"@);
            lemma_split_two_shorter(rest@, "Next elapse: "@, "\n"@);
        }
        let ghost prev = r@;
        let ghost x: (Seq<char>, Seq<char>) = (event@, next_elapse@);
        r.push((event.to_owned(), next_elapse.to_owned()));
        proof {
            assert(spec_parse_one_elapse(rest@) == Some((next_elapse@, rest2@)));
            match spec_parse_analyzer_output(rest2@) {
                Some(tailp) => {
                    assert(spec_parse_analyzer_output(cur@) == Some(seq![x] + tailp));
                    let tail = seq![x] + tailp;
                    let whole = spec_parse_analyzer_output(output@)->0;
                    assert(whole.len() == r@.len() + tailp.len());
                    assert forall|i: int|
                        0 <= i < r@.len() implies ((#[trigger] r@[i]).0@, r@[i].1@) == whole[i] by {
                        if i == prev.len() {
                            assert(tail[0] == x);
                            assert(tail[0] == whole[prev.len() as int]);
                            assert((r@[i].0@, r@[i].1@) == x);
                        } else {
                            assert((prev[i].0@, prev[i].1@) == whole[i]);
                        }
                    }
                    assert forall|i: int|
                        0 <= i < tailp.len() implies #[trigger] tailp[i] == whole[r@.len() + i] by {
                        assert(tail[i + 1] == tailp[i]);
                        assert(tail[i + 1] == whole[prev.len() + i + 1]);
                    }
                }
                None => {
                    assert(spec_parse_analyzer_output(cur@) is None);
                }
            }
        }
        cur = rest2;
    }
}

} // verus!
