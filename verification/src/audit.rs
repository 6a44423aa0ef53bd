use vstd::prelude::*;
use vstd::string::StrSliceExecFns;

use crate::helpers::{after_char, spec_after};

verus! {

/// The view of one character mapped for a log file name: the path
/// separator becomes an underscore.
pub open spec fn spec_log_file_char(c: char) -> char {
    if c == '/' {
        '_'
    } else {
        c
    }
}

/// The name of the log file of one group or stem:
/// `<log_dir>/<id>.jsonl`, with path separators of the identifier mapped to
/// underscores.
pub open spec fn spec_sgroup_log_file(log_dir: Seq<char>, id: Seq<char>) -> Seq<char> {
    log_dir + seq!['/'] + id.map_values(|c: char| spec_log_file_char(c)) + ".jsonl"@
}

/// The name of the log file of one group or stem.
pub fn sgroup_log_file(log_dir: &str, id: &str) -> (r: String)
    ensures
        r@ == spec_sgroup_log_file(log_dir@, id@),
{
    proof {
        reveal_strlit("/");
        assert("/"@ =~= seq!['/']);
    }
    let mut r = String::new();
    r.append(log_dir);
    r.append("/");
    let len = id.unicode_len();
    let mut i: usize = 0;
    while i < len
        invariant
            len == id@.len(),
            i <= len,
            r@ == log_dir@ + seq!['/'] + id@.take(i as int).map_values(
                |c: char| spec_log_file_char(c),
            ),
        decreases len - i,
    {
        let c = id.get_char(i);
        if c == '/' {
            crate::helpers::char_push(&mut r, '_');
        } else {
            crate::helpers::char_push(&mut r, c);
        }
        proof {
            assert(r@ =~= log_dir@ + seq!['/'] + id@.take(i + 1).map_values(
                |c2: char| spec_log_file_char(c2),
            )) by {
                assert(id@.take(i + 1).map_values(|c2: char| spec_log_file_char(c2)) =~= id@.take(
                    i as int,
                ).map_values(|c2: char| spec_log_file_char(c2)).push(spec_log_file_char(c)));
            }
        }
        i += 1;
    }
    r.append(".jsonl");
    proof {
        assert(id@.take(len as int) =~= id@);
        assert(r@ =~= spec_sgroup_log_file(log_dir@, id@));
    }
    r
}

/// The complete lines at the tail of a log file read: when the read began
/// mid-file, the first, partial line is discarded; a read of the whole file
/// keeps everything.
pub fn tail_full_lines<'a>(buffer: &'a str, whole_file: bool) -> (r: &'a str)
    ensures
        whole_file ==> r@ == buffer@,
        !whole_file ==> (match spec_after(buffer@, seq!['\n']) {
            Some(t) => r@ == t,
            None => r@ == Seq::<char>::empty(),
        }),
{
    if whole_file {
        buffer
    } else {
        match after_char(buffer, '\n') {
            Some(t) => t,
            None => {
                proof {
                    reveal_strlit("");
                    assert(""@ =~= Seq::<char>::empty());
                }
                ""
            },
        }
    }
}

} // verus!
