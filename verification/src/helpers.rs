use vstd::prelude::*;
use vstd::string::StrSliceExecFns;

verus! {

/// The pattern occurs in `s` at position `i`.
pub open spec fn match_at(s: Seq<char>, pat: Seq<char>, i: int) -> bool {
    0 <= i && i + pat.len() <= s.len() && s.subrange(i, i + pat.len()) == pat
}

/// The position of the first occurrence of `pat` in `s`, if any.
pub open spec fn spec_find(s: Seq<char>, pat: Seq<char>) -> Option<int>
    decreases s.len(),
{
    if pat.len() > s.len() {
        None
    } else if s.subrange(0, pat.len() as int) == pat {
        Some(0)
    } else if s.len() == 0 {
        None
    } else {
        match spec_find(s.drop_first(), pat) {
            Some(i) => Some(i + 1),
            None => None,
        }
    }
}

/// The position of the last occurrence of `pat` in `s`, if any.
pub open spec fn spec_rfind(s: Seq<char>, pat: Seq<char>) -> Option<int>
    decreases s.len(),
{
    if pat.len() > s.len() {
        None
    } else if s.len() == pat.len() {
        if s == pat {
            Some(0)
        } else {
            None
        }
    } else {
        match spec_rfind(s.drop_first(), pat) {
            Some(i) => Some(i + 1),
            None => if s.subrange(0, pat.len() as int) == pat {
                Some(0)
            } else {
                None
            },
        }
    }
}

/// `spec_find` returns the first match, and `None` only when there is none.
pub proof fn spec_find_ensures(s: Seq<char>, pat: Seq<char>)
    ensures
        match spec_find(s, pat) {
            Some(i) => match_at(s, pat, i) && (forall|j: int| 0 <= j < i ==> !match_at(s, pat, j)),
            None => forall|j: int| !match_at(s, pat, j),
        },
    decreases s.len(),
{
    if pat.len() > s.len() {
        assert forall|j: int| !match_at(s, pat, j) by {}
    } else if s.subrange(0, pat.len() as int) == pat {
        assert(match_at(s, pat, 0));
    } else if s.len() == 0 {
        assert forall|j: int| !match_at(s, pat, j) by {}
    } else {
        spec_find_ensures(s.drop_first(), pat);
        let t = s.drop_first();
        assert forall|j: int| 0 <= j && j + pat.len() <= t.len() implies #[trigger] t.subrange(
            j,
            j + pat.len(),
        ) =~= s.subrange(j + 1, j + 1 + pat.len()) by {}
        match spec_find(t, pat) {
            Some(i) => {
                assert(match_at(s, pat, i + 1));
                assert forall|j: int| 0 <= j < i + 1 implies !match_at(s, pat, j) by {
                    if j == 0 {
                        assert(!match_at(s, pat, 0));
                    } else {
                        assert(!match_at(t, pat, j - 1));
                        if match_at(s, pat, j) {
                            assert(t.subrange(j - 1, j - 1 + pat.len()) =~= s.subrange(
                                j,
                                j + pat.len(),
                            ));
                        }
                    }
                }
            }
            None => {
                assert forall|j: int| true implies !match_at(s, pat, j) by {
                    if j == 0 {
                        assert(!match_at(s, pat, 0));
                    } else if 0 <= j {
                        assert(!match_at(t, pat, j - 1));
                        if match_at(s, pat, j) {
                            assert(t.subrange(j - 1, j - 1 + pat.len()) =~= s.subrange(
                                j,
                                j + pat.len(),
                            ));
                        }
                    }
                }
            }
        }
    }
}

/// `spec_rfind` returns the last match, and `None` only when there is none.
pub proof fn spec_rfind_ensures(s: Seq<char>, pat: Seq<char>)
    ensures
        match spec_rfind(s, pat) {
            Some(i) => match_at(s, pat, i) && (forall|j: int| i < j ==> !match_at(s, pat, j)),
            None => forall|j: int| !match_at(s, pat, j),
        },
    decreases s.len(),
{
    if pat.len() > s.len() {
        assert forall|j: int| !match_at(s, pat, j) by {}
    } else if s.len() == pat.len() {
        if s == pat {
            assert(s.subrange(0, pat.len() as int) =~= s);
            assert(match_at(s, pat, 0));
        } else {
            assert forall|j: int| true implies !match_at(s, pat, j) by {
                if match_at(s, pat, j) {
                    assert(j == 0);
                    assert(s.subrange(0, pat.len() as int) =~= s);
                }
            }
        }
    } else {
        spec_rfind_ensures(s.drop_first(), pat);
        let t = s.drop_first();
        assert forall|j: int| 0 <= j && j + pat.len() <= t.len() implies #[trigger] t.subrange(
            j,
            j + pat.len(),
        ) =~= s.subrange(j + 1, j + 1 + pat.len()) by {}
        match spec_rfind(t, pat) {
            Some(i) => {
                assert(match_at(s, pat, i + 1));
                assert forall|j: int| i + 1 < j implies !match_at(s, pat, j) by {
                    if match_at(s, pat, j) {
                        assert(t.subrange(j - 1, j - 1 + pat.len()) =~= s.subrange(
                            j,
                            j + pat.len(),
                        ));
                        assert(match_at(t, pat, j - 1));
                    }
                }
            }
            None => {
                assert forall|j: int| 0 < j implies !match_at(s, pat, j) by {
                    if match_at(s, pat, j) {
                        assert(t.subrange(j - 1, j - 1 + pat.len()) =~= s.subrange(
                            j,
                            j + pat.len(),
                        ));
                        assert(match_at(t, pat, j - 1));
                    }
                }
            }
        }
    }
}

/// Whether the characters of `a` and `b` agree; the executable `==` of `&str`.
pub fn str_eq(a: &str, b: &str) -> (r: bool)
    ensures
        r == (a@ == b@),
{
    let alen = a.unicode_len();
    let blen = b.unicode_len();
    if alen != blen {
        return false;
    }
    let mut i: usize = 0;
    while i < alen
        invariant
            alen == a@.len(),
            alen == b@.len(),
            i <= alen,
            forall|j: int| 0 <= j < i ==> a@[j] == b@[j],
        decreases alen - i,
    {
        if a.get_char(i) != b.get_char(i) {
            return false;
        }
        i += 1;
    }
    proof {
        assert(a@ =~= b@);
    }
    true
}

/// Whether `pat` occurs in `s` at position `i`.
fn match_at_exec(s: &str, pat: &str, i: usize) -> (r: bool)
    requires
        i + pat@.len() <= s@.len(),
    ensures
        r == match_at(s@, pat@, i as int),
{
    let slen = s.unicode_len();
    let plen = pat.unicode_len();
    let mut j: usize = 0;
    while j < plen
        invariant
            slen == s@.len(),
            plen == pat@.len(),
            i + plen <= s@.len(),
            j <= plen,
            forall|k: int| 0 <= k < j ==> s@[i + k] == pat@[k],
        decreases plen - j,
    {
        if s.get_char(i + j) != pat.get_char(j) {
            assert(!match_at(s@, pat@, i as int)) by {
                if match_at(s@, pat@, i as int) {
                    assert(s@.subrange(i as int, i + pat@.len())[j as int] == pat@[j as int]);
                }
            }
            return false;
        }
        j += 1;
    }
    proof {
        assert(s@.subrange(i as int, i + pat@.len()) =~= pat@);
    }
    true
}

/// The position of the first occurrence of `pat` in `s`.
pub fn find_str(s: &str, pat: &str) -> (r: Option<usize>)
    ensures
        match r {
            Some(i) => spec_find(s@, pat@) == Some(i as int),
            None => spec_find(s@, pat@) is None,
        },
{
    proof {
        spec_find_ensures(s@, pat@);
    }
    let slen = s.unicode_len();
    let plen = pat.unicode_len();
    if plen > slen {
        return None;
    }
    let bound = slen - plen;
    let mut i: usize = 0;
    loop
        invariant
            slen == s@.len(),
            plen == pat@.len(),
            plen <= slen,
            bound == slen - plen,
            i <= bound,
            forall|j: int| 0 <= j < i ==> !match_at(s@, pat@, j),
        decreases bound - i,
    {
        if match_at_exec(s, pat, i) {
            proof {
                spec_find_ensures(s@, pat@);
                match spec_find(s@, pat@) {
                    Some(k) => {
                        if k < i {
                            assert(!match_at(s@, pat@, k));
                        }
                        if k > i {
                            assert(!match_at(s@, pat@, i as int));
                        }
                    }
                    None => {
                        assert(!match_at(s@, pat@, i as int));
                    }
                }
            }
            return Some(i);
        }
        if i == bound {
            proof {
                assert forall|j: int| true implies !match_at(s@, pat@, j) by {
                    if match_at(s@, pat@, j) {
                        assert(0 <= j && j + pat@.len() <= s@.len());
                        assert(j <= bound);
                    }
                }
                spec_find_ensures(s@, pat@);
                if spec_find(s@, pat@) is Some {
                    let k = spec_find(s@, pat@)->0;
                    assert(match_at(s@, pat@, k));
                }
            }
            return None;
        }
        i += 1;
    }
}

/// The position of the last occurrence of `pat` in `s`.
pub fn rfind_str(s: &str, pat: &str) -> (r: Option<usize>)
    ensures
        match r {
            Some(i) => spec_rfind(s@, pat@) == Some(i as int),
            None => spec_rfind(s@, pat@) is None,
        },
{
    let slen = s.unicode_len();
    let plen = pat.unicode_len();
    if plen > slen {
        proof {
            spec_rfind_ensures(s@, pat@);
            if spec_rfind(s@, pat@) is Some {
                let k = spec_rfind(s@, pat@)->0;
                assert(match_at(s@, pat@, k));
            }
        }
        return None;
    }
    let mut i: usize = slen - plen;
    loop
        invariant
            slen == s@.len(),
            plen == pat@.len(),
            plen <= slen,
            i <= slen - plen,
            forall|j: int| i < j ==> !match_at(s@, pat@, j),
        decreases i,
    {
        if match_at_exec(s, pat, i) {
            proof {
                spec_rfind_ensures(s@, pat@);
                match spec_rfind(s@, pat@) {
                    Some(k) => {
                        if k > i {
                            assert(!match_at(s@, pat@, k));
                        }
                        if k < i {
                            assert(!match_at(s@, pat@, i as int));
                        }
                    }
                    None => {
                        assert(!match_at(s@, pat@, i as int));
                    }
                }
            }
            return Some(i);
        }
        if i == 0 {
            proof {
                assert forall|j: int| true implies !match_at(s@, pat@, j) by {
                    if match_at(s@, pat@, j) {
                        assert(0 <= j && j + pat@.len() <= s@.len());
                    }
                }
                spec_rfind_ensures(s@, pat@);
                if spec_rfind(s@, pat@) is Some {
                    let k = spec_rfind(s@, pat@)->0;
                    assert(match_at(s@, pat@, k));
                }
            }
            return None;
        }
        i -= 1;
    }
}

/// What follows the first occurrence of `start` in `s`, if any.
pub open spec fn spec_after(s: Seq<char>, start: Seq<char>) -> Option<Seq<char>> {
    match spec_find(s, start) {
        Some(i) => Some(s.subrange(i + start.len(), s.len() as int)),
        None => None,
    }
}

/// What follows the first occurrence of `start` in `s`, if any.
pub fn after<'a>(s: &'a str, start: &str) -> (r: Option<&'a str>)
    ensures
        match r {
            Some(t) => spec_after(s@, start@) == Some(t@),
            None => spec_after(s@, start@) is None,
        },
{
    let slen = s.unicode_len();
    let plen = start.unicode_len();
    match find_str(s, start) {
        Some(i) => {
            proof {
                spec_find_ensures(s@, start@);
            }
            Some(s.substring_char(i + plen, slen))
        }
        None => None,
    }
}

/// What follows the first occurrence of the character `start` in `s`, if any.
pub fn after_char<'a>(s: &'a str, start: char) -> (r: Option<&'a str>)
    ensures
        match r {
            Some(t) => spec_after(s@, seq![start]) == Some(t@),
            None => spec_after(s@, seq![start]) is None,
        },
{
    let pat = one_char_str(start);
    assert(pat@ =~= seq![start]);
    after(s, pat.as_str())
}

/// What follows the last occurrence of `start` in `s`, if any.
pub open spec fn spec_after_last(s: Seq<char>, start: Seq<char>) -> Option<Seq<char>> {
    match spec_rfind(s, start) {
        Some(i) => Some(s.subrange(i + start.len(), s.len() as int)),
        None => None,
    }
}

/// What follows the last occurrence of `start` in `s`, if any.
pub fn after_last<'a>(s: &'a str, start: &str) -> (r: Option<&'a str>)
    ensures
        match r {
            Some(t) => spec_after_last(s@, start@) == Some(t@),
            None => spec_after_last(s@, start@) is None,
        },
{
    let slen = s.unicode_len();
    let plen = start.unicode_len();
    match rfind_str(s, start) {
        Some(i) => {
            proof {
                spec_rfind_ensures(s@, start@);
            }
            Some(s.substring_char(i + plen, slen))
        }
        None => None,
    }
}

/// What precedes the first occurrence of `end` in `s`, if any.
pub open spec fn spec_before(s: Seq<char>, end: Seq<char>) -> Option<Seq<char>> {
    match spec_find(s, end) {
        Some(i) => Some(s.subrange(0, i)),
        None => None,
    }
}

/// What precedes the first occurrence of `end` in `s`, if any.
pub fn before<'a>(s: &'a str, end: &str) -> (r: Option<&'a str>)
    ensures
        match r {
            Some(t) => spec_before(s@, end@) == Some(t@),
            None => spec_before(s@, end@) is None,
        },
{
    match find_str(s, end) {
        Some(i) => {
            proof {
                spec_find_ensures(s@, end@);
            }
            Some(s.substring_char(0, i))
        }
        None => None,
    }
}

/// What stands between the first occurrence of `start` and the first
/// following occurrence of `end`, if both occur.
pub fn between<'a>(s: &'a str, start: &str, end: &str) -> (r: Option<&'a str>)
    ensures
        match spec_after(s@, start@) {
            Some(t) => match spec_before(t, end@) {
                Some(u) => r matches Some(v) && v@ == u,
                None => r is None,
            },
            None => r is None,
        },
{
    match after(s, start) {
        Some(t) => before(t, end),
        None => None,
    }
}

/// The parts before and after the first occurrence of `end`, if any.
pub fn before_and_after<'a>(s: &'a str, end: &str) -> (r: Option<(&'a str, &'a str)>)
    ensures
        match r {
            Some((x, y)) => spec_before(s@, end@) == Some(x@) && spec_after(s@, end@) == Some(y@),
            None => spec_find(s@, end@) is None,
        },
{
    let slen = s.unicode_len();
    let plen = end.unicode_len();
    match find_str(s, end) {
        Some(i) => {
            proof {
                spec_find_ensures(s@, end@);
            }
            Some((s.substring_char(0, i), s.substring_char(i + plen, slen)))
        }
        None => None,
    }
}

/// The parts before and after the first occurrence of the character `end`, if any.
pub fn before_and_after_char<'a>(s: &'a str, end: char) -> (r: Option<(&'a str, &'a str)>)
    ensures
        match r {
            Some((x, y)) => spec_before(s@, seq![end]) == Some(x@) && spec_after(s@, seq![end])
                == Some(y@),
            None => spec_find(s@, seq![end]) is None,
        },
{
    let pat = one_char_str(end);
    assert(pat@ =~= seq![end]);
    before_and_after(s, pat.as_str())
}

/// The part between the first occurrences of `start` then `end`, with what
/// stands before `start` and after `end`.
pub fn before_and_between_and_after<'a>(s: &'a str, start: &str, end: &str) -> (r: Option<
    (&'a str, &'a str, &'a str),
>)
    ensures
        match r {
            Some((beg, mid, fin)) => {
                &&& spec_before(s@, start@) == Some(beg@)
                &&& spec_after(s@, start@) matches Some(t) && spec_before(t, end@) == Some(mid@)
                    && spec_after(t, end@) == Some(fin@)
            },
            None => spec_find(s@, start@) is None || (spec_after(s@, start@) matches Some(t)
                && spec_find(t, end@) is None),
        },
{
    match before_and_after(s, start) {
        Some((beg, rest)) => match before_and_after(rest, end) {
            Some((mid, fin)) => Some((beg, mid, fin)),
            None => None,
        },
        None => None,
    }
}

/// The part between the first occurrences of `start` then `end`, with what
/// stands after `end`.
pub fn between_and_after<'a>(s: &'a str, start: &str, end: &str) -> (r: Option<(&'a str, &'a str)>)
    ensures
        match r {
            Some((mid, fin)) => spec_after(s@, start@) matches Some(t) && spec_before(t, end@)
                == Some(mid@) && spec_after(t, end@) == Some(fin@),
            None => spec_find(s@, start@) is None || (spec_after(s@, start@) matches Some(t)
                && spec_find(t, end@) is None),
        },
{
    match after(s, start) {
        Some(rest) => before_and_after(rest, end),
        None => None,
    }
}

/// A one-character string.
fn one_char_str(c: char) -> (r: String)
    ensures
        r@ == seq![c],
{
    let mut r = String::new();
    char_push(&mut r, c);
    proof {
        assert(r@ =~= seq![c]);
    }
    r
}

/// Relies on `String::push` of std: appends exactly the one character.
#[verifier::external_body]
pub fn char_push(s: &mut String, c: char)
    ensures
        final(s)@ == old(s)@.push(c),
{
    s.push(c);
}

/// Whether `s` starts with `pre`.
pub open spec fn spec_starts_with(s: Seq<char>, pre: Seq<char>) -> bool {
    pre.len() <= s.len() && s.subrange(0, pre.len() as int) == pre
}

/// Whether `s` ends with `suf`.
pub open spec fn spec_ends_with(s: Seq<char>, suf: Seq<char>) -> bool {
    suf.len() <= s.len() && s.subrange(s.len() - suf.len(), s.len() as int) == suf
}

/// Whether `s` starts with `pre`.
pub fn starts_with(s: &str, pre: &str) -> (r: bool)
    ensures
        r == spec_starts_with(s@, pre@),
{
    let plen = pre.unicode_len();
    if plen > s.unicode_len() {
        return false;
    }
    match_at_exec(s, pre, 0)
}

/// Whether `s` ends with `suf`.
pub fn ends_with(s: &str, suf: &str) -> (r: bool)
    ensures
        r == spec_ends_with(s@, suf@),
{
    let slen = s.unicode_len();
    let plen = suf.unicode_len();
    if plen > slen {
        return false;
    }
    match_at_exec(s, suf, slen - plen)
}

/// What remains of `s` after the prefix `pre`, if `s` starts with it.
pub fn strip_prefix<'a>(s: &'a str, pre: &str) -> (r: Option<&'a str>)
    ensures
        match r {
            Some(t) => spec_starts_with(s@, pre@) && t@ == s@.subrange(
                pre@.len() as int,
                s@.len() as int,
            ),
            None => !spec_starts_with(s@, pre@),
        },
{
    let slen = s.unicode_len();
    let plen = pre.unicode_len();
    if starts_with(s, pre) {
        Some(s.substring_char(plen, slen))
    } else {
        None
    }
}

/// What remains of `s` before the suffix `suf`, if `s` ends with it.
pub fn strip_suffix<'a>(s: &'a str, suf: &str) -> (r: Option<&'a str>)
    ensures
        match r {
            Some(t) => spec_ends_with(s@, suf@) && t@ == s@.subrange(0, s@.len() - suf@.len()),
            None => !spec_ends_with(s@, suf@),
        },
{
    let slen = s.unicode_len();
    let plen = suf.unicode_len();
    if ends_with(s, suf) {
        Some(s.substring_char(0, slen - plen))
    } else {
        None
    }
}


/// The ISO-8601 rendering of a generalized-time value
/// (`yyyymmddhhmmssZ` becomes `yyyy-mm-ddThh:mm:ss`), if it has the
/// expected shape.
pub open spec fn spec_gtime_to_iso(s: Seq<char>) -> Option<Seq<char>> {
    if s.len() >= 15 && s[14] == 'Z' {
        Some(
            s.subrange(0, 4) + seq!['-'] + s.subrange(4, 6) + seq!['-'] + s.subrange(6, 8)
                + seq!['T'] + s.subrange(8, 10) + seq![':'] + s.subrange(10, 12) + seq![':']
                + s.subrange(12, 14),
        )
    } else {
        None
    }
}

/// Render a generalized-time value as ISO-8601 at second precision.
pub fn generalized_time_to_iso8601(gtime: &str) -> (r: Option<String>)
    ensures
        match r {
            Some(t) => spec_gtime_to_iso(gtime@) == Some(t@),
            None => spec_gtime_to_iso(gtime@) is None,
        },
{
    let len = gtime.unicode_len();
    if len < 15 {
        return None;
    }
    if gtime.get_char(14) != 'Z' {
        return None;
    }
    let mut r = String::new();
    r.append(gtime.substring_char(0, 4));
    r.append("-");
    r.append(gtime.substring_char(4, 6));
    r.append("-");
    r.append(gtime.substring_char(6, 8));
    r.append("T");
    r.append(gtime.substring_char(8, 10));
    r.append(":");
    r.append(gtime.substring_char(10, 12));
    r.append(":");
    r.append(gtime.substring_char(12, 14));
    proof {
        reveal_strlit("-");
        reveal_strlit("T");
        reveal_strlit(":");
        assert("-"@ =~= seq!['-']);
        assert("T"@ =~= seq!['T']);
        assert(":"@ =~= seq![':']);
        assert(r@ =~= spec_gtime_to_iso(gtime@)->0);
    }
    Some(r)
}

/// The generalized-time rendering of an ISO-8601 value at second precision
/// (`yyyy-mm-ddThh:mm:ss` becomes `yyyymmddhhmmssZ`), if it has the
/// expected shape.
pub open spec fn spec_iso_to_gtime(s: Seq<char>) -> Option<Seq<char>> {
    if s.len() >= 19 && s[4] == '-' && s[7] == '-' && s[10] == 'T' && s[13] == ':' && s[16] == ':' {
        Some(
            s.subrange(0, 4) + s.subrange(5, 7) + s.subrange(8, 10) + s.subrange(11, 13)
                + s.subrange(14, 16) + s.subrange(17, 19) + seq!['Z'],
        )
    } else {
        None
    }
}

/// Render an ISO-8601 value at second precision as generalized time.
pub fn iso8601_to_generalized_time(iso: &str) -> (r: Option<String>)
    ensures
        match r {
            Some(t) => spec_iso_to_gtime(iso@) == Some(t@),
            None => spec_iso_to_gtime(iso@) is None,
        },
{
    let len = iso.unicode_len();
    if len < 19 {
        return None;
    }
    if iso.get_char(4) != '-' || iso.get_char(7) != '-' || iso.get_char(10) != 'T' || iso.get_char(
        13,
    ) != ':' || iso.get_char(16) != ':' {
        return None;
    }
    let mut r = String::new();
    r.append(iso.substring_char(0, 4));
    r.append(iso.substring_char(5, 7));
    r.append(iso.substring_char(8, 10));
    r.append(iso.substring_char(11, 13));
    r.append(iso.substring_char(14, 16));
    r.append(iso.substring_char(17, 19));
    r.append("Z");
    proof {
        reveal_strlit("Z");
        assert("Z"@ =~= seq!['Z']);
        assert(r@ =~= spec_iso_to_gtime(iso@)->0);
    }
    Some(r)
}

/// The two renderings invert one another: a generalized-time value of the
/// exact length round-trips through ISO-8601 unchanged.
pub proof fn lemma_gtime_iso_round_trip(s: Seq<char>)
    requires
        s.len() == 15,
        s[14] == 'Z',
    ensures
        spec_gtime_to_iso(s) matches Some(t) && spec_iso_to_gtime(t) == Some(s),
{
    let t = spec_gtime_to_iso(s)->0;
    assert(t.len() == 19);
    assert(t[4] == '-' && t[7] == '-' && t[10] == 'T' && t[13] == ':' && t[16] == ':');
    assert(spec_iso_to_gtime(t)->0 =~= s);
}

/// `s` with every occurrence of `pat` replaced by `repl`, scanning from the
/// left.
pub open spec fn spec_replace_all(s: Seq<char>, pat: Seq<char>, repl: Seq<char>) -> Seq<char>
    decreases s.len(),
    when pat.len() > 0 via spec_replace_all_decreases
{
    match spec_find(s, pat) {
        Some(i) => s.subrange(0, i) + repl + spec_replace_all(
            s.subrange(i + pat.len(), s.len() as int),
            pat,
            repl,
        ),
        None => s,
    }
}

#[via_fn]
proof fn spec_replace_all_decreases(s: Seq<char>, pat: Seq<char>, repl: Seq<char>) {
    spec_find_ensures(s, pat);
}

/// `s` with every occurrence of `pat` replaced by `repl`.
pub fn replace_all(s: &str, pat: &str, repl: &str) -> (r: String)
    requires
        pat@.len() > 0,
    ensures
        r@ == spec_replace_all(s@, pat@, repl@),
{
    let mut r = String::new();
    let mut cur: &str = s;
    loop
        invariant
            pat@.len() > 0,
            spec_replace_all(s@, pat@, repl@) == r@ + spec_replace_all(cur@, pat@, repl@),
        decreases cur@.len(),
    {
        proof {
            spec_find_ensures(cur@, pat@);
        }
        let slen = cur.unicode_len();
        let plen = pat.unicode_len();
        match find_str(cur, pat) {
            Some(i) => {
                let ghost prev = r@;
                r.append(cur.substring_char(0, i));
                r.append(repl);
                let rest = cur.substring_char(i + plen, slen);
                proof {
                    assert(prev + (cur@.subrange(0, i as int) + repl@ + spec_replace_all(
                        rest@,
                        pat@,
                        repl@,
                    )) =~= r@ + spec_replace_all(rest@, pat@, repl@));
                }
                cur = rest;
            }
            None => {
                let ghost prev = r@;
                r.append(cur);
                proof {
                    assert(prev + cur@ =~= r@);
                }
                return r;
            }
        }
    }
}

} // verus!
