use vstd::prelude::*;
use vstd::string::StrSliceExecFns;

use crate::helpers::{
    ends_with, match_at, rfind_str, spec_ends_with, spec_find, spec_rfind, spec_rfind_ensures,
    spec_starts_with, str_eq, strip_prefix, strip_suffix,
};
use crate::types::MyErr;

verus! {

/// Configuration of the hierarchy: the separator between segments and the
/// identifier of the root stem.
pub struct StemConfig {
    pub filter: String,
    pub separator: String,
    pub root_id: String,
}

impl StemConfig {
    /// The hierarchy this library implements: dot-separated segments under
    /// the root stem named by the empty identifier.
    pub open spec fn wf(&self) -> bool {
        self.separator@ == seq!['.'] && self.root_id@ == Seq::<char>::empty()
    }
}

/// A character allowed inside an identifier segment.
pub open spec fn is_id_char(c: char) -> bool {
    ('A' <= c && c <= 'Z') || ('a' <= c && c <= 'z') || ('0' <= c && c <= '9') || c == '_' || c
        == '-'
}

/// Acceptance of a suffix that must begin a new segment or end the
/// identifier (the position right after a separator, or the start).
pub open spec fn next_seg(s: Seq<char>) -> bool
    decreases s.len(),
{
    s.len() == 0 || (is_id_char(s[0]) && seg_rest(s.drop_first()))
}

/// Acceptance of a suffix inside a segment: the segment may continue, end
/// the identifier, or close with a separator and a further segment.
pub open spec fn seg_rest(s: Seq<char>) -> bool
    decreases s.len(),
{
    if s.len() == 0 {
        true
    } else if is_id_char(s[0]) {
        seg_rest(s.drop_first())
    } else if s[0] == '.' {
        next_seg(s.drop_first())
    } else {
        false
    }
}

/// A well-formed identifier: empty (the root stem), or non-empty segments
/// of allowed characters joined by single separators, with an optional
/// trailing separator.
pub open spec fn valid_sgroup_id(s: Seq<char>) -> bool {
    s.len() == 0 || next_seg(s)
}

/// `s` with one trailing separator removed, if it carries one.
pub open spec fn strip_trailing_sep(s: Seq<char>) -> Seq<char> {
    if s.len() > 0 && s.last() == '.' {
        s.drop_last()
    } else {
        s
    }
}

/// The parent stem of an identifier: none for the root; for any other
/// identifier, everything up to and including the last internal separator,
/// or the root when there is none.
pub open spec fn spec_parent_stem(s: Seq<char>) -> Option<Seq<char>> {
    if s.len() == 0 {
        None
    } else {
        let t = strip_trailing_sep(s);
        match spec_rfind(t, seq!['.']) {
            Some(i) => Some(t.subrange(0, i + 1)),
            None => Some(Seq::<char>::empty()),
        }
    }
}

/// A parent stem is strictly shorter than its child.
pub proof fn lemma_parent_stem_shorter(s: Seq<char>)
    ensures
        spec_parent_stem(s) matches Some(p) ==> p.len() < s.len(),
{
    if s.len() > 0 {
        let t = strip_trailing_sep(s);
        spec_rfind_ensures(t, seq!['.']);
        match spec_rfind(t, seq!['.']) {
            Some(i) => {
                assert(match_at(t, seq!['.'], i));
                if t == s {
                    assert(i + 1 <= t.len());
                    if i + 1 == t.len() {
                        assert(t[t.len() - 1] == t.subrange(i, i + 1)[0]);
                        assert(s.last() == '.');
                    }
                }
            }
            None => {}
        }
    }
}

/// The chain of parent stems, nearest first, ending at the root.
pub open spec fn spec_parent_stems(s: Seq<char>) -> Seq<Seq<char>>
    decreases s.len(),
    when true via spec_parent_stems_decreases
{
    match spec_parent_stem(s) {
        Some(p) => seq![p] + spec_parent_stems(p),
        None => Seq::<Seq<char>>::empty(),
    }
}

#[via_fn]
proof fn spec_parent_stems_decreases(s: Seq<char>) {
    lemma_parent_stem_shorter(s);
}

impl StemConfig {
    /// The parent stem of `id`, or none for the root stem.
    pub fn parent_stem<'a>(&'a self, id: &'a str) -> (r: Option<&'a str>)
        requires
            self.wf(),
        ensures
            match r {
                Some(p) => spec_parent_stem(id@) == Some(p@),
                None => spec_parent_stem(id@) is None,
            },
    {
        let ghost gsep: Seq<char> = seq!['.'];
        proof {
            reveal_strlit(".");
            assert("."@ =~= gsep);
        }
        if str_eq(id, self.root_id.as_str()) {
            proof {
                assert(id@.len() == 0);
            }
            return None;
        }
        proof {
            if id@.len() == 0 {
                assert(id@ =~= self.root_id@);
            }
        }
        let stripped = match strip_suffix(id, ".") {
            Some(t) => t,
            None => id,
        };
        proof {
            if id@.len() > 0 && id@.last() == '.' {
                assert(spec_ends_with(id@, gsep)) by {
                    assert(id@.subrange(id@.len() - 1, id@.len() as int) =~= gsep);
                }
            }
            if spec_ends_with(id@, gsep) {
                assert(id@.last() == id@.subrange(id@.len() - 1, id@.len() as int)[0]);
            }
            assert(stripped@ == strip_trailing_sep(id@));
        }
        let slen = stripped.unicode_len();
        match rfind_str(stripped, ".") {
            Some(i) => {
                proof {
                    spec_rfind_ensures(stripped@, gsep);
                }
                Some(stripped.substring_char(0, i + 1))
            }
            None => {
                proof {
                    reveal_strlit("");
                }
                Some("")
            }
        }
    }

    /// All ancestor stems of `id`, nearest first; empty for the root stem.
    pub fn parent_stems<'a>(&'a self, id: &'a str) -> (r: Vec<&'a str>)
        requires
            self.wf(),
        ensures
            r@.map_values(|p: &str| p@) == spec_parent_stems(id@),
    {
        let mut stems: Vec<&str> = Vec::new();
        let mut cur: &str = id;
        proof {
            assert(stems@.map_values(|p: &str| p@) + spec_parent_stems(id@) =~~= spec_parent_stems(
                id@,
            ));
        }
        loop
            invariant
                self.wf(),
                spec_parent_stems(id@) == stems@.map_values(|p: &str| p@) + spec_parent_stems(
                    cur@,
                ),
            decreases cur@.len(),
        {
            proof {
                lemma_parent_stem_shorter(cur@);
            }
            match self.parent_stem(cur) {
                Some(parent) => {
                    let ghost old_stems = stems@;
                    stems.push(parent);
                    proof {
                        assert(stems@.map_values(|p: &str| p@) =~~= old_stems.map_values(
                            |p: &str| p@,
                        ).push(parent@));
                        assert(old_stems.map_values(|p: &str| p@).push(parent@)
                            + spec_parent_stems(parent@) =~~= old_stems.map_values(|p: &str| p@)
                            + (seq![parent@] + spec_parent_stems(parent@)));
                    }
                    cur = parent;
                }
                None => {
                    proof {
                        assert(stems@.map_values(|p: &str| p@) + spec_parent_stems(cur@)
                            =~~= stems@.map_values(|p: &str| p@));
                    }
                    return stems;
                }
            }
        }
    }

    /// Whether `id` validates: the root stem, or segments of allowed
    /// characters joined by the separator, with an optional trailing one.
    pub fn validate_sgroup_id(&self, id: &str) -> (r: Result<(), MyErr>)
        requires
            self.wf(),
        ensures
            r is Ok <==> valid_sgroup_id(id@),
            r matches Err(e) ==> e is InvalidId,
    {
        let len = id.unicode_len();
        let mut i: usize = 0;
        // whether position `i` may only start a new segment
        let mut at_seg_start: bool = true;
        proof {
            assert(id@.skip(0) =~= id@);
        }
        while i < len
            invariant
                len == id@.len(),
                i <= len,
                valid_sgroup_id(id@) <==> (if at_seg_start {
                    next_seg(id@.skip(i as int))
                } else {
                    seg_rest(id@.skip(i as int))
                }),
            decreases len - i,
        {
            let c = id.get_char(i);
            let u = c as u32;
            let c_is_id = (65 <= u && u <= 90) || (97 <= u && u <= 122) || (48 <= u && u <= 57)
                || u == 95 || u == 45;
            proof {
                assert(c_is_id == is_id_char(c));
                assert(id@.skip(i as int)[0] == c);
                assert(id@.skip(i as int).drop_first() =~= id@.skip(i + 1));
            }
            if at_seg_start {
                if !c_is_id {
                    return Err(MyErr::InvalidId(error_invalid_id()));
                }
                at_seg_start = false;
            } else {
                if c == '.' {
                    at_seg_start = true;
                } else if !c_is_id {
                    return Err(MyErr::InvalidId(error_invalid_id()));
                }
            }
            i += 1;
        }
        proof {
            assert(id@.skip(i as int) =~= Seq::<char>::empty());
        }
        Ok(())
    }

    /// Whether `id` names a stem: the root, or an identifier ending in the
    /// separator.
    pub fn is_stem(&self, id: &str) -> (r: bool)
        requires
            self.wf(),
        ensures
            r == spec_is_stem(id@),
    {
        proof {
            reveal_strlit(".");
            assert("."@ =~= seq!['.']);
        }
        id.unicode_len() == 0 || ends_with(id, ".")
    }

    /// Whether `gchild` lies under `parent` with at least one further
    /// separator beyond it: a strict descendant that is not a direct child.
    pub fn is_grandchild(&self, parent: &str, gchild: &str) -> (r: bool)
        requires
            self.wf(),
        ensures
            r == spec_is_grandchild(parent@, gchild@),
    {
        let ghost gsep: Seq<char> = seq!['.'];
        proof {
            reveal_strlit(".");
            assert("."@ =~= gsep);
        }
        match strip_prefix(gchild, parent) {
            Some(sub) => {
                let sub = match strip_suffix(sub, ".") {
                    Some(t) => t,
                    None => sub,
                };
                proof {
                    let whole = gchild@.subrange(parent@.len() as int, gchild@.len() as int);
                    if whole.len() > 0 && whole.last() == '.' {
                        assert(spec_ends_with(whole, gsep)) by {
                            assert(whole.subrange(whole.len() - 1, whole.len() as int) =~= gsep);
                        }
                    }
                    if spec_ends_with(whole, gsep) {
                        assert(whole.last() == whole.subrange(whole.len() - 1, whole.len() as int)[0]);
                    }
                    assert(sub@ == strip_trailing_sep(whole));
                }
                match crate::helpers::find_str(sub, ".") {
                    Some(_) => true,
                    None => false,
                }
            }
            None => false,
        }
    }
}

/// Whether `id` names a stem.
pub open spec fn spec_is_stem(s: Seq<char>) -> bool {
    s.len() == 0 || spec_ends_with(s, seq!['.'])
}

/// Whether `gchild` is a strict descendant of `parent` deeper than one level.
pub open spec fn spec_is_grandchild(parent: Seq<char>, gchild: Seq<char>) -> bool {
    spec_starts_with(gchild, parent) && spec_find(
        strip_trailing_sep(gchild.subrange(parent.len() as int, gchild.len() as int)),
        seq!['.'],
    ) is Some
}

/// The message carried by an invalid-identifier error.
fn error_invalid_id() -> (r: String)
    ensures
        r@ == "invalid sgroup id"@,
{
    let r = String::new();
    r.concat("invalid sgroup id")
}

/// Every chain of parent stems is strictly decreasing in length and, for a
/// non-root identifier, ends at the root stem.
pub proof fn lemma_parent_stems_strictly_decreasing(s: Seq<char>)
    ensures
        forall|i: int|
            0 <= i < spec_parent_stems(s).len() - 1 ==> #[trigger] spec_parent_stems(s)[
                i + 1
            ].len() < spec_parent_stems(s)[i].len(),
        s.len() > 0 ==> spec_parent_stems(s).len() > 0 && spec_parent_stems(s).last() =~= Seq::<
            char,
        >::empty(),
        spec_parent_stems(s).len() > 0 ==> spec_parent_stems(s)[0].len() < s.len(),
    decreases s.len(),
{
    lemma_parent_stem_shorter(s);
    match spec_parent_stem(s) {
        Some(p) => {
            lemma_parent_stems_strictly_decreasing(p);
            let whole = spec_parent_stems(s);
            let rest = spec_parent_stems(p);
            assert(whole == seq![p] + rest);
            assert(whole[0] == p);
            if p.len() == 0 {
                assert(rest =~= Seq::<Seq<char>>::empty());
                assert(whole.last() =~= p);
            } else {
                assert(rest.len() > 0);
                assert(whole.last() == rest.last());
                assert(whole[1] == rest[0]);
            }
            assert forall|i: int| 0 <= i < whole.len() - 1 implies #[trigger] whole[i + 1].len()
                < whole[i].len() by {
                if i == 0 {
                    if p.len() == 0 {
                        assert(whole.len() == 1);
                    } else {
                        assert(whole[1] == rest[0]);
                        assert(rest[0].len() < p.len());
                    }
                } else {
                    assert(whole[i] == rest[i - 1]);
                    assert(whole[i + 1] == rest[i]);
                    assert(rest[(i - 1) + 1].len() < rest[i - 1].len());
                }
            }
        }
        None => {}
    }
}


/// A parent stem is a strict prefix of its child.
pub proof fn lemma_parent_stem_prefix(s: Seq<char>)
    ensures
        spec_parent_stem(s) matches Some(p) ==> spec_starts_with(s, p) && p.len() < s.len(),
{
    lemma_parent_stem_shorter(s);
    if s.len() > 0 {
        let t = strip_trailing_sep(s);
        spec_rfind_ensures(t, seq!['.']);
        match spec_rfind(t, seq!['.']) {
            Some(i) => {
                let p = t.subrange(0, i + 1);
                assert(s.subrange(0, p.len() as int) =~= p);
            }
            None => {
                assert(s.subrange(0, 0) =~= Seq::<char>::empty());
            }
        }
    }
}

/// Every ancestor stem is a strict prefix of the identifier.
pub proof fn lemma_parent_stems_are_prefixes(s: Seq<char>)
    ensures
        forall|k: int|
            0 <= k < spec_parent_stems(s).len() ==> spec_starts_with(
                s,
                #[trigger] spec_parent_stems(s)[k],
            ) && spec_parent_stems(s)[k].len() < s.len(),
    decreases s.len(),
{
    lemma_parent_stem_shorter(s);
    lemma_parent_stem_prefix(s);
    match spec_parent_stem(s) {
        Some(p) => {
            lemma_parent_stems_are_prefixes(p);
            let whole = spec_parent_stems(s);
            let rest = spec_parent_stems(p);
            assert forall|k: int|
                0 <= k < whole.len() implies spec_starts_with(s, #[trigger] whole[k])
                && whole[k].len() < s.len() by {
                if k == 0 {
                    assert(whole[0] == p);
                } else {
                    assert(whole[k] == rest[k - 1]);
                    assert(spec_starts_with(p, rest[k - 1]));
                    assert(spec_starts_with(s, p));
                    assert(s.subrange(0, rest[k - 1].len() as int) =~= p.subrange(
                        0,
                        rest[k - 1].len() as int,
                    )) by {
                        assert forall|m: int|
                            0 <= m < rest[k - 1].len() implies #[trigger] s.subrange(
                            0,
                            rest[k - 1].len() as int,
                        )[m] == p.subrange(0, rest[k - 1].len() as int)[m] by {
                            assert(s.subrange(0, p.len() as int)[m] == p[m]);
                        }
                    }
                }
            }
        }
        None => {}
    }
}

/// The ancestors of a child reached through its parent: the chain of a
/// non-root identifier is its parent followed by the parent's own chain.
pub proof fn lemma_parent_stems_unfold(s: Seq<char>)
    ensures
        spec_parent_stem(s) matches Some(p) ==> spec_parent_stems(s) == seq![p]
            + spec_parent_stems(p),
        spec_parent_stem(s) is None ==> spec_parent_stems(s) == Seq::<Seq<char>>::empty(),
{
}


/// Every character of the identifier is a segment character or the
/// separator.
pub open spec fn id_chars_only(s: Seq<char>) -> bool {
    forall|i: int| 0 <= i < s.len() ==> is_id_char(#[trigger] s[i]) || s[i] == '.'
}

/// Every separator that is not last is followed by a segment character: no
/// empty segment inside the identifier.
pub open spec fn separators_start_segments(s: Seq<char>) -> bool {
    forall|i: int| 0 <= i < s.len() - 1 && (#[trigger] s[i]) == '.' ==> is_id_char(s[i + 1])
}

/// The in-segment acceptance, character by character.
pub proof fn lemma_seg_rest_characters(s: Seq<char>)
    ensures
        seg_rest(s) == (id_chars_only(s) && separators_start_segments(s)),
    decreases s.len(),
{
    if s.len() == 0 {
    } else {
        let t = s.drop_first();
        if is_id_char(s[0]) {
            lemma_seg_rest_characters(t);
            lemma_shift_characters(s);
        } else if s[0] == '.' {
            lemma_next_seg_characters(t);
            lemma_shift_characters(s);
            if t.len() > 0 {
                assert(t[0] == s[1]);
            }
            assert(seg_rest(s) == next_seg(t));
            if id_chars_only(s) && separators_start_segments(s) {
                if t.len() > 0 {
                    assert(s[0] == '.' && 0 < s.len() - 1);
                    assert(is_id_char(s[1]));
                }
            }
            if next_seg(t) {
                assert forall|i: int|
                    0 <= i < s.len() - 1 && (#[trigger] s[i]) == '.' implies is_id_char(
                    s[i + 1],
                ) by {
                    if i > 0 {
                        assert(t[i - 1] == s[i]);
                        assert(t[i] == s[i + 1]);
                    }
                }
            }
        } else {
            assert(!id_chars_only(s)) by {
                assert(!(is_id_char(s[0]) || s[0] == '.'));
            }
        }
    }
}

/// The segment-start acceptance, character by character.
pub proof fn lemma_next_seg_characters(s: Seq<char>)
    ensures
        next_seg(s) == (id_chars_only(s) && separators_start_segments(s) && (s.len() == 0
            || is_id_char(s[0]))),
    decreases s.len(),
{
    if s.len() == 0 {
    } else {
        let t = s.drop_first();
        if is_id_char(s[0]) {
            lemma_seg_rest_characters(t);
            lemma_shift_characters(s);
        } else {
            assert(!next_seg(s));
        }
    }
}

/// The character properties of a sequence and of the same sequence without
/// its first character, when that character is a segment character.
proof fn lemma_shift_characters(s: Seq<char>)
    requires
        s.len() > 0,
    ensures
        is_id_char(s[0]) ==> (id_chars_only(s) == id_chars_only(s.drop_first())),
        is_id_char(s[0]) ==> (separators_start_segments(s) == separators_start_segments(
            s.drop_first(),
        )),
        s[0] == '.' ==> (id_chars_only(s) == id_chars_only(s.drop_first())),
{
    let t = s.drop_first();
    assert forall|i: int| 0 <= i < t.len() implies #[trigger] t[i] == s[i + 1] by {}
    if is_id_char(s[0]) || s[0] == '.' {
        if id_chars_only(t) {
            assert forall|i: int|
                0 <= i < s.len() implies is_id_char(#[trigger] s[i]) || s[i] == '.' by {
                if i > 0 {
                    assert(t[i - 1] == s[i]);
                }
            }
        }
        if !id_chars_only(t) {
            let i = choose|i: int| 0 <= i < t.len() && !(is_id_char(#[trigger] t[i]) || t[i] == '.');
            assert(s[i + 1] == t[i]);
        }
    }
    if is_id_char(s[0]) {
        if separators_start_segments(t) {
            assert forall|i: int|
                0 <= i < s.len() - 1 && (#[trigger] s[i]) == '.' implies is_id_char(s[i + 1]) by {
                if i > 0 {
                    assert(t[i - 1] == s[i]);
                    assert(t[i] == s[i + 1]);
                }
            }
        }
        if !separators_start_segments(t) {
            let i = choose|i: int|
                0 <= i < t.len() - 1 && (#[trigger] t[i]) == '.' && !is_id_char(t[i + 1]);
            assert(s[i + 1] == t[i]);
            assert(s[i + 2] == t[i + 1]);
        }
    }
}

/// What the identifier grammar accepts, character by character: the empty
/// identifier, or one that opens with a segment character, uses only
/// segment characters and separators, and lets every internal separator
/// open a further segment — a trailing separator alone is allowed.
pub proof fn lemma_valid_id_characters(s: Seq<char>)
    ensures
        valid_sgroup_id(s) == (s.len() == 0 || (is_id_char(s[0]) && id_chars_only(s)
            && separators_start_segments(s))),
{
    lemma_next_seg_characters(s);
}

} // verus!
