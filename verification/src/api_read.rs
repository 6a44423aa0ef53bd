use vstd::prelude::*;
use vstd::string::StrSliceExecFns;

use crate::config::LdapConfig;
use crate::directory::Directory;
use crate::helpers::{after_last, spec_after_last, spec_starts_with, starts_with, str_eq};
use crate::naming::spec_is_grandchild;
use crate::types::{best_of, spec_best_of, DirectOptions, Dn, MonoAttrs, Right};

verus! {

/// The value recorded for a key, scanning from the front.
pub open spec fn spec_attr_lookup(l: Seq<(String, String)>, k: Seq<char>) -> Option<Seq<char>>
    decreases l.len(),
{
    if l.len() == 0 {
        None
    } else if l[0].0@ == k {
        Some(l[0].1@)
    } else {
        spec_attr_lookup(l.drop_first(), k)
    }
}

/// The value recorded for a key, if any.
pub fn attr_lookup<'a>(l: &'a MonoAttrs, k: &str) -> (r: Option<&'a String>)
    ensures
        match r {
            Some(v) => spec_attr_lookup(l@, k@) == Some(v@),
            None => spec_attr_lookup(l@, k@) is None,
        },
{
    let mut i: usize = 0;
    proof {
        assert(l@.skip(0) =~= l@);
    }
    while i < l.len()
        invariant
            i <= l@.len(),
            spec_attr_lookup(l@, k@) == spec_attr_lookup(l@.skip(i as int), k@),
        decreases l@.len() - i,
    {
        proof {
            assert(l@.skip(i as int)[0] == l@[i as int]);
            assert(l@.skip(i as int).drop_first() =~= l@.skip(i + 1));
        }
        if str_eq(l[i].0.as_str(), k) {
            return Some(&l[i].1);
        }
        i += 1;
    }
    proof {
        assert(l@.skip(l@.len() as int) =~= Seq::<(String, String)>::empty());
    }
    None
}

/// The single-valued view of raw directory attributes: the first value of
/// each attribute, attributes without values left out.
pub open spec fn spec_mono_attrs(l: Seq<(String, Vec<String>)>) -> Seq<(String, String)>
    decreases l.len(),
{
    if l.len() == 0 {
        Seq::<(String, String)>::empty()
    } else {
        let rest = spec_mono_attrs(l.drop_last());
        if l.last().1@.len() > 0 {
            rest.push((l.last().0, l.last().1@[0]))
        } else {
            rest
        }
    }
}

/// Keep the first value of each attribute, dropping attributes without
/// values.
pub fn mono_attrs(attrs: &Vec<(String, Vec<String>)>) -> (r: MonoAttrs)
    ensures
        r@ == spec_mono_attrs(attrs@),
{
    let mut r: MonoAttrs = Vec::new();
    let mut k: usize = 0;
    proof {
        assert(attrs@.take(0) =~= Seq::<(String, Vec<String>)>::empty());
    }
    while k < attrs.len()
        invariant
            k <= attrs@.len(),
            r@ == spec_mono_attrs(attrs@.take(k as int)),
        decreases attrs@.len() - k,
    {
        proof {
            assert(attrs@.take(k + 1).drop_last() =~= attrs@.take(k as int));
            assert(attrs@.take(k + 1).last() == attrs@[k as int]);
        }
        if attrs[k].1.len() > 0 {
            let pair = (attrs[k].0.clone(), attrs[k].1[0].clone());
            proof {
                assert(pair == (attrs@[k as int].0, attrs@[k as int].1@[0]));
            }
            r.push(pair);
        }
        k += 1;
    }
    proof {
        assert(attrs@.take(attrs@.len() as int) =~= attrs@);
    }
    r
}

/// An `ou` value reduced to what follows its last colon: inside a
/// hierarchy-styled display name, keep the leaf.
pub open spec fn spec_simplified_ou(v: Seq<char>) -> Seq<char> {
    match spec_after_last(v, seq![':']) {
        Some(t) => t,
        None => v,
    }
}

/// Reduce the `ou` attribute of a listing to what follows its last colon.
pub fn simplify_hierachical_ou(attrs: MonoAttrs) -> (r: MonoAttrs)
    ensures
        r@.len() == attrs@.len(),
        forall|i: int|
            0 <= i < attrs@.len() ==> (#[trigger] r@[i]).0 == attrs@[i].0 && r@[i].1@ == (if attrs@[
                i
            ].0@ == "ou"@ {
                spec_simplified_ou(attrs@[i].1@)
            } else {
                attrs@[i].1@
            }),
{
    proof {
        reveal_strlit("ou");
        reveal_strlit(":");
        assert(":"@ =~= seq![':']);
    }
    let mut r: MonoAttrs = Vec::new();
    let mut k: usize = 0;
    while k < attrs.len()
        invariant
            k <= attrs@.len(),
            r@.len() == k,
            ":"@ == seq![':'],
            forall|i: int|
                0 <= i < k ==> (#[trigger] r@[i]).0 == attrs@[i].0 && r@[i].1@ == (if attrs@[i].0@
                    == "ou"@ {
                    spec_simplified_ou(attrs@[i].1@)
                } else {
                    attrs@[i].1@
                }),
        decreases attrs@.len() - k,
    {
        let key = attrs[k].0.clone();
        let is_ou = str_eq(key.as_str(), "ou");
        let value = if is_ou {
            match after_last(attrs[k].1.as_str(), ":") {
                Some(t) => t.to_owned(),
                None => attrs[k].1.clone(),
            }
        } else {
            attrs[k].1.clone()
        };
        r.push((key, value));
        k += 1;
    }
    r
}

/// The attributes of one listed group or stem: the root stem shows a fixed
/// display name, any other entry its `ou` reduced to the leaf.
pub fn to_sgroup_attrs(id: &str, attrs: MonoAttrs) -> (r: MonoAttrs)
    ensures
        id@.len() > 0 ==> r@.len() == attrs@.len() && (forall|i: int|
            0 <= i < attrs@.len() ==> (#[trigger] r@[i]).0 == attrs@[i].0 && r@[i].1@ == (
            if attrs@[i].0@ == "ou"@ {
                spec_simplified_ou(attrs@[i].1@)
            } else {
                attrs@[i].1@
            })),
        id@.len() == 0 ==> r@.len() == attrs@.len() + 1 && r@.last().0@ == "ou"@
            && r@.last().1@ == "Racine"@ && (forall|i: int|
            0 <= i < attrs@.len() ==> #[trigger] r@[i] == attrs@[i]),
{
    if id.unicode_len() == 0 {
        let mut r = attrs;
        let mut key = String::new();
        key.append("ou");
        let mut value = String::new();
        value.append("Racine");
        proof {
            reveal_strlit("ou");
            reveal_strlit("Racine");
            assert(key@ =~= "ou"@);
            assert(value@ =~= "Racine"@);
        }
        r.push((key, value));
        r
    } else {
        simplify_hierachical_ou(attrs)
    }
}

/// The attributes that differ from the current state: the modifications a
/// request still has to apply. An attribute already carrying the requested
/// value is dropped from the request.
pub open spec fn spec_remove_non_modified(
    current: Seq<(String, String)>,
    attrs: Seq<(String, String)>,
) -> Seq<(String, String)>
    decreases attrs.len(),
{
    if attrs.len() == 0 {
        Seq::<(String, String)>::empty()
    } else {
        let rest = spec_remove_non_modified(current, attrs.drop_last());
        if spec_attr_lookup(current, attrs.last().0@) != Some(attrs.last().1@) {
            rest.push(attrs.last())
        } else {
            rest
        }
    }
}

/// The attributes that differ from the current state.
pub fn remove_non_modified_attrs(current: &MonoAttrs, attrs: &MonoAttrs) -> (r: MonoAttrs)
    ensures
        r@ == spec_remove_non_modified(current@, attrs@),
{
    let mut r: MonoAttrs = Vec::new();
    let mut k: usize = 0;
    proof {
        assert(attrs@.take(0) =~= Seq::<(String, String)>::empty());
    }
    while k < attrs.len()
        invariant
            k <= attrs@.len(),
            r@ == spec_remove_non_modified(current@, attrs@.take(k as int)),
        decreases attrs@.len() - k,
    {
        proof {
            assert(attrs@.take(k + 1).drop_last() =~= attrs@.take(k as int));
            assert(attrs@.take(k + 1).last() == attrs@[k as int]);
        }
        let differs = match attr_lookup(current, attrs[k].0.as_str()) {
            Some(v) => !str_eq(v.as_str(), attrs[k].1.as_str()),
            None => true,
        };
        if differs {
            let pair = (attrs[k].0.clone(), attrs[k].1.clone());
            proof {
                assert(pair == attrs@[k as int]);
            }
            r.push(pair);
        }
        k += 1;
    }
    proof {
        assert(attrs@.take(attrs@.len() as int) =~= attrs@);
    }
    r
}

/// The direct children of a stem: every entry strictly below it that is not
/// a grandchild, in the directory's order.
pub open spec fn spec_children(entries: Seq<crate::directory::SgroupEntry>, id: Seq<char>) -> Seq<
    Seq<char>,
>
    decreases entries.len(),
{
    if entries.len() == 0 {
        Seq::<Seq<char>>::empty()
    } else {
        let rest = spec_children(entries.drop_last(), id);
        let cand = entries.last().id@;
        if spec_starts_with(cand, id) && cand != id && !spec_is_grandchild(id, cand) {
            rest.push(cand)
        } else {
            rest
        }
    }
}

/// The identifiers of the direct children of a stem.
pub fn get_children(dir: &Directory, cfg: &LdapConfig, id: &str) -> (r: Vec<String>)
    requires
        cfg.wf(),
    ensures
        r@.len() == spec_children(dir.entries@, id@).len(),
        forall|k: int|
            0 <= k < r@.len() ==> (#[trigger] r@[k])@ == spec_children(dir.entries@, id@)[k],
{
    let mut r: Vec<String> = Vec::new();
    let mut j: usize = 0;
    proof {
        assert(dir.entries@.take(0) =~= Seq::<crate::directory::SgroupEntry>::empty());
    }
    while j < dir.entries.len()
        invariant
            cfg.wf(),
            j <= dir.entries@.len(),
            r@.len() == spec_children(dir.entries@.take(j as int), id@).len(),
            forall|k: int|
                0 <= k < r@.len() ==> (#[trigger] r@[k])@ == spec_children(
                    dir.entries@.take(j as int),
                    id@,
                )[k],
        decreases dir.entries@.len() - j,
    {
        proof {
            assert(dir.entries@.take(j + 1).drop_last() =~= dir.entries@.take(j as int));
            assert(dir.entries@.take(j + 1).last() == dir.entries@[j as int]);
        }
        let child_id = &dir.entries[j].id;
        if starts_with(child_id.as_str(), id) && !str_eq(child_id.as_str(), id)
            && !cfg.stem.is_grandchild(id, child_id.as_str()) {
            let ghost prev = r@;
            r.push(child_id.clone());
            proof {
                assert(r@[prev.len() as int]@ == dir.entries@[j as int].id@);
                assert forall|k: int|
                    0 <= k < r@.len() implies (#[trigger] r@[k])@ == spec_children(
                    dir.entries@.take(j + 1),
                    id@,
                )[k] by {
                    if k < prev.len() {
                        assert(r@[k] == prev[k]);
                        assert(spec_children(dir.entries@.take(j + 1), id@)[k] == spec_children(
                            dir.entries@.take(j as int),
                            id@,
                        )[k]);
                    }
                }
            }
        }
        j += 1;
    }
    proof {
        assert(dir.entries@.take(dir.entries@.len() as int) =~= dir.entries@);
    }
    r
}


/// The attributes of one subject as shown to callers: its display
/// attributes, the group identifier where the subject is itself a group,
/// and the options of the relation it came from.
pub struct SubjectAttrs {
    pub attrs: MonoAttrs,
    pub sgroup_id: Option<String>,
    pub options: DirectOptions,
}

/// Subjects by DN, in the order they were resolved.
pub type Subjects = Vec<(Dn, SubjectAttrs)>;

/// Groups and stems by identifier, with their attributes.
pub type SgroupsWithAttrs = Vec<(String, MonoAttrs)>;

/// A flattened membership listing: the total before any truncation, and
/// the subjects resolved.
pub struct SubjectsAndCount {
    pub count: usize,
    pub subjects: Subjects,
}

/// One ancestor in a group's listing, with the caller's right on it.
pub struct SgroupOutAndRight {
    pub attrs: MonoAttrs,
    pub sgroup_id: String,
    pub right: Option<Right>,
}

/// The body of a group or stem listing: children for a stem, direct
/// members for a group, the synchronization query for a synchronized group.
pub enum SgroupOutMore {
    Stem { children: SgroupsWithAttrs },
    Group { direct_members: Subjects },
    SynchronizedGroup { remote_sql_query: crate::remote_query::RemoteSqlQuery },
}

/// A whole group or stem listing: attributes, body, ancestors with the
/// caller's rights, and the caller's right on the entry itself.
pub struct SgroupAndMoreOut {
    pub attrs: MonoAttrs,
    pub more: SgroupOutMore,
    pub parents: Vec<SgroupOutAndRight>,
    pub right: Right,
}

/// The rights shown along a chain of ancestors, inherited downward: each
/// position shows the best of the rights granted on it and on every
/// position before it, so that the shown right never falls while one walks
/// from the root toward the entry.
pub open spec fn spec_inherited_rights(rights: Seq<Option<Right>>) -> Seq<
    Option<Right>,
>
    decreases rights.len(),
{
    if rights.len() == 0 {
        Seq::<Option<Right>>::empty()
    } else {
        let rest = spec_inherited_rights(rights.drop_last());
        let above: Option<Right> = if rest.len() == 0 {
            None
        } else {
            rest.last()
        };
        rest.push(spec_best_of(above, rights.last()))
    }
}

/// Inherit rights downward along a chain of ancestors ordered from the
/// root: each shown right is the best granted so far, and the shown rights
/// never fall along the chain.
pub fn inherit_rights_down(rights: &Vec<Option<Right>>) -> (r: Vec<
    Option<Right>,
>)
    ensures
        r@ == spec_inherited_rights(rights@),
        r@.len() == rights@.len(),
        forall|i: int|
            0 <= i < r@.len() - 1 ==> crate::authz::opt_right_level(#[trigger] r@[i])
                <= crate::authz::opt_right_level(r@[i + 1]),
{
    let mut r: Vec<Option<Right>> = Vec::new();
    let mut best: Option<Right> = None;
    let mut k: usize = 0;
    proof {
        assert(rights@.take(0) =~= Seq::<Option<Right>>::empty());
    }
    while k < rights.len()
        invariant
            k <= rights@.len(),
            r@ == spec_inherited_rights(rights@.take(k as int)),
            r@.len() == k,
            best == (if r@.len() == 0 {
                None::<Right>
            } else {
                r@.last()
            }),
            forall|i: int|
                0 <= i < r@.len() - 1 ==> crate::authz::opt_right_level(#[trigger] r@[i])
                    <= crate::authz::opt_right_level(r@[i + 1]),
            forall|i: int|
                0 <= i < r@.len() ==> crate::authz::opt_right_level(#[trigger] r@[i])
                    <= crate::authz::opt_right_level(best),
        decreases rights@.len() - k,
    {
        proof {
            assert(rights@.take(k + 1).drop_last() =~= rights@.take(k as int));
            assert(rights@.take(k + 1).last() == rights@[k as int]);
        }
        best = best_of(best, rights[k]);
        r.push(best);
        k += 1;
    }
    proof {
        assert(rights@.take(rights@.len() as int) =~= rights@);
    }
    r
}


/// The stored flattened set of one role, the sentinel empty value read
/// back as the empty set.
pub open spec fn spec_read_flattened(stored: Seq<Dn>) -> Seq<Dn> {
    if stored.len() == 1 && stored[0]@ == Seq::<char>::empty() {
        Seq::<Dn>::empty()
    } else {
        stored
    }
}

/// The flattened membership listing of a group: refused on stems, the
/// sentinel empty value stripped, and the total returned beside the DNs.
pub fn get_group_flattened_mright(
    dir: &Directory,
    cfg: &LdapConfig,
    id: &str,
    mright: crate::types::Mright,
) -> (r: Result<Vec<Dn>, crate::types::MyErr>)
    requires
        cfg.wf(),
    ensures
        ({
            let valid = crate::naming::valid_sgroup_id(id@);
            let group = !crate::naming::spec_is_stem(id@);
            let found = crate::directory::spec_find_entry(dir.entries@, id@);
            match r {
                Ok(l) => valid && group && (found is Some) && l@.len() == spec_read_flattened(
                    dir.entries@[found->0].flattened.spec_get(mright),
                ).len() && (forall|i: int|
                    0 <= i < l@.len() ==> (#[trigger] l@[i])@ == spec_read_flattened(
                        dir.entries@[found->0].flattened.spec_get(mright),
                    )[i]@),
                Err(e) => {
                    &&& (e is InvalidId ==> !valid)
                    &&& (e is Msg ==> valid && !group)
                    &&& (e is NotFound ==> valid && group && (found is None))
                    &&& (e is InvalidId || e is Msg || e is NotFound)
                },
            }
        }),
{
    if let Err(e) = cfg.stem.validate_sgroup_id(id) {
        return Err(e);
    }
    if cfg.stem.is_stem(id) {
        let mut msg = String::new();
        msg.append("this listing works only on groups, not stems");
        return Err(crate::types::MyErr::Msg(msg));
    }
    match dir.find_entry(id) {
        Some(idx) => {
            proof {
                crate::directory::lemma_find_entry(dir.entries@, id@);
            }
            let stored = dir.entries[idx].flattened.get(mright);
            if stored.len() == 1 && stored[0].0.as_str().unicode_len() == 0 {
                proof {
                    assert(stored@[0]@ =~= Seq::<char>::empty());
                }
                Ok(Vec::new())
            } else {
                let mut l: Vec<Dn> = Vec::new();
                let mut k: usize = 0;
                while k < stored.len()
                    invariant
                        stored@ == dir.entries@[
                            crate::directory::spec_find_entry(dir.entries@, id@)->0
                        ].flattened.spec_get(mright),
                        k <= stored@.len(),
                        l@.len() == k,
                        forall|i: int| 0 <= i < k ==> (#[trigger] l@[i])@ == stored@[i]@,
                    decreases stored@.len() - k,
                {
                    l.push(Dn(stored[k].0.clone()));
                    k += 1;
                }
                proof {
                    if stored@.len() == 1 && stored@[0]@ == Seq::<char>::empty() {
                        assert(stored@[0]@.len() == 0);
                    }
                }
                Ok(l)
            }
        }
        None => {
            let mut msg = String::new();
            msg.append("sgroup ");
            msg.append(id);
            msg.append(" does not exist");
            Err(crate::types::MyErr::NotFound(msg))
        },
    }
}

} // verus!
