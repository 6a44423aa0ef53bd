use vstd::prelude::*;
use vstd::string::StrSliceExecFns;

use crate::api_read::spec_attr_lookup;
use crate::authz::{
    best_right_on_any_parents, best_right_on_self_or_any_parents, opt_right_level,
    spec_best_on_chain, spec_effective_right, spec_user_urls, user_urls,
};
use crate::config::{spec_sgroup_id_to_dn, LdapConfig};
use crate::directory::{
    lemma_find_entry, lemma_has_entry_exists, spec_find_entry, spec_has_entry, wf_entries,
    DirectSets, Directory, FlatSets, SgroupEntry,
};
use crate::flatten::lemma_dns_of_push;
use crate::helpers::{spec_starts_with, starts_with, str_eq};
use crate::mods::{
    clone_dns_opts, clone_options, diff_dns, dns_of, dns_unique, spec_apply_submods,
    spec_diff_dns, spec_submod_list, submod_list,
};
use crate::naming::{
    lemma_parent_stems_are_prefixes, lemma_parent_stems_unfold, spec_is_stem, spec_parent_stem,
    spec_parent_stems, valid_sgroup_id,
};
use crate::types::{DirectOptions, Dn, DnsOpts, LoggedUser, MonoAttrs, Mright, MyErr, MyMod, Right};

verus! {

/// Whether the caller may act where a right is demanded on some ancestor
/// stem: the bypass principal always may (subject to the existence check it
/// keeps), a user exactly when an ancestor grants the right.
pub open spec fn spec_granted_on_parents(
    dir: &Directory,
    uset: Set<Seq<char>>,
    id: Seq<char>,
    right: Right,
) -> bool {
    opt_right_level(spec_best_on_chain(dir, uset, spec_parent_stems(id))) >= right.spec_level()
}

/// Whether the caller holds a right on the identifier itself or on some
/// ancestor stem.
pub open spec fn spec_granted_on_self_or_parents(
    dir: &Directory,
    uset: Set<Seq<char>>,
    id: Seq<char>,
    right: Right,
) -> bool {
    opt_right_level(spec_effective_right(dir, uset, id)) >= right.spec_level()
}

/// Demand a right on some ancestor stem: the bypass principal passes once
/// the direct parent is known to exist; a user passes exactly when some
/// ancestor grants the right.
pub fn check_right_on_any_parents(
    dir: &Directory,
    cfg: &LdapConfig,
    user: &LoggedUser,
    id: &str,
    right: Right,
) -> (r: Result<(), MyErr>)
    requires
        cfg.wf(),
    ensures
        match user {
            LoggedUser::TrustedAdmin => (r is Ok <==> (spec_parent_stem(id@) matches Some(p)
                ==> spec_has_entry(dir.entries@, p))) && (r matches Err(e) ==> e is NotFound),
            LoggedUser::User(u) => (r is Ok <==> spec_granted_on_parents(
                dir,
                spec_user_urls(dir, cfg, u@),
                id@,
                right,
            )) && (r matches Err(e) ==> e is Forbidden),
        },
{
    match user {
        LoggedUser::TrustedAdmin => {
            match cfg.stem.parent_stem(id) {
                Some(parent) => {
                    if dir.has_entry(parent) {
                        Ok(())
                    } else {
                        let mut msg = String::new();
                        msg.append("stem ");
                        msg.append(parent);
                        msg.append(" does not exist");
                        Err(MyErr::NotFound(msg))
                    }
                }
                None => Ok(()),
            }
        }
        LoggedUser::User(u) => {
            let urls = user_urls(dir, cfg, u.as_str());
            let granted = match best_right_on_any_parents(dir, cfg, id, &urls) {
                Some(got) => got.covers(right),
                None => false,
            };
            if granted {
                Ok(())
            } else {
                let mut msg = String::new();
                msg.append("no right on ");
                msg.append(id);
                msg.append(" parents");
                Err(MyErr::Forbidden(msg))
            }
        }
    }
}

/// Demand a right on the identifier itself or on some ancestor stem; the
/// bypass principal always passes.
pub fn check_right_on_self_or_any_parents(
    dir: &Directory,
    cfg: &LdapConfig,
    user: &LoggedUser,
    id: &str,
    right: Right,
) -> (r: Result<(), MyErr>)
    requires
        cfg.wf(),
    ensures
        match user {
            LoggedUser::TrustedAdmin => r is Ok,
            LoggedUser::User(u) => (r is Ok <==> spec_granted_on_self_or_parents(
                dir,
                spec_user_urls(dir, cfg, u@),
                id@,
                right,
            )) && (r matches Err(e) ==> e is Forbidden),
        },
{
    match user {
        LoggedUser::TrustedAdmin => Ok(()),
        LoggedUser::User(u) => {
            let urls = user_urls(dir, cfg, u.as_str());
            let granted = match best_right_on_self_or_any_parents(dir, cfg, id, &urls) {
                Some(got) => got.covers(right),
                None => false,
            };
            if granted {
                Ok(())
            } else {
                let mut msg = String::new();
                msg.append("no right on ");
                msg.append(id);
                Err(MyErr::Forbidden(msg))
            }
        }
    }
}

/// Whether some strict descendant of this identifier exists.
pub open spec fn spec_has_descendant(dir: &Directory, id: Seq<char>) -> bool {
    exists|j: int|
        0 <= j < dir.entries@.len() && (#[trigger] dir.entries@[j]).id@ != id && spec_starts_with(
            dir.entries@[j].id@,
            id,
        )
}

/// Whether some strict descendant of this identifier exists.
pub fn has_descendant(dir: &Directory, id: &str) -> (r: bool)
    ensures
        r == spec_has_descendant(dir, id@),
{
    let mut k: usize = 0;
    while k < dir.entries.len()
        invariant
            k <= dir.entries@.len(),
            forall|j: int|
                0 <= j < k ==> !((#[trigger] dir.entries@[j]).id@ != id@ && spec_starts_with(
                    dir.entries@[j].id@,
                    id@,
                )),
        decreases dir.entries@.len() - k,
    {
        let candidate = &dir.entries[k];
        if !str_eq(candidate.id.as_str(), id) && starts_with(candidate.id.as_str(), id) {
            return true;
        }
        k += 1;
    }
    proof {
        if spec_has_descendant(dir, id@) {
            let j = choose|j: int|
                0 <= j < dir.entries@.len() && (#[trigger] dir.entries@[j]).id@ != id@
                    && spec_starts_with(dir.entries@[j].id@, id@);
        }
    }
    false
}

/// Create a group or stem: validate the identifier and the attributes,
/// demand the administrator right on some ancestor, then store the new
/// entry — its direct sets empty, and, for a group, the flattened member
/// set holding the sentinel empty value. The identifier must be free and
/// the parent stem must exist.
pub fn create(
    dir: &mut Directory,
    cfg: &LdapConfig,
    user: &LoggedUser,
    id: &str,
    attrs: MonoAttrs,
) -> (r: Result<(), MyErr>)
    requires
        old(dir).wf(),
        cfg.wf(),
    ensures
        final(dir).wf(),
        ({
            let valid = valid_sgroup_id(id@);
            let attrs_ok = forall|i: int|
                0 <= i < attrs@.len() ==> cfg.spec_is_sgroup_attr(#[trigger] attrs@[i].0@);
            let auth = match user {
                LoggedUser::TrustedAdmin => true,
                LoggedUser::User(u) => spec_granted_on_parents(
                    old(dir),
                    spec_user_urls(old(dir), cfg, u@),
                    id@,
                    Right::Admin,
                ),
            };
            let parent_ok = spec_parent_stem(id@) matches Some(p) ==> spec_has_entry(
                old(dir).entries@,
                p,
            );
            let free = !spec_has_entry(old(dir).entries@, id@);
            match r {
                Ok(_) => {
                    &&& valid && attrs_ok && auth && parent_ok && free
                    &&& final(dir).entries@.len() == old(dir).entries@.len() + 1
                    &&& final(dir).entries@.subrange(0, old(dir).entries@.len() as int) == old(
                        dir,
                    ).entries@
                    &&& ({
                        let e = final(dir).entries@.last();
                        &&& e.id@ == id@
                        &&& e.attrs == attrs
                        &&& (forall|m: Mright| #[trigger] e.direct.spec_get(m) == Seq::<
                            (Dn, crate::types::DirectOptions),
                        >::empty())
                        &&& (spec_is_stem(id@) ==> e.flattened.spec_get(Mright::Member) == Seq::<
                            Dn,
                        >::empty())
                        &&& (!spec_is_stem(id@) ==> e.flattened.spec_get(Mright::Member).len()
                            == 1 && e.flattened.spec_get(Mright::Member)[0]@ == Seq::<
                            char,
                        >::empty())
                        &&& (forall|m: Mright|
                            m != Mright::Member ==> #[trigger] e.flattened.spec_get(m) == Seq::<
                                Dn,
                            >::empty())
                    })
                },
                Err(e) => {
                    &&& final(dir).entries@ == old(dir).entries@
                    &&& (e is InvalidId ==> !valid)
                    &&& (e is InvalidAttrs ==> valid && !attrs_ok)
                    &&& (e is Forbidden ==> valid && attrs_ok && !auth)
                    &&& (e is NotFound ==> valid && attrs_ok && auth && !parent_ok)
                    &&& (e is Msg ==> valid && attrs_ok && auth && parent_ok && !free)
                    &&& (e is InvalidId || e is InvalidAttrs || e is Forbidden || e is NotFound
                        || e is Msg)
                },
            }
        }),
{
    if let Err(e) = cfg.stem.validate_sgroup_id(id) {
        return Err(e);
    }
    if let Err(e) = cfg.validate_sgroups_attrs(&attrs) {
        return Err(e);
    }
    if let Err(e) = check_right_on_any_parents(dir, cfg, user, id, Right::Admin) {
        match user {
            LoggedUser::TrustedAdmin => {
                return Err(e);
            },
            LoggedUser::User(_) => {
                return Err(e);
            },
        }
    }
    // the bypass principal's check above already covers the direct parent;
    // a user's right may come from a higher ancestor, so the parent's
    // existence is checked on its own
    match cfg.stem.parent_stem(id) {
        Some(parent) => {
            if !dir.has_entry(parent) {
                let mut msg = String::new();
                msg.append("stem ");
                msg.append(parent);
                msg.append(" does not exist");
                return Err(MyErr::NotFound(msg));
            }
        }
        None => {}
    }
    if dir.has_entry(id) {
        let mut msg = String::new();
        msg.append("sgroup ");
        msg.append(id);
        msg.append(" already exists");
        return Err(MyErr::Msg(msg));
    }
    let is_stem = cfg.stem.is_stem(id);
    let mut flattened = FlatSets::new();
    if !is_stem {
        // the schema demands a non-empty member attribute: store the sentinel
        let mut sentinel: Vec<Dn> = Vec::new();
        sentinel.push(Dn(String::new()));
        flattened.set(Mright::Member, sentinel);
    }
    let entry = SgroupEntry { id: id.to_owned(), attrs, direct: DirectSets::new(), flattened };
    let ghost old_entries = dir.entries@;
    dir.entries.push(entry);
    proof {
        assert(dir.entries@.subrange(0, old_entries.len() as int) =~= old_entries);
        lemma_create_wf(old(dir), dir, cfg, id@);
    }
    Ok(())
}

/// Appending a fresh, valid entry whose parent exists keeps the directory
/// invariants.
proof fn lemma_create_wf(pre: &Directory, post: &Directory, cfg: &LdapConfig, id: Seq<char>)
    requires
        pre.wf(),
        post.entries@.len() == pre.entries@.len() + 1,
        post.entries@.subrange(0, pre.entries@.len() as int) == pre.entries@,
        post.entries@.last().id@ == id,
        valid_sgroup_id(id),
        !spec_has_entry(pre.entries@, id),
        spec_parent_stem(id) matches Some(p) ==> spec_has_entry(pre.entries@, p),
        forall|m: Mright| #[trigger] post.entries@.last().direct.spec_get(m) == Seq::<
            (Dn, DirectOptions),
        >::empty(),
        spec_is_stem(id) ==> post.entries@.last().flattened.spec_get(Mright::Member) == Seq::<
            Dn,
        >::empty(),
    ensures
        post.wf(),
{
    assert forall|i: int, m: Mright|
        0 <= i < post.entries@.len() implies crate::mods::dns_unique(
        #[trigger] post.entries@[i].direct.spec_get(m),
    ) by {
        if i < pre.entries@.len() {
            assert(post.entries@.subrange(0, pre.entries@.len() as int)[i] == post.entries@[i]);
            assert(crate::mods::dns_unique(pre.entries@[i].direct.spec_get(m)));
        } else {
            assert(post.entries@[i].direct.spec_get(m).len() == 0);
        }
    }
    let n = pre.entries@.len() as int;
    assert forall|i: int| 0 <= i < post.entries@.len() implies (#[trigger] post.entries@[i]).id@
        == (if i < n {
        pre.entries@[i].id@
    } else {
        id
    }) by {
        if i < n {
            assert(post.entries@.subrange(0, n)[i] == post.entries@[i]);
        }
    }
    lemma_has_entry_exists(pre.entries@, id);
    // unique identifiers
    assert forall|i: int, j: int|
        0 <= i < j < post.entries@.len() implies (#[trigger] post.entries@[i]).id@ != (
    #[trigger] post.entries@[j]).id@ by {
        if j < n {
        } else {
            if post.entries@[i].id@ == id {
                assert(pre.entries@[i].id@ == id);
            }
        }
    }
    // ancestors all exist
    assert forall|i: int, k: int|
        0 <= i < post.entries@.len() && 0 <= k < spec_parent_stems(
            post.entries@[i].id@,
        ).len() implies spec_has_entry(
        post.entries@,
        #[trigger] spec_parent_stems((#[trigger] post.entries@[i]).id@)[k],
    ) by {
        let anc = spec_parent_stems(post.entries@[i].id@)[k];
        if i < n {
            assert(spec_has_entry(pre.entries@, spec_parent_stems(pre.entries@[i].id@)[k]));
            lemma_has_entry_exists(pre.entries@, anc);
            let j = choose|j: int| 0 <= j < pre.entries@.len() && (#[trigger] pre.entries@[j]).id@ == anc;
            lemma_has_entry_exists(post.entries@, anc);
            assert(post.entries@[j].id@ == anc);
        } else {
            lemma_parent_stems_unfold(id);
            match spec_parent_stem(id) {
                Some(p) => {
                    if k == 0 {
                        lemma_has_entry_exists(pre.entries@, p);
                        let j = choose|j: int|
                            0 <= j < pre.entries@.len() && (#[trigger] pre.entries@[j]).id@ == p;
                        lemma_has_entry_exists(post.entries@, p);
                        assert(post.entries@[j].id@ == p);
                    } else {
                        assert(anc == spec_parent_stems(p)[k - 1]);
                        lemma_has_entry_exists(pre.entries@, p);
                        let j = choose|j: int|
                            0 <= j < pre.entries@.len() && (#[trigger] pre.entries@[j]).id@ == p;
                        assert(spec_has_entry(pre.entries@, spec_parent_stems(pre.entries@[j].id@)[k - 1]));
                        lemma_has_entry_exists(pre.entries@, anc);
                        let j2 = choose|j2: int|
                            0 <= j2 < pre.entries@.len() && (#[trigger] pre.entries@[j2]).id@
                                == anc;
                        lemma_has_entry_exists(post.entries@, anc);
                        assert(post.entries@[j2].id@ == anc);
                    }
                }
                None => {}
            }
        }
    }
}

/// Delete a group or stem: validate the identifier, demand the
/// administrator right on it or on some ancestor, and refuse while any
/// descendant remains; then remove the entry.
pub fn delete(dir: &mut Directory, cfg: &LdapConfig, user: &LoggedUser, id: &str) -> (r: Result<
    (),
    MyErr,
>)
    requires
        old(dir).wf(),
        cfg.wf(),
    ensures
        final(dir).wf(),
        ({
            let valid = valid_sgroup_id(id@);
            let auth = match user {
                LoggedUser::TrustedAdmin => true,
                LoggedUser::User(u) => spec_granted_on_self_or_parents(
                    old(dir),
                    spec_user_urls(old(dir), cfg, u@),
                    id@,
                    Right::Admin,
                ),
            };
            let no_children = !spec_has_descendant(old(dir), id@);
            let found = spec_find_entry(old(dir).entries@, id@);
            match r {
                Ok(_) => {
                    &&& valid && auth && no_children && found is Some
                    &&& final(dir).entries@ == old(dir).entries@.remove(found->0)
                },
                Err(e) => {
                    &&& final(dir).entries@ == old(dir).entries@
                    &&& (e is InvalidId ==> !valid)
                    &&& (e is Forbidden ==> valid && !auth)
                    &&& (e is Conflict ==> valid && auth && !no_children)
                    &&& (e is NotFound ==> valid && auth && no_children && found is None)
                    &&& (e is InvalidId || e is Forbidden || e is Conflict || e is NotFound)
                },
            }
        }),
{
    if let Err(e) = cfg.stem.validate_sgroup_id(id) {
        return Err(e);
    }
    // are we allowed?
    if let Err(e) = check_right_on_self_or_any_parents(dir, cfg, user, id, Right::Admin) {
        return Err(e);
    }
    // is it possible?
    if has_descendant(dir, id) {
        let mut msg = String::new();
        msg.append("can not remove stem with existing children");
        return Err(MyErr::Conflict(msg));
    }
    match dir.find_entry(id) {
        Some(idx) => {
            proof {
                lemma_find_entry(dir.entries@, id@);
            }
            let _removed = dir.entries.remove(idx);
            proof {
                lemma_delete_wf(old(dir), dir, idx as int);
            }
            Ok(())
        }
        None => {
            let mut msg = String::new();
            msg.append("sgroup ");
            msg.append(id);
            msg.append(" does not exist");
            Err(MyErr::NotFound(msg))
        }
    }
}

/// Removing an entry without descendants keeps the directory invariants.
proof fn lemma_delete_wf(pre: &Directory, post: &Directory, idx: int)
    requires
        pre.wf(),
        0 <= idx < pre.entries@.len(),
        !spec_has_descendant(pre, pre.entries@[idx].id@),
        post.entries@ == pre.entries@.remove(idx),
    ensures
        post.wf(),
{
    let id = pre.entries@[idx].id@;
    assert forall|i: int| 0 <= i < post.entries@.len() implies (#[trigger] post.entries@[i])
        == (if i < idx {
        pre.entries@[i]
    } else {
        pre.entries@[i + 1]
    }) by {}
    // ancestors of the remaining entries still exist: the removed entry is
    // an ancestor of no remaining one, since it has no strict descendant
    assert forall|i: int, k: int|
        0 <= i < post.entries@.len() && 0 <= k < spec_parent_stems(
            post.entries@[i].id@,
        ).len() implies spec_has_entry(
        post.entries@,
        #[trigger] spec_parent_stems((#[trigger] post.entries@[i]).id@)[k],
    ) by {
        let eid = post.entries@[i].id@;
        let anc = spec_parent_stems(eid)[k];
        let pi: int = if i < idx {
            i
        } else {
            i + 1
        };
        assert(pre.entries@[pi].id@ == eid);
        assert(spec_has_entry(pre.entries@, spec_parent_stems(pre.entries@[pi].id@)[k]));
        lemma_has_entry_exists(pre.entries@, anc);
        let j = choose|j: int| 0 <= j < pre.entries@.len() && (#[trigger] pre.entries@[j]).id@ == anc;
        if j == idx {
            // the removed identifier would be a strict ancestor of a
            // remaining entry: a strict descendant, which the guard refuses
            lemma_parent_stems_are_prefixes(eid);
            assert(spec_starts_with(eid, anc));
            assert(pre.entries@[pi].id@ != id);
            assert(false);
        } else {
            let j2: int = if j < idx {
                j
            } else {
                j - 1
            };
            assert(post.entries@[j2].id@ == anc);
            lemma_has_entry_exists(post.entries@, anc);
        }
    }
}

/// Creating a group and deleting it before any member is added returns the
/// directory to its previous state.
pub proof fn lemma_create_delete_round_trip(entries: Seq<SgroupEntry>, e: SgroupEntry)
    requires
        !spec_has_entry(entries, e.id@),
    ensures
        entries.push(e).remove(spec_find_entry(entries.push(e), e.id@)->0) == entries,
        spec_find_entry(entries.push(e), e.id@) == Some(entries.len() as int),
{
    lemma_find_entry(entries.push(e), e.id@);
    lemma_has_entry_exists(entries, e.id@);
    match spec_find_entry(entries.push(e), e.id@) {
        Some(i) => {
            if i < entries.len() {
                assert(entries.push(e)[i] == entries[i]);
                assert(entries[i].id@ == e.id@);
            }
            assert(i == entries.len());
        }
        None => {
            assert(entries.push(e)[entries.len() as int].id@ == e.id@);
        }
    }
    assert(entries.push(e).remove(entries.len() as int) =~= entries);
}


/// The DN set of a concatenation.
pub proof fn lemma_dns_of_concat(a: Seq<(Dn, DirectOptions)>, b: Seq<(Dn, DirectOptions)>)
    ensures
        dns_of(a + b) == dns_of(a).union(dns_of(b)),
{
    assert forall|d: Seq<char>| dns_of(a + b).contains(d) implies dns_of(a).union(
        dns_of(b),
    ).contains(d) by {
        let i = choose|i: int| 0 <= i < (a + b).len() && #[trigger] (a + b)[i].0@ == d;
        if i < a.len() {
            assert(a[i].0@ == d);
        } else {
            assert(b[i - a.len()].0@ == d);
        }
    }
    assert forall|d: Seq<char>| dns_of(a).union(dns_of(b)).contains(d) implies dns_of(
        a + b,
    ).contains(d) by {
        if dns_of(a).contains(d) {
            let i = choose|i: int| 0 <= i < a.len() && #[trigger] a[i].0@ == d;
            assert((a + b)[i].0@ == d);
        } else {
            let i = choose|i: int| 0 <= i < b.len() && #[trigger] b[i].0@ == d;
            assert((a + b)[a.len() + i].0@ == d);
        }
    }
    assert(dns_of(a + b) =~= dns_of(a).union(dns_of(b)));
}

/// The DN set of a list with its last relation set apart.
pub proof fn lemma_dns_of_drop_last(t: Seq<(Dn, DirectOptions)>)
    requires
        t.len() > 0,
    ensures
        dns_of(t) == dns_of(t.drop_last()).insert(t.last().0@),
{
    assert(t.drop_last().push(t.last()) =~= t);
    crate::flatten::lemma_dns_of_push(t.drop_last(), t.last());
}

/// The DN set of a difference is the difference of the DN sets, provided
/// the left list holds each DN once.
pub proof fn lemma_dns_of_diff(a: Seq<(Dn, DirectOptions)>, b: Seq<(Dn, DirectOptions)>)
    requires
        dns_unique(a),
    ensures
        dns_of(spec_diff_dns(a, b)) == dns_of(a).difference(dns_of(b)),
    decreases a.len(),
{
    if a.len() == 0 {
        assert(dns_of(spec_diff_dns(a, b)) =~= dns_of(a).difference(dns_of(b))) by {
            assert forall|d: Seq<char>| !dns_of(a).contains(d) by {
                if dns_of(a).contains(d) {
                    let i = choose|i: int| 0 <= i < a.len() && #[trigger] a[i].0@ == d;
                }
            }
            assert forall|d: Seq<char>| !dns_of(spec_diff_dns(a, b)).contains(d) by {
                if dns_of(spec_diff_dns(a, b)).contains(d) {
                    let i = choose|i: int|
                        0 <= i < spec_diff_dns(a, b).len() && #[trigger] spec_diff_dns(a, b)[i].0@
                            == d;
                }
            }
        }
    } else {
        assert(dns_unique(a.drop_last())) by {
            assert forall|i: int, j: int|
                0 <= i < j < a.drop_last().len() implies a.drop_last()[i].0@ != a.drop_last()[
                j
            ].0@ by {
                assert(a[i].0@ != a[j].0@);
            }
        }
        lemma_dns_of_diff(a.drop_last(), b);
        lemma_dns_of_drop_last(a);
        if !dns_of(b).contains(a.last().0@) {
            lemma_dns_of_push(spec_diff_dns(a.drop_last(), b), a.last());
            assert(dns_of(spec_diff_dns(a, b)) =~= dns_of(a).difference(dns_of(b)));
        } else {
            assert(dns_of(spec_diff_dns(a, b)) =~= dns_of(a).difference(dns_of(b)));
        }
    }
}

/// The union of two relation lists: the first, then whatever of the second
/// is not already there.
pub fn union_dns(a: &DnsOpts, b: &DnsOpts) -> (r: DnsOpts)
    ensures
        dns_of(r@) == dns_of(a@).union(dns_of(b@)),
        dns_unique(a@) && dns_unique(b@) ==> dns_unique(r@),
{
    let mut r = clone_dns_opts(a);
    let extra = diff_dns(b, a);
    let mut k: usize = 0;
    proof {
        assert(r@ + extra@.take(0) =~= r@);
    }
    let ghost base = r@;
    while k < extra.len()
        invariant
            k <= extra@.len(),
            r@ == base + extra@.take(k as int),
        decreases extra@.len() - k,
    {
        let copy = (Dn(extra[k].0.0.clone()), clone_options(&extra[k].1));
        proof {
            assert(copy == extra@[k as int]);
            assert(base + extra@.take(k as int).push(extra@[k as int]) =~= base + extra@.take(
                k + 1,
            ));
            assert((base + extra@.take(k as int)).push(extra@[k as int]) =~= base + extra@.take(
                k as int,
            ).push(extra@[k as int]));
        }
        r.push(copy);
        k += 1;
    }
    proof {
        assert(extra@.take(extra@.len() as int) =~= extra@);
        assert(r@ == a@ + spec_diff_dns(b@, a@));
        lemma_dns_of_concat(a@, spec_diff_dns(b@, a@));
        if dns_unique(a@) && dns_unique(b@) {
            lemma_dns_of_diff(b@, a@);
            lemma_diff_dns_unique(b@, a@);
            assert forall|i: int, j: int| 0 <= i < j < r@.len() implies r@[i].0@ != r@[j].0@ by {
                if j < a@.len() {
                } else if i < a@.len() {
                    assert(dns_of(a@).contains(r@[i].0@)) by {
                        assert(a@[i].0@ == r@[i].0@);
                    }
                    assert(r@[j] == spec_diff_dns(b@, a@)[j - a@.len()]);
                    assert(dns_of(spec_diff_dns(b@, a@)).contains(r@[j].0@)) by {
                        assert(spec_diff_dns(b@, a@)[j - a@.len()].0@ == r@[j].0@);
                    }
                } else {
                    assert(r@[i] == spec_diff_dns(b@, a@)[i - a@.len()]);
                    assert(r@[j] == spec_diff_dns(b@, a@)[j - a@.len()]);
                }
            }
        }
        assert(dns_of(r@) =~= dns_of(a@).union(dns_of(b@))) by {
            lemma_dns_of_concat(a@, spec_diff_dns(b@, a@));
            assert forall|d: Seq<char>|
                dns_of(spec_diff_dns(b@, a@)).contains(d) implies dns_of(a@).union(
                dns_of(b@),
            ).contains(d) by {
                let i = choose|i: int|
                    0 <= i < spec_diff_dns(b@, a@).len() && #[trigger] spec_diff_dns(b@, a@)[i].0@
                        == d;
                lemma_diff_dns_entries(b@, a@, i);
            }
            assert forall|d: Seq<char>|
                dns_of(b@).contains(d) && !dns_of(a@).contains(d) implies dns_of(
                spec_diff_dns(b@, a@),
            ).contains(d) by {
                lemma_diff_dns_complete(b@, a@, d);
            }
        }
    }
    r
}

/// Every entry of a difference comes from the left list and avoids the
/// right one.
pub proof fn lemma_diff_dns_entries(a: Seq<(Dn, DirectOptions)>, b: Seq<(Dn, DirectOptions)>, i: int)
    requires
        0 <= i < spec_diff_dns(a, b).len(),
    ensures
        dns_of(a).contains(spec_diff_dns(a, b)[i].0@),
        !dns_of(b).contains(spec_diff_dns(a, b)[i].0@),
    decreases a.len(),
{
    if a.len() > 0 {
        let rest = spec_diff_dns(a.drop_last(), b);
        if !dns_of(b).contains(a.last().0@) && i == rest.len() {
            assert(a[a.len() - 1].0@ == a.last().0@);
        } else {
            lemma_diff_dns_entries(a.drop_last(), b, i);
            let d = spec_diff_dns(a.drop_last(), b)[i].0@;
            let j = choose|j: int| 0 <= j < a.drop_last().len() && #[trigger] a.drop_last()[j].0@ == d;
            assert(a[j].0@ == d);
        }
    }
}

/// Every DN of the left list missing from the right one stands in the
/// difference.
pub proof fn lemma_diff_dns_complete(
    a: Seq<(Dn, DirectOptions)>,
    b: Seq<(Dn, DirectOptions)>,
    d: Seq<char>,
)
    requires
        dns_of(a).contains(d),
        !dns_of(b).contains(d),
    ensures
        dns_of(spec_diff_dns(a, b)).contains(d),
    decreases a.len(),
{
    if a.len() > 0 {
        let rest = spec_diff_dns(a.drop_last(), b);
        if a.last().0@ == d {
            assert(spec_diff_dns(a, b)[rest.len() as int].0@ == d);
        } else {
            assert(dns_of(a.drop_last()).contains(d)) by {
                let i = choose|i: int| 0 <= i < a.len() && #[trigger] a[i].0@ == d;
                assert(a.drop_last()[i].0@ == d);
            }
            lemma_diff_dns_complete(a.drop_last(), b, d);
            let i = choose|i: int| 0 <= i < rest.len() && #[trigger] rest[i].0@ == d;
            if !dns_of(b).contains(a.last().0@) {
                assert(spec_diff_dns(a, b)[i].0@ == d);
            }
        }
    } else {
        let i = choose|i: int| 0 <= i < a.len() && #[trigger] a[i].0@ == d;
    }
}

/// A difference keeps each DN at most once when the left list does.
pub proof fn lemma_diff_dns_unique(a: Seq<(Dn, DirectOptions)>, b: Seq<(Dn, DirectOptions)>)
    requires
        dns_unique(a),
    ensures
        dns_unique(spec_diff_dns(a, b)),
    decreases a.len(),
{
    if a.len() > 0 {
        assert(dns_unique(a.drop_last())) by {
            assert forall|i: int, j: int|
                0 <= i < j < a.drop_last().len() implies a.drop_last()[i].0@ != a.drop_last()[
                j
            ].0@ by {
                assert(a[i].0@ != a[j].0@);
            }
        }
        lemma_diff_dns_unique(a.drop_last(), b);
        let rest = spec_diff_dns(a.drop_last(), b);
        if !dns_of(b).contains(a.last().0@) {
            assert forall|i: int, j: int|
                0 <= i < j < rest.push(a.last()).len() implies rest.push(a.last())[i].0@
                != rest.push(a.last())[j].0@ by {
                if j == rest.len() {
                    lemma_diff_dns_entries(a.drop_last(), b, i);
                    let d = rest[i].0@;
                    let m = choose|m: int|
                        0 <= m < a.drop_last().len() && #[trigger] a.drop_last()[m].0@ == d;
                    assert(a[m].0@ != a[a.len() - 1].0@);
                }
            }
        }
    }
}


/// The outcome of one role's submodifications on its direct set, the
/// replacement rewrite included: a large replacement (more than four
/// values) is first rewritten as the additions and deletions separating it
/// from the current set, so that the directory sees the smaller change.
pub open spec fn spec_role_outcome(
    cur: Set<Seq<char>>,
    a: Set<Seq<char>>,
    d: Set<Seq<char>>,
    rp: Set<Seq<char>>,
    rplen: int,
) -> Set<Seq<char>> {
    if rplen > 4 {
        spec_apply_submods(cur, a.union(rp.difference(cur)), d.union(cur.difference(rp)), None)
    } else if rplen > 0 {
        spec_apply_submods(cur, a, d, Some(rp))
    } else {
        spec_apply_submods(cur, a, d, None)
    }
}

/// Apply one role's submodifications to its current direct set, rewriting a
/// large replacement as additions and deletions. The result holds each DN
/// once.
pub fn apply_submods(cur: &DnsOpts, submods: &Vec<(MyMod, DnsOpts)>) -> (r: DnsOpts)
    requires
        dns_unique(cur@),
    ensures
        dns_of(r@) == spec_role_outcome(
            dns_of(cur@),
            dns_of(spec_submod_list(submods@, MyMod::Add)),
            dns_of(spec_submod_list(submods@, MyMod::Delete)),
            dns_of(spec_submod_list(submods@, MyMod::Replace)),
            spec_submod_list(submods@, MyMod::Replace).len() as int,
        ),
        dns_unique(r@),
{
    let a_raw = submod_list(submods, MyMod::Add);
    let d_raw = submod_list(submods, MyMod::Delete);
    let rp_raw = submod_list(submods, MyMod::Replace);
    let a = dedup_dns(&a_raw);
    let d = dedup_dns(&d_raw);
    let rp = dedup_dns(&rp_raw);
    if rp_raw.len() > 4 {
        let rp_minus_cur = diff_dns(&rp, cur);
        let cur_minus_rp = diff_dns(cur, &rp);
        let a2 = union_dns(&a, &rp_minus_cur);
        let d2 = union_dns(&d, &cur_minus_rp);
        let u = union_dns(cur, &a2);
        let r = diff_dns(&u, &d2);
        proof {
            lemma_diff_dns_unique(rp@, cur@);
            lemma_diff_dns_unique(cur@, rp@);
            lemma_dns_of_diff_any(rp@, cur@);
            lemma_dns_of_diff_any(cur@, rp@);
            lemma_dns_of_diff_any(u@, d2@);
            lemma_diff_dns_unique(u@, d2@);
            lemma_apply_shape(dns_of(cur@), dns_of(a2@), dns_of(d2@));
            assert(dns_of(r@) =~= spec_role_outcome(
                dns_of(cur@),
                dns_of(spec_submod_list(submods@, MyMod::Add)),
                dns_of(spec_submod_list(submods@, MyMod::Delete)),
                dns_of(spec_submod_list(submods@, MyMod::Replace)),
                spec_submod_list(submods@, MyMod::Replace).len() as int,
            ));
        }
        r
    } else if rp_raw.len() > 0 {
        rp
    } else {
        let u = union_dns(cur, &a);
        let r = diff_dns(&u, &d);
        proof {
            lemma_dns_of_diff_any(u@, d@);
            lemma_diff_dns_unique(u@, d@);
            lemma_apply_shape(dns_of(cur@), dns_of(a@), dns_of(d@));
            assert(dns_of(r@) =~= spec_role_outcome(
                dns_of(cur@),
                dns_of(spec_submod_list(submods@, MyMod::Add)),
                dns_of(spec_submod_list(submods@, MyMod::Delete)),
                dns_of(spec_submod_list(submods@, MyMod::Replace)),
                spec_submod_list(submods@, MyMod::Replace).len() as int,
            ));
        }
        r
    }
}

/// The DN set of a difference, whatever the left list holds.
pub proof fn lemma_dns_of_diff_any(a: Seq<(Dn, DirectOptions)>, b: Seq<(Dn, DirectOptions)>)
    ensures
        dns_of(spec_diff_dns(a, b)) == dns_of(a).difference(dns_of(b)),
{
    assert forall|d: Seq<char>|
        dns_of(spec_diff_dns(a, b)).contains(d) implies dns_of(a).difference(dns_of(b)).contains(
        d,
    ) by {
        let i = choose|i: int|
            0 <= i < spec_diff_dns(a, b).len() && #[trigger] spec_diff_dns(a, b)[i].0@ == d;
        lemma_diff_dns_entries(a, b, i);
    }
    assert forall|d: Seq<char>|
        dns_of(a).difference(dns_of(b)).contains(d) implies dns_of(spec_diff_dns(a, b)).contains(
        d,
    ) by {
        lemma_diff_dns_complete(a, b, d);
    }
    assert(dns_of(spec_diff_dns(a, b)) =~= dns_of(a).difference(dns_of(b)));
}

/// The computed union-then-difference is the submodification semantics.
proof fn lemma_apply_shape(cur: Set<Seq<char>>, a: Set<Seq<char>>, d: Set<Seq<char>>)
    ensures
        cur.union(a).difference(d) == spec_apply_submods(cur, a, d, None),
{
}

/// A copy of a relation list holding each DN once, keeping the first
/// occurrence.
pub fn dedup_dns(l: &DnsOpts) -> (r: DnsOpts)
    ensures
        dns_of(r@) == dns_of(l@),
        dns_unique(r@),
{
    let mut r: DnsOpts = Vec::new();
    let mut k: usize = 0;
    proof {
        assert(dns_of(r@) =~= dns_of(l@.take(0))) by {
            lemma_dns_of_take_empty(l@, r@);
        }
    }
    while k < l.len()
        invariant
            k <= l@.len(),
            dns_of(r@) == dns_of(l@.take(k as int)),
            dns_unique(r@),
        decreases l@.len() - k,
    {
        proof {
            assert(l@.take(k as int).push(l@[k as int]) =~= l@.take(k + 1));
            crate::flatten::lemma_dns_of_push(l@.take(k as int), l@[k as int]);
        }
        let dn_here = &l[k].0;
        if !crate::mods::contains_dn(&r, dn_here) {
            let ghost prev = r@;
            let copy = (Dn(dn_here.0.clone()), clone_options(&l[k].1));
            proof {
                assert(copy == l@[k as int]);
                crate::flatten::lemma_dns_of_push(prev, copy);
            }
            r.push(copy);
            proof {
                assert forall|i: int, j: int|
                    0 <= i < j < r@.len() implies r@[i].0@ != r@[j].0@ by {
                    if j == prev.len() {
                        assert(dns_of(prev).contains(r@[i].0@)) by {
                            assert(prev[i].0@ == r@[i].0@);
                        }
                    }
                }
            }
        } else {
            proof {
                assert(dns_of(r@) =~= dns_of(l@.take(k as int)).insert(l@[k as int].0@));
            }
        }
        k += 1;
    }
    proof {
        assert(l@.take(l@.len() as int) =~= l@);
    }
    r
}

/// Both empty prefixes hold no DN.
proof fn lemma_dns_of_take_empty(l: Seq<(Dn, DirectOptions)>, r: Seq<(Dn, DirectOptions)>)
    requires
        r.len() == 0,
    ensures
        dns_of(r) =~= dns_of(l.take(0)),
{
    assert forall|d: Seq<char>| !dns_of(r).contains(d) by {
        if dns_of(r).contains(d) {
            let i = choose|i: int| 0 <= i < r.len() && #[trigger] r[i].0@ == d;
        }
    }
    assert forall|d: Seq<char>| !dns_of(l.take(0)).contains(d) by {
        if dns_of(l.take(0)).contains(d) {
            let i = choose|i: int| 0 <= i < l.take(0).len() && #[trigger] l.take(0)[i].0@ == d;
        }
    }
}

/// The submodifications recorded for a role, if any.
pub open spec fn spec_mods_lookup(
    mods: Seq<(Mright, Vec<(MyMod, DnsOpts)>)>,
    m: Mright,
) -> Option<int>
    decreases mods.len(),
{
    if mods.len() == 0 {
        None
    } else if mods[0].0 == m {
        Some(0)
    } else {
        match spec_mods_lookup(mods.drop_first(), m) {
            Some(i) => Some(i + 1),
            None => None,
        }
    }
}

/// `spec_mods_lookup` finds the first occurrence of the role, or states
/// there is none.
pub proof fn lemma_mods_lookup(mods: Seq<(Mright, Vec<(MyMod, DnsOpts)>)>, m: Mright)
    ensures
        match spec_mods_lookup(mods, m) {
            Some(i) => 0 <= i < mods.len() && mods[i].0 == m && (forall|j: int|
                0 <= j < i ==> (#[trigger] mods[j]).0 != m),
            None => forall|j: int| 0 <= j < mods.len() ==> (#[trigger] mods[j]).0 != m,
        },
    decreases mods.len(),
{
    if mods.len() > 0 && mods[0].0 != m {
        lemma_mods_lookup(mods.drop_first(), m);
        let t = mods.drop_first();
        match spec_mods_lookup(t, m) {
            Some(i) => {
                assert(t[i] == mods[i + 1]);
                assert forall|j: int| 0 <= j < i + 1 implies (#[trigger] mods[j]).0 != m by {
                    if j > 0 {
                        assert(t[j - 1] == mods[j]);
                    }
                }
            }
            None => {
                assert forall|j: int| 0 <= j < mods.len() implies (#[trigger] mods[j]).0 != m by {
                    if j > 0 {
                        assert(t[j - 1] == mods[j]);
                    }
                }
            }
        }
    }
}


/// The groups and roles whose direct set references this entry's DN: every
/// pair whose flattened set must be recomputed after this entry's member
/// closure moved, and no other.
#[verifier::loop_isolation(false)]
#[verifier::rlimit(60)]
pub fn search_groups_mrights_depending_on_this_group(
    dir: &Directory,
    cfg: &LdapConfig,
    id: &str,
) -> (r: Vec<(String, Mright)>)
    requires
        dir.wf(),
        cfg.wf(),
    ensures
        forall|k: int|
            0 <= k < r@.len() ==> spec_has_entry(dir.entries@, (#[trigger] r@[k]).0@) && (r@[k].1
                == Mright::Member ==> !spec_is_stem(r@[k].0@)),
        forall|k: int|
            0 <= k < r@.len() ==> (spec_find_entry(dir.entries@, (#[trigger] r@[k]).0@) matches Some(
                j,
            ) && dns_of(dir.entries@[j].direct.spec_get(r@[k].1)).contains(
                spec_sgroup_id_to_dn(cfg.groups_dn@, id@),
            )),
        forall|j: int, m: Mright|
            0 <= j < dir.entries@.len() && dns_of(
                #[trigger] dir.entries@[j].direct.spec_get(m),
            ).contains(spec_sgroup_id_to_dn(cfg.groups_dn@, id@)) ==> exists|k: int|
                0 <= k < r@.len() && (#[trigger] r@[k]).0@ == dir.entries@[j].id@ && r@[k].1 == m,
{
    let group_dn = cfg.sgroup_id_to_dn(id);
    let mrights = crate::types::Mright::list();
    let mut r: Vec<(String, Mright)> = Vec::new();
    let ghost mut wit: Seq<int> = Seq::<int>::empty();
    let mut k: usize = 0;
    while k < dir.entries.len()
        invariant
            k <= dir.entries@.len(),
            forall|j: int|
                0 <= j < r@.len() ==> spec_has_entry(dir.entries@, (#[trigger] r@[j]).0@) && (
                r@[j].1 == Mright::Member ==> !spec_is_stem(r@[j].0@)),
            wit.len() == r@.len(),
            forall|j: int| 0 <= j < r@.len() ==> 0 <= #[trigger] wit[j],
            forall|j: int| 0 <= j < r@.len() ==> #[trigger] wit[j] < dir.entries@.len(),
            forall|j: int|
                0 <= j < r@.len() ==> (#[trigger] r@[j]).0@ == dir.entries@[wit[j]].id@ && dns_of(
                    dir.entries@[wit[j]].direct.spec_get(r@[j].1),
                ).contains(group_dn@),
            forall|j: int, m: Mright|
                0 <= j < k && dns_of(#[trigger] dir.entries@[j].direct.spec_get(m)).contains(
                    group_dn@,
                ) ==> exists|k2: int|
                    0 <= k2 < r@.len() && (#[trigger] r@[k2]).0@ == dir.entries@[j].id@ && r@[k2].1
                        == m,
        decreases dir.entries@.len() - k,
    {
        let mut mi: usize = 0;
        while mi < mrights.len()
            invariant
                k < dir.entries@.len(),
                mi <= mrights@.len(),
                forall|j: int|
                    0 <= j < r@.len() ==> spec_has_entry(dir.entries@, (#[trigger] r@[j]).0@) && (
                    r@[j].1 == Mright::Member ==> !spec_is_stem(r@[j].0@)),
                wit.len() == r@.len(),
                forall|j: int| 0 <= j < r@.len() ==> 0 <= #[trigger] wit[j],
                forall|j: int| 0 <= j < r@.len() ==> #[trigger] wit[j] < dir.entries@.len(),
                forall|j: int|
                    0 <= j < r@.len() ==> (#[trigger] r@[j]).0@ == dir.entries@[wit[j]].id@
                        && dns_of(dir.entries@[wit[j]].direct.spec_get(r@[j].1)).contains(
                        group_dn@,
                    ),
                forall|j: int, m: Mright|
                    0 <= j < k && dns_of(#[trigger] dir.entries@[j].direct.spec_get(m)).contains(
                        group_dn@,
                    ) ==> exists|k2: int|
                        0 <= k2 < r@.len() && (#[trigger] r@[k2]).0@ == dir.entries@[j].id@
                            && r@[k2].1 == m,
                forall|m: Mright|
                    mrights@.take(mi as int).contains(m) && dns_of(
                        #[trigger] dir.entries@[k as int].direct.spec_get(m),
                    ).contains(group_dn@) ==> exists|k2: int|
                        0 <= k2 < r@.len() && (#[trigger] r@[k2]).0@ == dir.entries@[k as int].id@
                            && r@[k2].1 == m,
            decreases mrights@.len() - mi,
        {
            let mright = mrights[mi];
            if crate::mods::contains_dn(dir.entries[k].direct.get(mright), &group_dn) {
                let gid = dir.entries[k].id.clone();
                proof {
                    lemma_has_entry_exists(dir.entries@, dir.entries@[k as int].id@);
                    if mright == Mright::Member && spec_is_stem(dir.entries@[k as int].id@) {
                        assert(dir.entries@[k as int].direct.spec_get(Mright::Member) == Seq::<
                            (Dn, DirectOptions),
                        >::empty());
                        let i = choose|i: int|
                            0 <= i < dir.entries@[k as int].direct.spec_get(Mright::Member).len()
                                && #[trigger] dir.entries@[k as int].direct.spec_get(
                                Mright::Member,
                            )[i].0@ == group_dn@;
                    }
                }
                let ghost prev = r@;
                r.push((gid, mright));
                proof {
                    wit = wit.push(k as int);
                    assert(r@[prev.len() as int].0@ == dir.entries@[k as int].id@
                        && r@[prev.len() as int].1 == mright);
                    assert forall|j: int| 0 <= j < r@.len() implies 0 <= #[trigger] wit[j] by {}
                    assert forall|j: int|
                        0 <= j < r@.len() implies #[trigger] wit[j] < dir.entries@.len() by {}
                    assert forall|j: int|
                        0 <= j < r@.len() implies (#[trigger] r@[j]).0@ == dir.entries@[
                        wit[j]
                    ].id@ && dns_of(dir.entries@[wit[j]].direct.spec_get(r@[j].1)).contains(
                        group_dn@,
                    ) by {
                        if j < prev.len() {
                            assert(r@[j] == prev[j]);
                        }
                    }
                    assert forall|j: int, m: Mright|
                        0 <= j < k && dns_of(
                            #[trigger] dir.entries@[j].direct.spec_get(m),
                        ).contains(group_dn@) implies exists|k2: int|
                        0 <= k2 < r@.len() && (#[trigger] r@[k2]).0@ == dir.entries@[j].id@
                            && r@[k2].1 == m by {
                        let k2 = choose|k2: int|
                            0 <= k2 < prev.len() && (#[trigger] prev[k2]).0@
                                == dir.entries@[j].id@ && prev[k2].1 == m;
                        assert(r@[k2] == prev[k2]);
                    }
                    assert forall|m: Mright|
                        mrights@.take(mi as int).contains(m) && dns_of(
                            #[trigger] dir.entries@[k as int].direct.spec_get(m),
                        ).contains(group_dn@) implies exists|k2: int|
                        0 <= k2 < r@.len() && (#[trigger] r@[k2]).0@ == dir.entries@[k as int].id@
                            && r@[k2].1 == m by {
                        let k2 = choose|k2: int|
                            0 <= k2 < prev.len() && (#[trigger] prev[k2]).0@
                                == dir.entries@[k as int].id@ && prev[k2].1 == m;
                        assert(r@[k2] == prev[k2]);
                    }
                }
            }
            proof {
                assert(mrights@.take(mi + 1).drop_last() =~= mrights@.take(mi as int));
                assert(mrights@.take(mi + 1).last() == mrights@[mi as int]);
                assert forall|m: Mright|
                    mrights@.take(mi + 1).contains(m) && dns_of(
                        #[trigger] dir.entries@[k as int].direct.spec_get(m),
                    ).contains(group_dn@) implies exists|k2: int|
                    0 <= k2 < r@.len() && (#[trigger] r@[k2]).0@ == dir.entries@[k as int].id@
                        && r@[k2].1 == m by {
                    if m != mrights@[mi as int] {
                        assert(mrights@.take(mi as int).contains(m)) by {
                            let i = choose|i: int|
                                0 <= i < mrights@.take(mi + 1).len() && #[trigger] mrights@.take(
                                    mi + 1,
                                )[i] == m;
                            assert(mrights@.take(mi as int)[i] == m);
                        }
                    }
                }
            }
            mi += 1;
        }
        proof {
            assert forall|m: Mright| mrights@.take(mrights@.len() as int).contains(m) by {
                match m {
                    Mright::Member => assert(mrights@.take(4)[0] == m),
                    Mright::Reader => assert(mrights@.take(4)[1] == m),
                    Mright::Updater => assert(mrights@.take(4)[2] == m),
                    Mright::Admin => assert(mrights@.take(4)[3] == m),
                }
            }
        }
        k += 1;
    }
    proof {
        assert forall|k2: int|
            0 <= k2 < r@.len() implies (spec_find_entry(
            dir.entries@,
            (#[trigger] r@[k2]).0@,
        ) matches Some(j) && dns_of(dir.entries@[j].direct.spec_get(r@[k2].1)).contains(
            spec_sgroup_id_to_dn(cfg.groups_dn@, id@),
        )) by {
            let w = wit[k2];
            assert(0 <= w && w < dir.entries@.len() && r@[k2].0@ == dir.entries@[w].id@ && dns_of(
                dir.entries@[w].direct.spec_get(r@[k2].1),
            ).contains(group_dn@));
            lemma_find_entry(dir.entries@, r@[k2].0@);
            match spec_find_entry(dir.entries@, r@[k2].0@) {
                Some(j) => {
                    // unique identifiers make the found entry the witness
                    if j != w {
                        assert(dir.entries@[j].id@ != dir.entries@[w].id@);
                    }
                    assert(j == w);
                }
                None => {
                    assert(dir.entries@[w].id@ != r@[k2].0@);
                }
            }
        }
    }
    r
}

/// Whether a pair stands in the work list.
pub open spec fn spec_in_work(work: Seq<(String, Mright)>, id: Seq<char>, m: Mright) -> bool {
    exists|k: int| 0 <= k < work.len() && (#[trigger] work[k]).0@ == id && work[k].1 == m
}

/// Drain the flattening work list: recompute each pair, and after a member
/// set of a group moved, enqueue every group that references it, so that
/// reference cycles settle by reconvergence — a recomputation that changes
/// nothing enqueues nothing. On success every pair handed in is settled in
/// the state left behind: its entry, if it exists, satisfies the closure
/// equation (pairs naming a stem's member set are never touched). The
/// budget bounds the drain; a budget that runs out before the list does is
/// reported as an error, after which the committed direct state still
/// stands but flattened sets may be stale.
#[verifier::loop_isolation(false)]
pub fn recompute_cascade(
    dir: &mut Directory,
    cfg: &LdapConfig,
    todo: Vec<(String, Mright)>,
    fuel: usize,
) -> (r: Result<(), MyErr>)
    requires
        old(dir).wf(),
        cfg.wf(),
    ensures
        final(dir).wf(),
        final(dir).entries@.len() == old(dir).entries@.len(),
        forall|i: int|
            0 <= i < final(dir).entries@.len() ==> final(dir).entries@[i].id == old(
                dir,
            ).entries@[i].id,
        forall|i: int|
            0 <= i < final(dir).entries@.len() ==> final(dir).entries@[i].attrs == old(
                dir,
            ).entries@[i].attrs,
        forall|i: int|
            0 <= i < final(dir).entries@.len() ==> final(dir).entries@[i].direct == old(
                dir,
            ).entries@[i].direct,
        r is Ok ==> forall|k: int|
            0 <= k < todo@.len() ==> crate::flatten::spec_pair_settled(
                final(dir),
                cfg,
                (#[trigger] todo@[k]).0@,
                todo@[k].1,
            ),
        r matches Err(e) ==> e is Msg,
{
    let ghost todo0 = todo@;
    let mut work = todo;
    let mut budget = fuel;
    loop
        invariant
            dir.wf(),
            dir.entries@.len() == old(dir).entries@.len(),
            forall|i: int|
                0 <= i < dir.entries@.len() ==> dir.entries@[i].id == old(dir).entries@[i].id,
            forall|i: int|
                0 <= i < dir.entries@.len() ==> dir.entries@[i].attrs == old(dir).entries@[i].attrs,
            forall|i: int|
                0 <= i < dir.entries@.len() ==> dir.entries@[i].direct == old(
                    dir,
                ).entries@[i].direct,
            // every pair handed in is settled, or still waits in the work list
            forall|k: int|
                0 <= k < todo0.len() ==> crate::flatten::spec_pair_settled(
                    dir,
                    cfg,
                    (#[trigger] todo0[k]).0@,
                    todo0[k].1,
                ) || spec_in_work(work@, todo0[k].0@, todo0[k].1),
        decreases budget,
    {
        let ghost prev_work = work@;
        let next = work.pop();
        let (gid, mright) = match next {
            None => {
                proof {
                    assert forall|k: int|
                        0 <= k < todo0.len() implies crate::flatten::spec_pair_settled(
                        dir,
                        cfg,
                        (#[trigger] todo0[k]).0@,
                        todo0[k].1,
                    ) by {
                        if spec_in_work(work@, todo0[k].0@, todo0[k].1) {
                            let k2 = choose|k2: int|
                                0 <= k2 < work@.len() && (#[trigger] work@[k2]).0@ == todo0[k].0@
                                    && work@[k2].1 == todo0[k].1;
                        }
                    }
                }
                return Ok(());
            },
            Some(p) => p,
        };
        if budget == 0 {
            let mut msg = String::new();
            msg.append("flattened recomputation did not settle within its budget");
            return Err(MyErr::Msg(msg));
        }
        budget -= 1;
        proof {
            assert(prev_work.len() > 0);
            assert(work@ == prev_work.drop_last());
            assert((gid, mright) == prev_work.last());
        }
        match dir.find_entry(gid.as_str()) {
            Some(idx) => {
                proof {
                    lemma_find_entry(dir.entries@, gid@);
                }
                let skip = matches!(mright, Mright::Member) && cfg.stem.is_stem(gid.as_str());
                if !skip {
                    let ghost pre = *dir;
                    let outcome = crate::flatten::recompute_flattened(dir, cfg, idx, mright);
                    proof {
                        assert forall|i: int|
                            0 <= i < dir.entries@.len() implies #[trigger] dir.entries@[i].id
                            == old(dir).entries@[i].id && dir.entries@[i].attrs == old(
                            dir,
                        ).entries@[i].attrs && dir.entries@[i].direct == old(
                            dir,
                        ).entries@[i].direct by {
                            if i != idx {
                                assert(dir.entries@[i] == pre.entries@[i]);
                            }
                        }
                        assert forall|i: int|
                            0 <= i < pre.entries@.len() implies (#[trigger] dir.entries@[i]).id@
                            == (#[trigger] pre.entries@[i]).id@ by {}
                    }
                    let changed = matches!(outcome, crate::flatten::UpResult::Modified);
                    if matches!(mright, Mright::Member) && changed {
                        let mut more = search_groups_mrights_depending_on_this_group(
                            dir,
                            cfg,
                            gid.as_str(),
                        );
                        let ghost popped = work@;
                        let ghost more0 = more@;
                        work.append(&mut more);
                        proof {
                            lemma_cascade_step_member(
                                pre,
                                *dir,
                                cfg,
                                idx as int,
                                gid@,
                                todo0,
                                prev_work,
                                popped,
                                more0,
                                work@,
                            );
                        }
                    } else {
                        proof {
                            let ghost mr = mright;
                            assert forall|k: int|
                                0 <= k < todo0.len() implies crate::flatten::spec_pair_settled(
                                dir,
                                cfg,
                                (#[trigger] todo0[k]).0@,
                                todo0[k].1,
                            ) || spec_in_work(work@, todo0[k].0@, todo0[k].1) by {
                                let id_k = todo0[k].0@;
                                let m_k = todo0[k].1;
                                crate::flatten::lemma_find_entry_same_ids(
                                    pre.entries@,
                                    dir.entries@,
                                    id_k,
                                );
                                crate::flatten::lemma_find_entry_same_ids(
                                    pre.entries@,
                                    dir.entries@,
                                    gid@,
                                );
                                if id_k == gid@ && m_k == mr {
                                    // the popped pair is settled by the recomputation
                                    assert(crate::flatten::spec_flattened_equation(
                                        dir,
                                        cfg,
                                        idx as int,
                                        mr,
                                    ));
                                } else if crate::flatten::spec_pair_settled(&pre, cfg, id_k, m_k) {
                                    if outcome is Unchanged {
                                        crate::flatten::lemma_settled_entries_equal(
                                            pre,
                                            *dir,
                                            cfg,
                                            id_k,
                                            m_k,
                                        );
                                    } else {
                                        // a recomputation of another role breaks no equation
                                        lemma_settled_frame_nonmember(
                                            pre,
                                            *dir,
                                            cfg,
                                            idx as int,
                                            mr,
                                            id_k,
                                            m_k,
                                            gid@,
                                        );
                                    }
                                } else {
                                    let k2 = choose|k2: int|
                                        0 <= k2 < prev_work.len() && (#[trigger] prev_work[k2]).0@
                                            == id_k && prev_work[k2].1 == m_k;
                                    assert(k2 < prev_work.len() - 1);
                                    assert(work@[k2] == prev_work[k2]);
                                }
                            }
                        }
                    }
                } else {
                    proof {
                        assert forall|k: int|
                            0 <= k < todo0.len() implies crate::flatten::spec_pair_settled(
                            dir,
                            cfg,
                            (#[trigger] todo0[k]).0@,
                            todo0[k].1,
                        ) || spec_in_work(work@, todo0[k].0@, todo0[k].1) by {
                            let id_k = todo0[k].0@;
                            let m_k = todo0[k].1;
                            if id_k == gid@ && m_k == mright {
                                // a stem's member pair is settled by definition
                            } else if !crate::flatten::spec_pair_settled(dir, cfg, id_k, m_k) {
                                let k2 = choose|k2: int|
                                    0 <= k2 < prev_work.len() && (#[trigger] prev_work[k2]).0@
                                        == id_k && prev_work[k2].1 == m_k;
                                assert(k2 < prev_work.len() - 1);
                                assert(work@[k2] == prev_work[k2]);
                            }
                        }
                    }
                }
            }
            None => {
                proof {
                    assert forall|k: int|
                        0 <= k < todo0.len() implies crate::flatten::spec_pair_settled(
                        dir,
                        cfg,
                        (#[trigger] todo0[k]).0@,
                        todo0[k].1,
                    ) || spec_in_work(work@, todo0[k].0@, todo0[k].1) by {
                        let id_k = todo0[k].0@;
                        let m_k = todo0[k].1;
                        if id_k == gid@ && m_k == mright {
                            // no entry carries the identifier: settled by definition
                        } else if !crate::flatten::spec_pair_settled(dir, cfg, id_k, m_k) {
                            let k2 = choose|k2: int|
                                0 <= k2 < prev_work.len() && (#[trigger] prev_work[k2]).0@ == id_k
                                    && prev_work[k2].1 == m_k;
                            assert(k2 < prev_work.len() - 1);
                            assert(work@[k2] == prev_work[k2]);
                        }
                    }
                }
            }
        }
    }
}

/// A settled pair stays settled through a recomputation of another pair
/// that did not touch the member role.
proof fn lemma_settled_frame_nonmember(
    pre: Directory,
    post: Directory,
    cfg: &LdapConfig,
    idx: int,
    m: Mright,
    id: Seq<char>,
    m2: Mright,
    gid: Seq<char>,
)
    requires
        pre.wf(),
        cfg.wf(),
        0 <= idx < pre.entries@.len(),
        post.entries@.len() == pre.entries@.len(),
        forall|i: int|
            0 <= i < pre.entries@.len() && i != idx ==> #[trigger] post.entries@[i]
                == pre.entries@[i],
        post.entries@[idx].id == pre.entries@[idx].id,
        post.entries@[idx].attrs == pre.entries@[idx].attrs,
        post.entries@[idx].direct == pre.entries@[idx].direct,
        forall|mm: Mright|
            mm != m ==> post.entries@[idx].flattened.spec_get(mm) == pre.entries@[
                idx
            ].flattened.spec_get(mm),
        m != Mright::Member,
        pre.entries@[idx].id@ == gid,
        !(id == gid && m2 == m),
        crate::flatten::spec_pair_settled(&pre, cfg, id, m2),
    ensures
        crate::flatten::spec_pair_settled(&post, cfg, id, m2),
{
    assert forall|i: int|
        0 <= i < pre.entries@.len() implies (#[trigger] post.entries@[i]).id@ == (
    #[trigger] pre.entries@[i]).id@ by {}
    crate::flatten::lemma_find_entry_same_ids(pre.entries@, post.entries@, id);
    lemma_find_entry(pre.entries@, id);
    match crate::directory::spec_find_entry(pre.entries@, id) {
        Some(j) => {
            if !(spec_is_stem(id) && m2 == Mright::Member) {
                if j == idx && m2 == m {
                    assert(id == gid);
                    assert(false);
                } else {
                    crate::flatten::lemma_equation_frame(pre, post, cfg, idx, m, j, m2);
                }
            }
        }
        None => {}
    }
}

/// After a member recomputation that moved an entry's flattened set, every
/// pair is settled, still queued, or newly queued among the dependents of
/// the moved entry.
proof fn lemma_cascade_step_member(
    pre: Directory,
    post: Directory,
    cfg: &LdapConfig,
    idx: int,
    gid: Seq<char>,
    todo0: Seq<(String, Mright)>,
    prev_work: Seq<(String, Mright)>,
    popped: Seq<(String, Mright)>,
    more: Seq<(String, Mright)>,
    work_now: Seq<(String, Mright)>,
)
    requires
        pre.wf(),
        post.wf(),
        cfg.wf(),
        0 <= idx < pre.entries@.len(),
        post.entries@.len() == pre.entries@.len(),
        forall|i: int|
            0 <= i < pre.entries@.len() && i != idx ==> #[trigger] post.entries@[i]
                == pre.entries@[i],
        post.entries@[idx].id == pre.entries@[idx].id,
        post.entries@[idx].attrs == pre.entries@[idx].attrs,
        post.entries@[idx].direct == pre.entries@[idx].direct,
        forall|mm: Mright|
            mm != Mright::Member ==> post.entries@[idx].flattened.spec_get(mm) == pre.entries@[
                idx
            ].flattened.spec_get(mm),
        pre.entries@[idx].id@ == gid,
        crate::flatten::spec_flattened_equation(&post, cfg, idx, Mright::Member),
        // what the invariant knew before this step
        prev_work.len() > 0,
        prev_work.last().0@ == gid && prev_work.last().1 == Mright::Member,
        popped == prev_work.drop_last(),
        work_now == popped + more,
        forall|k: int|
            0 <= k < todo0.len() ==> crate::flatten::spec_pair_settled(
                &pre,
                cfg,
                (#[trigger] todo0[k]).0@,
                todo0[k].1,
            ) || spec_in_work(prev_work, todo0[k].0@, todo0[k].1),
        // the dependents search is complete over the new state
        forall|j: int, m: Mright|
            0 <= j < post.entries@.len() && dns_of(
                #[trigger] post.entries@[j].direct.spec_get(m),
            ).contains(spec_sgroup_id_to_dn(cfg.groups_dn@, gid)) ==> exists|k: int|
                0 <= k < more.len() && (#[trigger] more[k]).0@ == post.entries@[j].id@ && more[k].1
                    == m,
    ensures
        forall|k: int|
            0 <= k < todo0.len() ==> crate::flatten::spec_pair_settled(
                &post,
                cfg,
                (#[trigger] todo0[k]).0@,
                todo0[k].1,
            ) || spec_in_work(work_now, todo0[k].0@, todo0[k].1),
{
    assert forall|i: int|
        0 <= i < pre.entries@.len() implies (#[trigger] post.entries@[i]).id@ == (
    #[trigger] pre.entries@[i]).id@ by {}
    let gdn = spec_sgroup_id_to_dn(cfg.groups_dn@, gid);
    assert forall|k: int|
        0 <= k < todo0.len() implies crate::flatten::spec_pair_settled(
        &post,
        cfg,
        (#[trigger] todo0[k]).0@,
        todo0[k].1,
    ) || spec_in_work(work_now, todo0[k].0@, todo0[k].1) by {
        let id_k = todo0[k].0@;
        let m_k = todo0[k].1;
        crate::flatten::lemma_find_entry_same_ids(pre.entries@, post.entries@, id_k);
        lemma_find_entry(pre.entries@, id_k);
        if id_k == gid && m_k == Mright::Member {
            // the popped pair itself: its equation was just established
            lemma_has_entry_exists(pre.entries@, gid);
            match crate::directory::spec_find_entry(pre.entries@, id_k) {
                Some(j) => {
                    if j != idx {
                        assert(pre.entries@[j].id@ != pre.entries@[idx].id@);
                    }
                    assert(j == idx);
                }
                None => {
                    assert(pre.entries@[idx].id@ == id_k);
                }
            }
        } else if crate::flatten::spec_pair_settled(&pre, cfg, id_k, m_k) {
            match crate::directory::spec_find_entry(pre.entries@, id_k) {
                Some(j) => {
                    if spec_is_stem(id_k) && m_k == Mright::Member {
                        // settled by definition in any state
                    } else if j == idx && m_k == Mright::Member {
                        assert(pre.entries@[j].id@ == id_k);
                        assert(false);
                    } else if dns_of(pre.entries@[j].direct.spec_get(m_k)).contains(gdn) {
                        // the moved set may have broken this equation: the
                        // pair is among the enqueued dependents
                        assert(post.entries@[j].direct.spec_get(m_k) == pre.entries@[
                            j
                        ].direct.spec_get(m_k));
                        let k2 = choose|k2: int|
                            0 <= k2 < more.len() && (#[trigger] more[k2]).0@
                                == post.entries@[j].id@ && more[k2].1 == m_k;
                        assert(pre.entries@[j].id@ == id_k);
                        assert(work_now[popped.len() + k2] == more[k2]);
                        assert(spec_in_work(work_now, id_k, m_k));
                    } else {
                        crate::flatten::lemma_equation_frame(
                            pre,
                            post,
                            cfg,
                            idx,
                            Mright::Member,
                            j,
                            m_k,
                        );
                    }
                }
                None => {}
            }
        } else {
            // still queued: the witness survives the pop and the append
            let k2 = choose|k2: int|
                0 <= k2 < prev_work.len() && (#[trigger] prev_work[k2]).0@ == id_k
                    && prev_work[k2].1 == m_k;
            assert(k2 < prev_work.len() - 1);
            assert(work_now[k2] == prev_work[k2]);
            assert(spec_in_work(work_now, id_k, m_k));
        }
    }
}


/// Replace the direct set of one role of one entry, leaving everything else
/// as it stands.
fn set_direct(dir: &mut Directory, idx: usize, m: Mright, v: DnsOpts)
    requires
        idx < old(dir).entries@.len(),
    ensures
        final(dir).entries@.len() == old(dir).entries@.len(),
        forall|i: int|
            0 <= i < final(dir).entries@.len() && i != idx ==> final(dir).entries@[i] == old(
                dir,
            ).entries@[i],
        final(dir).entries@[idx as int].id == old(dir).entries@[idx as int].id,
        final(dir).entries@[idx as int].attrs == old(dir).entries@[idx as int].attrs,
        final(dir).entries@[idx as int].flattened == old(dir).entries@[idx as int].flattened,
        final(dir).entries@[idx as int].direct.spec_get(m) == v@,
        forall|m2: Mright|
            m2 != m ==> final(dir).entries@[idx as int].direct.spec_get(m2) == old(
                dir,
            ).entries@[idx as int].direct.spec_get(m2),
{
    let entry = &mut dir.entries[idx];
    entry.direct.set(m, v);
}

/// Whether this set of modifications touches the member role.
pub open spec fn spec_mods_touch_member(mods: Seq<(Mright, Vec<(MyMod, DnsOpts)>)>) -> bool {
    exists|i: int| 0 <= i < mods.len() && (#[trigger] mods[i]).0 == Mright::Member
}

/// The right this set of modifications demands of the caller.
pub open spec fn spec_mods_right(mods: Seq<(Mright, Vec<(MyMod, DnsOpts)>)>) -> Right {
    if exists|i: int| 0 <= i < mods.len() && (#[trigger] mods[i].0).spec_level() > 1 {
        Right::Admin
    } else {
        Right::Updater
    }
}

/// The direct state of the modified entry after the modifications: each
/// role named in the request carries the outcome of its submodifications,
/// every other role stands unchanged.
pub open spec fn spec_modified_direct(
    pre: SgroupEntry,
    post: SgroupEntry,
    mods: Seq<(Mright, Vec<(MyMod, DnsOpts)>)>,
) -> bool {
    forall|m: Mright|
        match spec_mods_lookup(mods, m) {
            Some(mi) => dns_of(#[trigger] post.direct.spec_get(m)) == spec_role_outcome(
                dns_of(pre.direct.spec_get(m)),
                dns_of(spec_submod_list(mods[mi].1@, MyMod::Add)),
                dns_of(spec_submod_list(mods[mi].1@, MyMod::Delete)),
                dns_of(spec_submod_list(mods[mi].1@, MyMod::Replace)),
                spec_submod_list(mods[mi].1@, MyMod::Replace).len() as int,
            ),
            None => post.direct.spec_get(m) == pre.direct.spec_get(m),
        }
}

/// Modify the direct members or rights of a group or stem: validate the
/// identifier, demand the right the modifications ask for, refuse member
/// modifications on stems, apply each role's submodifications to its direct
/// set, then drive the flattening recomputation within the given budget.
#[verifier::loop_isolation(false)]
pub fn modify_members_or_rights(
    dir: &mut Directory,
    cfg: &LdapConfig,
    user: &LoggedUser,
    id: &str,
    my_mods: &crate::types::MyMods,
    fuel: usize,
) -> (r: Result<(), MyErr>)
    requires
        old(dir).wf(),
        cfg.wf(),
        forall|i: int, j: int|
            0 <= i < j < my_mods@.len() ==> (#[trigger] my_mods@[i]).0 != (
            #[trigger] my_mods@[j]).0,
    ensures
        final(dir).wf(),
        ({
            let valid = valid_sgroup_id(id@);
            let auth = match user {
                LoggedUser::TrustedAdmin => true,
                LoggedUser::User(u) => spec_granted_on_self_or_parents(
                    old(dir),
                    spec_user_urls(old(dir), cfg, u@),
                    id@,
                    spec_mods_right(my_mods@),
                ),
            };
            let mods_ok = !(spec_is_stem(id@) && spec_mods_touch_member(my_mods@));
            let found = spec_find_entry(old(dir).entries@, id@);
            let committed = {
                &&& final(dir).entries@.len() == old(dir).entries@.len()
                &&& (forall|i: int|
                    0 <= i < final(dir).entries@.len() && i != found->0
                        ==> #[trigger] final(dir).entries@[i].direct == old(
                        dir,
                    ).entries@[i].direct)
                &&& (forall|i: int|
                    0 <= i < final(dir).entries@.len() ==> #[trigger] final(dir).entries@[i].id
                        == old(dir).entries@[i].id && final(dir).entries@[i].attrs == old(
                        dir,
                    ).entries@[i].attrs)
                &&& spec_modified_direct(
                    old(dir).entries@[found->0],
                    final(dir).entries@[found->0],
                    my_mods@,
                )
            };
            match r {
                Ok(_) => {
                    &&& valid && auth && mods_ok && (found is Some) && committed
                    // after the flattening drive, every modified role of a
                    // group satisfies the closure equation
                    &&& (!spec_is_stem(id@) ==> forall|k: int|
                        0 <= k < my_mods@.len() ==> crate::flatten::spec_pair_settled(
                            final(dir),
                            cfg,
                            id@,
                            (#[trigger] my_mods@[k]).0,
                        ))
                },
                Err(e) => {
                    &&& (e is InvalidId ==> !valid && final(dir).entries@ == old(dir).entries@)
                    &&& (e is Forbidden ==> valid && !auth && final(dir).entries@ == old(
                        dir,
                    ).entries@)
                    &&& (e is InvalidMods ==> valid && auth && !mods_ok && final(dir).entries@
                        == old(dir).entries@)
                    &&& (e is NotFound ==> valid && auth && mods_ok && (found is None)
                        && final(dir).entries@ == old(dir).entries@)
                    &&& (e is Msg ==> valid && auth && mods_ok && (found is Some) && committed)
                    &&& (e is InvalidId || e is Forbidden || e is InvalidMods || e is NotFound
                        || e is Msg)
                },
            }
        }),
{
    if let Err(e) = cfg.stem.validate_sgroup_id(id) {
        return Err(e);
    }
    // is the caller allowed to do the modifications?
    let right = crate::mods::my_mods_to_right(my_mods);
    if let Err(e) = check_right_on_self_or_any_parents(dir, cfg, user, id, right) {
        return Err(e);
    }
    // are the modifications valid?
    let is_stem = cfg.stem.is_stem(id);
    if is_stem {
        let mut k: usize = 0;
        while k < my_mods.len()
            invariant
                k <= my_mods@.len(),
                forall|j: int| 0 <= j < k ==> (#[trigger] my_mods@[j]).0 != Mright::Member,
            decreases my_mods@.len() - k,
        {
            match my_mods[k].0 {
                Mright::Member => {
                    proof {
                        assert(spec_mods_touch_member(my_mods@)) by {
                            assert(my_mods@[k as int].0 == Mright::Member);
                        }
                    }
                    let mut msg = String::new();
                    msg.append("members are not allowed for stems");
                    return Err(MyErr::InvalidMods(msg));
                }
                _ => {}
            }
            k += 1;
        }
        proof {
            if spec_mods_touch_member(my_mods@) {
                let i = choose|i: int|
                    0 <= i < my_mods@.len() && (#[trigger] my_mods@[i]).0 == Mright::Member;
            }
        }
    }
    let idx = match dir.find_entry(id) {
        Some(idx) => idx,
        None => {
            let mut msg = String::new();
            msg.append("sgroup ");
            msg.append(id);
            msg.append(" does not exist");
            return Err(MyErr::NotFound(msg));
        },
    };
    proof {
        lemma_find_entry(dir.entries@, id@);
    }
    // commit the direct modifications, role by role
    let ghost pre = dir.entries@;
    proof {
        assert(my_mods@.take(0) =~= Seq::<(Mright, Vec<(MyMod, DnsOpts)>)>::empty());
    }
    let mut k: usize = 0;
    while k < my_mods.len()
        invariant
            dir.wf(),
            cfg.wf(),
            idx < dir.entries@.len(),
            k <= my_mods@.len(),
            dir.entries@.len() == pre.len(),
            forall|i: int, j: int|
                0 <= i < j < my_mods@.len() ==> (#[trigger] my_mods@[i]).0 != (
                #[trigger] my_mods@[j]).0,
            spec_is_stem(pre[idx as int].id@) ==> !spec_mods_touch_member(my_mods@),
            forall|i: int| 0 <= i < pre.len() && i != idx ==> dir.entries@[i] == pre[i],
            dir.entries@[idx as int].id == pre[idx as int].id,
            dir.entries@[idx as int].attrs == pre[idx as int].attrs,
            dir.entries@[idx as int].flattened == pre[idx as int].flattened,
            forall|m: Mright|
                match spec_mods_lookup(my_mods@.take(k as int), m) {
                    Some(mi) => dns_of(#[trigger] dir.entries@[idx as int].direct.spec_get(m))
                        == spec_role_outcome(
                        dns_of(pre[idx as int].direct.spec_get(m)),
                        dns_of(spec_submod_list(my_mods@.take(k as int)[mi].1@, MyMod::Add)),
                        dns_of(spec_submod_list(my_mods@.take(k as int)[mi].1@, MyMod::Delete)),
                        dns_of(spec_submod_list(my_mods@.take(k as int)[mi].1@, MyMod::Replace)),
                        spec_submod_list(
                            my_mods@.take(k as int)[mi].1@,
                            MyMod::Replace,
                        ).len() as int,
                    ),
                    None => dir.entries@[idx as int].direct.spec_get(m) == pre[idx as int
                    ].direct.spec_get(m),
                },
        decreases my_mods@.len() - k,
    {
        let (mright, submods) = &my_mods[k];
        proof {
            assert(crate::mods::dns_unique(dir.entries@[idx as int].direct.spec_get(*mright)));
            if spec_is_stem(pre[idx as int].id@) && *mright == Mright::Member {
                assert(spec_mods_touch_member(my_mods@)) by {
                    assert(my_mods@[k as int].0 == Mright::Member);
                }
            }
        }
        let cur = clone_dns_opts(dir.entries[idx].direct.get(*mright));
        let newd = apply_submods(&cur, submods);
        let ghost before = dir.entries@;
        set_direct(dir, idx, *mright, newd);
        proof {
            assert(my_mods@[k as int].1 == *submods);
            lemma_mods_prefix_step(my_mods@, k as int, before, dir.entries@, pre, idx as int);
            lemma_wf_after_set_direct(before, dir.entries@, idx as int, *mright, pre, my_mods@);
        }
        k += 1;
    }
    proof {
        assert(my_mods@.take(my_mods@.len() as int) =~= my_mods@);
        assert(spec_modified_direct(pre[idx as int], dir.entries@[idx as int], my_mods@));
    }
    // then update the flattened sets
    let mut todo: Vec<(String, Mright)> = Vec::new();
    if !is_stem {
        let mut k2: usize = 0;
        while k2 < my_mods.len()
            invariant
                k2 <= my_mods@.len(),
                todo@.len() == k2,
                forall|j: int|
                    0 <= j < k2 ==> (#[trigger] todo@[j]).0@ == id@ && todo@[j].1 == my_mods@[j].0,
            decreases my_mods@.len() - k2,
        {
            todo.push((id.to_owned(), my_mods[k2].0));
            k2 += 1;
        }
    }
    let ghost todo_view = todo@;
    let ghost committed_entries = dir.entries@;
    let cascade = recompute_cascade(dir, cfg, todo, fuel);
    proof {
        lemma_committed_stable(committed_entries, dir.entries@, pre, idx as int, my_mods@);
    }
    match cascade {
        Ok(_) => {
            proof {
                if !spec_is_stem(id@) {
                    assert forall|k: int|
                        0 <= k < my_mods@.len() implies crate::flatten::spec_pair_settled(
                        dir,
                        cfg,
                        id@,
                        (#[trigger] my_mods@[k]).0,
                    ) by {
                        assert(todo_view[k].0@ == id@ && todo_view[k].1 == my_mods@[k].0);
                        assert(crate::flatten::spec_pair_settled(
                            dir,
                            cfg,
                            todo_view[k].0@,
                            todo_view[k].1,
                        ));
                    }
                }
            }
            Ok(())
        },
        Err(e) => Err(e),
    }
}

/// Processing one more role extends the per-role outcome to the longer
/// prefix of the request.
proof fn lemma_mods_prefix_step(
    mods: Seq<(Mright, Vec<(MyMod, DnsOpts)>)>,
    k: int,
    before: Seq<SgroupEntry>,
    after: Seq<SgroupEntry>,
    pre: Seq<SgroupEntry>,
    idx: int,
)
    requires
        0 <= k < mods.len(),
        0 <= idx < pre.len(),
        before.len() == pre.len(),
        after.len() == pre.len(),
        forall|i: int, j: int| 0 <= i < j < mods.len() ==> (#[trigger] mods[i]).0 != (
        #[trigger] mods[j]).0,
        forall|m: Mright|
            match spec_mods_lookup(mods.take(k), m) {
                Some(mi) => dns_of(#[trigger] before[idx].direct.spec_get(m)) == spec_role_outcome(
                    dns_of(pre[idx].direct.spec_get(m)),
                    dns_of(spec_submod_list(mods.take(k)[mi].1@, MyMod::Add)),
                    dns_of(spec_submod_list(mods.take(k)[mi].1@, MyMod::Delete)),
                    dns_of(spec_submod_list(mods.take(k)[mi].1@, MyMod::Replace)),
                    spec_submod_list(mods.take(k)[mi].1@, MyMod::Replace).len() as int,
                ),
                None => before[idx].direct.spec_get(m) == pre[idx].direct.spec_get(m),
            },
        dns_of(after[idx].direct.spec_get(mods[k].0)) == spec_role_outcome(
            dns_of(before[idx].direct.spec_get(mods[k].0)),
            dns_of(spec_submod_list(mods[k].1@, MyMod::Add)),
            dns_of(spec_submod_list(mods[k].1@, MyMod::Delete)),
            dns_of(spec_submod_list(mods[k].1@, MyMod::Replace)),
            spec_submod_list(mods[k].1@, MyMod::Replace).len() as int,
        ),
        forall|m2: Mright|
            m2 != mods[k].0 ==> after[idx].direct.spec_get(m2) == before[idx].direct.spec_get(m2),
    ensures
        forall|m: Mright|
            match spec_mods_lookup(mods.take(k + 1), m) {
                Some(mi) => dns_of(#[trigger] after[idx].direct.spec_get(m)) == spec_role_outcome(
                    dns_of(pre[idx].direct.spec_get(m)),
                    dns_of(spec_submod_list(mods.take(k + 1)[mi].1@, MyMod::Add)),
                    dns_of(spec_submod_list(mods.take(k + 1)[mi].1@, MyMod::Delete)),
                    dns_of(spec_submod_list(mods.take(k + 1)[mi].1@, MyMod::Replace)),
                    spec_submod_list(mods.take(k + 1)[mi].1@, MyMod::Replace).len() as int,
                ),
                None => after[idx].direct.spec_get(m) == pre[idx].direct.spec_get(m),
            },
{
    assert forall|m: Mright| true implies (match spec_mods_lookup(mods.take(k + 1), m) {
        Some(mi) => dns_of(#[trigger] after[idx].direct.spec_get(m)) == spec_role_outcome(
            dns_of(pre[idx].direct.spec_get(m)),
            dns_of(spec_submod_list(mods.take(k + 1)[mi].1@, MyMod::Add)),
            dns_of(spec_submod_list(mods.take(k + 1)[mi].1@, MyMod::Delete)),
            dns_of(spec_submod_list(mods.take(k + 1)[mi].1@, MyMod::Replace)),
            spec_submod_list(mods.take(k + 1)[mi].1@, MyMod::Replace).len() as int,
        ),
        None => after[idx].direct.spec_get(m) == pre[idx].direct.spec_get(m),
    }) by {
        lemma_mods_lookup(mods.take(k), m);
        lemma_mods_lookup(mods.take(k + 1), m);
        if m == mods[k].0 {
            // the uniqueness of the roles makes position k the first and
            // only occurrence in the longer prefix
            match spec_mods_lookup(mods.take(k + 1), m) {
                Some(mi) => {
                    assert(mods.take(k + 1)[mi].0 == m);
                    assert(mods.take(k + 1)[mi] == mods[mi]);
                    assert(mods.take(k + 1)[k] == mods[k]);
                    if mi < k {
                        assert(mods[mi].0 != mods[k].0);
                    }
                    assert(mi == k);
                    // the role was untouched by the earlier prefix
                    match spec_mods_lookup(mods.take(k), m) {
                        Some(mj) => {
                            assert(mods.take(k)[mj] == mods[mj]);
                            assert(mods[mj].0 != mods[k].0);
                            assert(false);
                        }
                        None => {}
                    }
                }
                None => {
                    assert(mods.take(k + 1)[k].0 == m);
                }
            }
        } else {
            assert(after[idx].direct.spec_get(m) == before[idx].direct.spec_get(m));
            match spec_mods_lookup(mods.take(k + 1), m) {
                Some(mi) => {
                    assert(mods.take(k + 1)[mi].0 == m);
                    assert(mi != k);
                    assert(mods.take(k)[mi] == mods.take(k + 1)[mi]);
                    match spec_mods_lookup(mods.take(k), m) {
                        Some(mj) => {
                            assert(mods.take(k)[mj] == mods[mj]);
                            assert(mods.take(k + 1)[mi] == mods[mi]);
                            if mj < mi {
                                assert(mods[mj].0 != mods[mi].0);
                            }
                            if mi < mj {
                                assert(mods.take(k)[mi].0 != m);
                            }
                            assert(mi == mj);
                        }
                        None => {
                            assert(mods.take(k)[mi].0 != m);
                            assert(false);
                        }
                    }
                }
                None => {
                    match spec_mods_lookup(mods.take(k), m) {
                        Some(mj) => {
                            assert(mods.take(k + 1)[mj].0 == mods.take(k)[mj].0);
                            assert(false);
                        }
                        None => {}
                    }
                }
            }
        }
    }
}

/// Replacing one role's direct set by the outcome of checked modifications
/// keeps the directory invariants.
proof fn lemma_wf_after_set_direct(
    before: Seq<SgroupEntry>,
    after: Seq<SgroupEntry>,
    idx: int,
    m: Mright,
    pre: Seq<SgroupEntry>,
    mods: Seq<(Mright, Vec<(MyMod, DnsOpts)>)>,
)
    requires
        0 <= idx < before.len(),
        after.len() == before.len(),
        wf_entries(before),
        forall|i: int| 0 <= i < before.len() && i != idx ==> after[i] == before[i],
        after[idx].id == before[idx].id,
        after[idx].attrs == before[idx].attrs,
        after[idx].flattened == before[idx].flattened,
        crate::mods::dns_unique(after[idx].direct.spec_get(m)),
        forall|m2: Mright|
            m2 != m ==> after[idx].direct.spec_get(m2) == before[idx].direct.spec_get(m2),
        spec_is_stem(before[idx].id@) ==> m != Mright::Member,
    ensures
        wf_entries(after),
{
    assert forall|i: int| 0 <= i < after.len() implies (#[trigger] after[i]).id@ == before[i].id@
        by {}
    crate::directory::lemma_has_entry_same_ids(before, after);
    assert forall|i: int, k: int|
        0 <= i < after.len() && 0 <= k < spec_parent_stems(after[i].id@).len() implies
        spec_has_entry(after, #[trigger] spec_parent_stems((#[trigger] after[i]).id@)[k]) by {
        assert(spec_has_entry(before, spec_parent_stems(before[i].id@)[k]));
    }
    assert forall|i: int, m2: Mright|
        0 <= i < after.len() implies crate::mods::dns_unique(
        #[trigger] after[i].direct.spec_get(m2),
    ) by {
        if i != idx {
            assert(crate::mods::dns_unique(before[i].direct.spec_get(m2)));
        } else if m2 != m {
            assert(crate::mods::dns_unique(before[i].direct.spec_get(m2)));
        }
    }
}

/// The identifiers, attributes and direct sets committed before the
/// flattening drive stay as they were committed.
proof fn lemma_committed_stable(
    committed: Seq<SgroupEntry>,
    now: Seq<SgroupEntry>,
    pre: Seq<SgroupEntry>,
    idx: int,
    mods: Seq<(Mright, Vec<(MyMod, DnsOpts)>)>,
)
    requires
        0 <= idx < pre.len(),
        committed.len() == pre.len(),
        now.len() == committed.len(),
        forall|i: int| 0 <= i < now.len() ==> (#[trigger] now[i]).id == committed[i].id,
        forall|i: int| 0 <= i < now.len() ==> (#[trigger] now[i]).attrs == committed[i].attrs,
        forall|i: int| 0 <= i < now.len() ==> (#[trigger] now[i]).direct == committed[i].direct,
        forall|i: int| 0 <= i < pre.len() && i != idx ==> committed[i] == pre[i],
        committed[idx].id == pre[idx].id,
        committed[idx].attrs == pre[idx].attrs,
        spec_modified_direct(pre[idx], committed[idx], mods),
    ensures
        forall|i: int|
            0 <= i < now.len() && i != idx ==> #[trigger] now[i].direct == pre[i].direct,
        forall|i: int|
            0 <= i < now.len() ==> #[trigger] now[i].id == pre[i].id && now[i].attrs
                == pre[i].attrs,
        spec_modified_direct(pre[idx], now[idx], mods),
{
    assert(now[idx].direct == committed[idx].direct);
    assert forall|m: Mright| true implies (match spec_mods_lookup(mods, m) {
        Some(mi) => dns_of(#[trigger] now[idx].direct.spec_get(m)) == spec_role_outcome(
            dns_of(pre[idx].direct.spec_get(m)),
            dns_of(spec_submod_list(mods[mi].1@, MyMod::Add)),
            dns_of(spec_submod_list(mods[mi].1@, MyMod::Delete)),
            dns_of(spec_submod_list(mods[mi].1@, MyMod::Replace)),
            spec_submod_list(mods[mi].1@, MyMod::Replace).len() as int,
        ),
        None => now[idx].direct.spec_get(m) == pre[idx].direct.spec_get(m),
    }) by {
        assert(now[idx].direct.spec_get(m) == committed[idx].direct.spec_get(m));
    }
}


/// The attributes of the current state whose key the request does not name.
pub open spec fn spec_attrs_without_keys(
    cur: Seq<(String, String)>,
    req: Seq<(String, String)>,
) -> Seq<(String, String)>
    decreases cur.len(),
{
    if cur.len() == 0 {
        Seq::<(String, String)>::empty()
    } else if spec_attr_lookup(req, cur[0].0@) is Some {
        spec_attrs_without_keys(cur.drop_first(), req)
    } else {
        seq![cur[0]] + spec_attrs_without_keys(cur.drop_first(), req)
    }
}

/// The requested attributes that carry a value; an empty value asks for a
/// removal and stores nothing.
pub open spec fn spec_nonempty_attrs(req: Seq<(String, String)>) -> Seq<(String, String)>
    decreases req.len(),
{
    if req.len() == 0 {
        Seq::<(String, String)>::empty()
    } else if req[0].1@.len() == 0 {
        spec_nonempty_attrs(req.drop_first())
    } else {
        seq![req[0]] + spec_nonempty_attrs(req.drop_first())
    }
}

/// The attributes after a modification request: the untouched entries, then
/// the requested values; an empty requested value removes its key.
pub open spec fn spec_apply_attr_mods(
    cur: Seq<(String, String)>,
    req: Seq<(String, String)>,
) -> Seq<(String, String)> {
    spec_attrs_without_keys(cur, req) + spec_nonempty_attrs(req)
}

/// Apply an attribute modification request.
pub fn apply_attr_mods(cur: &MonoAttrs, req: &MonoAttrs) -> (r: MonoAttrs)
    ensures
        r@ == spec_apply_attr_mods(cur@, req@),
{
    let mut r: MonoAttrs = Vec::new();
    let mut i: usize = 0;
    proof {
        assert(cur@.skip(0) =~= cur@);
        assert(r@ + spec_attrs_without_keys(cur@.skip(0), req@) =~= spec_attrs_without_keys(
            cur@,
            req@,
        ));
    }
    while i < cur.len()
        invariant
            i <= cur@.len(),
            spec_attrs_without_keys(cur@, req@) == r@ + spec_attrs_without_keys(
                cur@.skip(i as int),
                req@,
            ),
        decreases cur@.len() - i,
    {
        proof {
            assert(cur@.skip(i as int)[0] == cur@[i as int]);
            assert(cur@.skip(i as int).drop_first() =~= cur@.skip(i + 1));
        }
        if crate::api_read::attr_lookup(req, cur[i].0.as_str()).is_none() {
            let ghost prev = r@;
            r.push((cur[i].0.clone(), cur[i].1.clone()));
            proof {
                assert(prev + (seq![cur@[i as int]] + spec_attrs_without_keys(
                    cur@.skip(i + 1),
                    req@,
                )) =~= r@ + spec_attrs_without_keys(cur@.skip(i + 1), req@));
            }
        }
        i += 1;
    }
    proof {
        assert(cur@.skip(cur@.len() as int) =~= Seq::<(String, String)>::empty());
        assert(r@ + spec_attrs_without_keys(cur@.skip(cur@.len() as int), req@) =~= r@);
    }
    let ghost kept = r@;
    let mut j: usize = 0;
    proof {
        assert(req@.skip(0) =~= req@);
        assert(kept + spec_nonempty_attrs(req@.skip(0)) =~= kept + spec_nonempty_attrs(req@));
    }
    while j < req.len()
        invariant
            j <= req@.len(),
            kept + spec_nonempty_attrs(req@) == r@ + spec_nonempty_attrs(req@.skip(j as int)),
        decreases req@.len() - j,
    {
        proof {
            assert(req@.skip(j as int)[0] == req@[j as int]);
            assert(req@.skip(j as int).drop_first() =~= req@.skip(j + 1));
        }
        if req[j].1.as_str().unicode_len() > 0 {
            let ghost prev = r@;
            r.push((req[j].0.clone(), req[j].1.clone()));
            proof {
                assert(prev + (seq![req@[j as int]] + spec_nonempty_attrs(req@.skip(j + 1)))
                    =~= r@ + spec_nonempty_attrs(req@.skip(j + 1)));
            }
        }
        j += 1;
    }
    proof {
        assert(req@.skip(req@.len() as int) =~= Seq::<(String, String)>::empty());
        assert(r@ + spec_nonempty_attrs(req@.skip(req@.len() as int)) =~= r@);
        assert(r@ =~= spec_apply_attr_mods(cur@, req@));
    }
    r
}

/// A lookup scans the first list of a concatenation before the second.
pub proof fn lemma_attr_lookup_concat(a: Seq<(String, String)>, b: Seq<(String, String)>, k: Seq<char>)
    ensures
        spec_attr_lookup(a + b, k) == (if spec_attr_lookup(a, k) is Some {
            spec_attr_lookup(a, k)
        } else {
            spec_attr_lookup(b, k)
        }),
    decreases a.len(),
{
    if a.len() == 0 {
        assert(a + b =~= b);
    } else {
        lemma_attr_lookup_concat(a.drop_first(), b, k);
        assert((a + b).drop_first() =~= a.drop_first() + b);
        assert((a + b)[0] == a[0]);
    }
}

/// Untouched entries answer a lookup as before, and only for keys the
/// request does not name.
pub proof fn lemma_lookup_without_keys(
    cur: Seq<(String, String)>,
    req: Seq<(String, String)>,
    k: Seq<char>,
)
    ensures
        spec_attr_lookup(spec_attrs_without_keys(cur, req), k) == (if spec_attr_lookup(
            req,
            k,
        ) is Some {
            None::<Seq<char>>
        } else {
            spec_attr_lookup(cur, k)
        }),
    decreases cur.len(),
{
    if cur.len() > 0 {
        lemma_lookup_without_keys(cur.drop_first(), req, k);
        if spec_attr_lookup(req, cur[0].0@) is Some {
            assert(spec_attrs_without_keys(cur, req) == spec_attrs_without_keys(
                cur.drop_first(),
                req,
            ));
            if cur[0].0@ == k {
                assert(spec_attr_lookup(req, k) is Some);
            } else {
                assert(spec_attr_lookup(cur, k) == spec_attr_lookup(cur.drop_first(), k));
            }
        } else {
            lemma_attr_lookup_concat(seq![cur[0]], spec_attrs_without_keys(cur.drop_first(), req), k);
            assert(seq![cur[0]].drop_first() =~= Seq::<(String, String)>::empty());
            assert(seq![cur[0]].len() == 1 && seq![cur[0]][0] == cur[0]);
            reveal_with_fuel(spec_attr_lookup, 3);
            if cur[0].0@ == k {
                assert(spec_attr_lookup(seq![cur[0]], k) == Some(cur[0].1@));
                assert(spec_attr_lookup(cur, k) == Some(cur[0].1@));
            } else {
                assert(spec_attr_lookup(seq![cur[0]], k) is None);
                assert(spec_attr_lookup(cur, k) == spec_attr_lookup(cur.drop_first(), k));
            }
        }
    }
}

/// The stored request values answer a lookup with the requested value, or
/// with nothing where the request asked for a removal; the keys of the
/// request must be distinct.
pub proof fn lemma_lookup_nonempty_attrs(req: Seq<(String, String)>, k: Seq<char>)
    requires
        forall|i: int, j: int| 0 <= i < j < req.len() ==> (#[trigger] req[i]).0@ != (
        #[trigger] req[j]).0@,
    ensures
        spec_attr_lookup(spec_nonempty_attrs(req), k) == (match spec_attr_lookup(req, k) {
            Some(v) => if v.len() == 0 {
                None
            } else {
                Some(v)
            },
            None => None::<Seq<char>>,
        }),
    decreases req.len(),
{
    if req.len() > 0 {
        assert forall|i: int, j: int|
            0 <= i < j < req.drop_first().len() implies (#[trigger] req.drop_first()[i]).0@ != (
        #[trigger] req.drop_first()[j]).0@ by {
            assert(req[i + 1].0@ != req[j + 1].0@);
        }
        lemma_lookup_nonempty_attrs(req.drop_first(), k);
        if req[0].1@.len() == 0 {
            if req[0].0@ == k {
                // a removed key occurs nowhere later in the request
                assert(spec_attr_lookup(req.drop_first(), k) is None) by {
                    lemma_lookup_found_index(req.drop_first(), k);
                    if exists|i: int|
                        0 <= i < req.drop_first().len() && (#[trigger] req.drop_first()[i]).0@
                            == k {
                        let i = choose|i: int|
                            0 <= i < req.drop_first().len() && (#[trigger] req.drop_first()[i]).0@
                                == k;
                        assert(req[0].0@ != req[i + 1].0@);
                    }
                }
            } else {
                assert(spec_attr_lookup(req, k) == spec_attr_lookup(req.drop_first(), k));
            }
        } else {
            lemma_attr_lookup_concat(seq![req[0]], spec_nonempty_attrs(req.drop_first()), k);
            assert(seq![req[0]].drop_first() =~= Seq::<(String, String)>::empty());
            assert(seq![req[0]].len() == 1 && seq![req[0]][0] == req[0]);
            reveal_with_fuel(spec_attr_lookup, 3);
            if req[0].0@ == k {
                assert(spec_attr_lookup(seq![req[0]], k) == Some(req[0].1@));
            } else {
                assert(spec_attr_lookup(seq![req[0]], k) is None);
                assert(spec_attr_lookup(req, k) == spec_attr_lookup(req.drop_first(), k));
            }
        }
    }
}

/// A successful lookup names a key that occurs in the list.
pub proof fn lemma_lookup_found_index(l: Seq<(String, String)>, k: Seq<char>)
    ensures
        spec_attr_lookup(l, k) is Some ==> exists|i: int|
            0 <= i < l.len() && (#[trigger] l[i]).0@ == k,
        (exists|i: int| 0 <= i < l.len() && (#[trigger] l[i]).0@ == k) ==> spec_attr_lookup(
            l,
            k,
        ) is Some,
    decreases l.len(),
{
    if l.len() > 0 {
        lemma_lookup_found_index(l.drop_first(), k);
        if l[0].0@ == k {
            assert(l[0].0@ == k);
        } else {
            if spec_attr_lookup(l.drop_first(), k) is Some {
                let i = choose|i: int|
                    0 <= i < l.drop_first().len() && (#[trigger] l.drop_first()[i]).0@ == k;
                assert(l[i + 1].0@ == k);
            }
            if exists|i: int| 0 <= i < l.len() && (#[trigger] l[i]).0@ == k {
                let i = choose|i: int| 0 <= i < l.len() && (#[trigger] l[i]).0@ == k;
                assert(l.drop_first()[i - 1].0@ == k);
            }
        }
    }
}

/// What a lookup answers after an attribute modification request: the
/// requested value for a named key — nothing for a requested removal — and
/// the previous answer for every other key.
pub proof fn lemma_apply_attr_mods_lookup(
    cur: Seq<(String, String)>,
    req: Seq<(String, String)>,
    k: Seq<char>,
)
    requires
        forall|i: int, j: int| 0 <= i < j < req.len() ==> (#[trigger] req[i]).0@ != (
        #[trigger] req[j]).0@,
    ensures
        spec_attr_lookup(spec_apply_attr_mods(cur, req), k) == (match spec_attr_lookup(req, k) {
            Some(v) => if v.len() == 0 {
                None
            } else {
                Some(v)
            },
            None => spec_attr_lookup(cur, k),
        }),
{
    lemma_attr_lookup_concat(spec_attrs_without_keys(cur, req), spec_nonempty_attrs(req), k);
    lemma_lookup_without_keys(cur, req, k);
    lemma_lookup_nonempty_attrs(req, k);
}

/// Replace the attributes of one entry, leaving everything else as it
/// stands.
fn set_attrs(dir: &mut Directory, idx: usize, attrs: MonoAttrs)
    requires
        idx < old(dir).entries@.len(),
    ensures
        final(dir).entries@.len() == old(dir).entries@.len(),
        forall|i: int|
            0 <= i < final(dir).entries@.len() && i != idx ==> final(dir).entries@[i] == old(
                dir,
            ).entries@[i],
        final(dir).entries@[idx as int].id == old(dir).entries@[idx as int].id,
        final(dir).entries@[idx as int].attrs == attrs,
        final(dir).entries@[idx as int].direct == old(dir).entries@[idx as int].direct,
        final(dir).entries@[idx as int].flattened == old(dir).entries@[idx as int].flattened,
{
    let entry = &mut dir.entries[idx];
    entry.attrs = attrs;
}

/// Modify the attributes of a group or stem: validate the identifier and
/// the attribute vocabulary, demand the administrator right on the entry or
/// on some ancestor, then store the requested values — an empty value
/// removes its attribute, every unnamed attribute stands unchanged.
#[verifier::loop_isolation(false)]
pub fn modify_sgroup_attrs(
    dir: &mut Directory,
    cfg: &LdapConfig,
    user: &LoggedUser,
    id: &str,
    attrs: &MonoAttrs,
) -> (r: Result<(), MyErr>)
    requires
        old(dir).wf(),
        cfg.wf(),
    ensures
        final(dir).wf(),
        ({
            let valid = valid_sgroup_id(id@);
            let attrs_ok = forall|i: int|
                0 <= i < attrs@.len() ==> cfg.spec_is_sgroup_attr(#[trigger] attrs@[i].0@);
            let auth = match user {
                LoggedUser::TrustedAdmin => true,
                LoggedUser::User(u) => spec_granted_on_self_or_parents(
                    old(dir),
                    spec_user_urls(old(dir), cfg, u@),
                    id@,
                    Right::Admin,
                ),
            };
            let found = spec_find_entry(old(dir).entries@, id@);
            match r {
                Ok(_) => {
                    &&& valid && attrs_ok && auth && (found is Some)
                    &&& final(dir).entries@.len() == old(dir).entries@.len()
                    &&& (forall|i: int|
                        0 <= i < final(dir).entries@.len() && i != found->0
                            ==> #[trigger] final(dir).entries@[i] == old(dir).entries@[i])
                    &&& final(dir).entries@[found->0].id == old(dir).entries@[found->0].id
                    &&& final(dir).entries@[found->0].direct == old(dir).entries@[found->0].direct
                    &&& final(dir).entries@[found->0].flattened == old(
                        dir,
                    ).entries@[found->0].flattened
                    &&& final(dir).entries@[found->0].attrs@ == spec_apply_attr_mods(
                        old(dir).entries@[found->0].attrs@,
                        attrs@,
                    )
                },
                Err(e) => {
                    &&& final(dir).entries@ == old(dir).entries@
                    &&& (e is InvalidId ==> !valid)
                    &&& (e is InvalidAttrs ==> valid && !attrs_ok)
                    &&& (e is Forbidden ==> valid && attrs_ok && !auth)
                    &&& (e is NotFound ==> valid && attrs_ok && auth && (found is None))
                    &&& (e is InvalidId || e is InvalidAttrs || e is Forbidden || e is NotFound)
                },
            }
        }),
{
    if let Err(e) = cfg.stem.validate_sgroup_id(id) {
        return Err(e);
    }
    if let Err(e) = cfg.validate_sgroups_attrs(attrs) {
        return Err(e);
    }
    if let Err(e) = check_right_on_self_or_any_parents(dir, cfg, user, id, Right::Admin) {
        return Err(e);
    }
    match dir.find_entry(id) {
        Some(idx) => {
            proof {
                lemma_find_entry(dir.entries@, id@);
            }
            let new_attrs = apply_attr_mods(&dir.entries[idx].attrs, attrs);
            set_attrs(dir, idx, new_attrs);
            proof {
                crate::directory::lemma_has_entry_same_ids(old(dir).entries@, dir.entries@);
                assert forall|i: int, k: int|
                    0 <= i < dir.entries@.len() && 0 <= k < spec_parent_stems(
                        dir.entries@[i].id@,
                    ).len() implies spec_has_entry(
                    dir.entries@,
                    #[trigger] spec_parent_stems((#[trigger] dir.entries@[i]).id@)[k],
                ) by {
                    assert(dir.entries@[i].id@ == old(dir).entries@[i].id@);
                    assert(spec_has_entry(
                        old(dir).entries@,
                        spec_parent_stems(old(dir).entries@[i].id@)[k],
                    ));
                }
            }
            Ok(())
        }
        None => {
            let mut msg = String::new();
            msg.append("sgroup ");
            msg.append(id);
            msg.append(" does not exist");
            Err(MyErr::NotFound(msg))
        }
    }
}

} // verus!
