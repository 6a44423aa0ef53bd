use vstd::prelude::*;
use vstd::string::StrSliceExecFns;

use crate::config::{spec_sgroup_id_to_dn, LdapConfig};
use crate::directory::{
    lemma_sgroup_dn_injective, spec_closure_rhs, spec_flat_member_of, Directory,
};
use crate::helpers::str_eq;
use crate::mods::{contains_dn_vec, diff_dn_vec, dn_set, dns_of, spec_diff_dn_vec};
use crate::naming::spec_is_stem;
use crate::types::{DirectOptions, Dn, Mright};

verus! {

/// The outcome of one recomputation: whether the stored flattened set had
/// to change.
pub enum UpResult {
    Modified,
    Unchanged,
}

/// The set holding exactly the sentinel empty value.
pub open spec fn sentinel_set() -> Set<Seq<char>> {
    Set::new(|d: Seq<char>| d == Seq::<char>::empty())
}

/// The position of the entry this DN names, if any.
pub fn find_entry_by_dn(dir: &Directory, cfg: &LdapConfig, dn: &Dn) -> (r: Option<usize>)
    requires
        cfg.wf(),
    ensures
        match r {
            Some(i) => 0 <= i < dir.entries@.len() && spec_sgroup_id_to_dn(
                cfg.groups_dn@,
                dir.entries@[i as int].id@,
            ) == dn@,
            None => forall|i: int|
                0 <= i < dir.entries@.len() ==> spec_sgroup_id_to_dn(
                    cfg.groups_dn@,
                    (#[trigger] dir.entries@[i]).id@,
                ) != dn@,
        },
{
    let mut k: usize = 0;
    while k < dir.entries.len()
        invariant
            cfg.wf(),
            k <= dir.entries@.len(),
            forall|i: int|
                0 <= i < k ==> spec_sgroup_id_to_dn(
                    cfg.groups_dn@,
                    (#[trigger] dir.entries@[i]).id@,
                ) != dn@,
        decreases dir.entries@.len() - k,
    {
        let entry_dn = cfg.sgroup_id_to_dn(dir.entries[k].id.as_str());
        if str_eq(entry_dn.0.as_str(), dn.0.as_str()) {
            return Some(k);
        }
        k += 1;
    }
    None
}

/// With unique identifiers, the flattened members a DN reaches are exactly
/// those of the one entry the DN names.
pub proof fn lemma_flat_member_of_entry(dir: &Directory, cfg: &LdapConfig, dn: Seq<char>, i: int)
    requires
        dir.wf(),
        0 <= i < dir.entries@.len(),
        spec_sgroup_id_to_dn(cfg.groups_dn@, dir.entries@[i].id@) == dn,
    ensures
        spec_flat_member_of(dir, cfg, dn) == dn_set(
            dir.entries@[i].flattened.spec_get(Mright::Member),
        ),
{
    let lhs = spec_flat_member_of(dir, cfg, dn);
    let rhs = dn_set(dir.entries@[i].flattened.spec_get(Mright::Member));
    assert forall|d: Seq<char>| lhs.contains(d) implies rhs.contains(d) by {
        let j = choose|j: int|
            0 <= j < dir.entries@.len() && spec_sgroup_id_to_dn(
                cfg.groups_dn@,
                (#[trigger] dir.entries@[j]).id@,
            ) == dn && dn_set(dir.entries@[j].flattened.spec_get(Mright::Member)).contains(d);
        lemma_sgroup_dn_injective(cfg.groups_dn@, dir.entries@[j].id@, dir.entries@[i].id@);
        if j != i {
            assert(dir.entries@[j].id@ != dir.entries@[i].id@);
        }
    }
    assert forall|d: Seq<char>| rhs.contains(d) implies lhs.contains(d) by {
        assert(spec_sgroup_id_to_dn(cfg.groups_dn@, dir.entries@[i].id@) == dn && dn_set(
            dir.entries@[i].flattened.spec_get(Mright::Member),
        ).contains(d));
    }
    assert(lhs =~= rhs);
}

/// A DN naming no entry reaches no flattened member.
pub proof fn lemma_flat_member_of_none(dir: &Directory, cfg: &LdapConfig, dn: Seq<char>)
    requires
        forall|i: int|
            0 <= i < dir.entries@.len() ==> spec_sgroup_id_to_dn(
                cfg.groups_dn@,
                (#[trigger] dir.entries@[i]).id@,
            ) != dn,
    ensures
        spec_flat_member_of(dir, cfg, dn) == Set::<Seq<char>>::empty(),
{
    assert(spec_flat_member_of(dir, cfg, dn) =~= Set::<Seq<char>>::empty());
}

/// Appending one relation extends the DN set by its DN.
pub proof fn lemma_dns_of_push(t: Seq<(Dn, DirectOptions)>, x: (Dn, DirectOptions))
    ensures
        dns_of(t.push(x)) == dns_of(t).insert(x.0@),
{
    assert forall|d: Seq<char>| dns_of(t.push(x)).contains(d) implies dns_of(t).insert(
        x.0@,
    ).contains(d) by {
        let i = choose|i: int| 0 <= i < t.push(x).len() && #[trigger] t.push(x)[i].0@ == d;
        if i < t.len() {
            assert(t[i].0@ == d);
        }
    }
    assert forall|d: Seq<char>| dns_of(t).insert(x.0@).contains(d) implies dns_of(
        t.push(x),
    ).contains(d) by {
        if dns_of(t).contains(d) {
            let i = choose|i: int| 0 <= i < t.len() && #[trigger] t[i].0@ == d;
            assert(t.push(x)[i].0@ == d);
        } else {
            assert(t.push(x)[t.len() as int].0@ == d);
        }
    }
    assert(dns_of(t.push(x)) =~= dns_of(t).insert(x.0@));
}

/// Appending one DN extends the DN set by it.
pub proof fn lemma_dn_set_push(t: Seq<Dn>, x: Dn)
    ensures
        dn_set(t.push(x)) == dn_set(t).insert(x@),
{
    assert forall|d: Seq<char>| dn_set(t.push(x)).contains(d) implies dn_set(t).insert(
        x@,
    ).contains(d) by {
        let i = choose|i: int| 0 <= i < t.push(x).len() && #[trigger] t.push(x)[i]@ == d;
        if i < t.len() {
            assert(t[i]@ == d);
        }
    }
    assert forall|d: Seq<char>| dn_set(t).insert(x@).contains(d) implies dn_set(
        t.push(x),
    ).contains(d) by {
        if dn_set(t).contains(d) {
            let i = choose|i: int| 0 <= i < t.len() && #[trigger] t[i]@ == d;
            assert(t.push(x)[i]@ == d);
        } else {
            assert(t.push(x)[t.len() as int]@ == d);
        }
    }
    assert(dn_set(t.push(x)) =~= dn_set(t).insert(x@));
}

/// The DN set of a list with its last element set apart.
pub proof fn lemma_dn_set_drop_last(t: Seq<Dn>)
    requires
        t.len() > 0,
    ensures
        dn_set(t) == dn_set(t.drop_last()).insert(t.last()@),
{
    assert(t.drop_last().push(t.last()) =~= t);
    lemma_dn_set_push(t.drop_last(), t.last());
}

/// A difference of DN lists is empty exactly when the first is contained in
/// the second.
pub proof fn lemma_diff_empty(a: Seq<Dn>, b: Seq<Dn>)
    ensures
        spec_diff_dn_vec(a, b).len() == 0 <==> dn_set(a).subset_of(dn_set(b)),
    decreases a.len(),
{
    if a.len() == 0 {
        assert forall|d: Seq<char>| dn_set(a).contains(d) implies dn_set(b).contains(d) by {
            let i = choose|i: int| 0 <= i < a.len() && #[trigger] a[i]@ == d;
        }
    } else {
        lemma_diff_empty(a.drop_last(), b);
        lemma_dn_set_drop_last(a);
        if !dn_set(b).contains(a.last()@) {
            assert(spec_diff_dn_vec(a, b).len() > 0);
            assert(dn_set(a).contains(a.last()@));
        } else {
            assert(spec_diff_dn_vec(a, b) == spec_diff_dn_vec(a.drop_last(), b));
            if dn_set(a.drop_last()).subset_of(dn_set(b)) {
                assert forall|d: Seq<char>| dn_set(a).contains(d) implies dn_set(b).contains(
                    d,
                ) by {
                    assert(dn_set(a.drop_last()).insert(a.last()@).contains(d));
                }
            }
        }
    }
}

/// One step of the closure: appending one direct relation extends the
/// closure by its DN and by the flattened members it reaches.
pub proof fn lemma_closure_step(
    dir: &Directory,
    cfg: &LdapConfig,
    t: Seq<(Dn, DirectOptions)>,
    x: (Dn, DirectOptions),
)
    ensures
        spec_closure_rhs(dir, cfg, t.push(x)) == spec_closure_rhs(dir, cfg, t).insert(x.0@).union(
            spec_flat_member_of(dir, cfg, x.0@),
        ),
{
    lemma_dns_of_push(t, x);
    let lhs = spec_closure_rhs(dir, cfg, t.push(x));
    let rhs = spec_closure_rhs(dir, cfg, t).insert(x.0@).union(spec_flat_member_of(dir, cfg, x.0@));
    assert forall|d: Seq<char>| lhs.contains(d) implies rhs.contains(d) by {
        if dns_of(t.push(x)).contains(d) {
            if dns_of(t).contains(d) {
                assert(spec_closure_rhs(dir, cfg, t).contains(d));
            }
        } else {
            let h = choose|h: Seq<char>|
                #[trigger] dns_of(t.push(x)).contains(h) && spec_flat_member_of(
                    dir,
                    cfg,
                    h,
                ).contains(d);
            if h == x.0@ {
            } else {
                assert(dns_of(t).contains(h));
                assert(spec_closure_rhs(dir, cfg, t).contains(d));
            }
        }
    }
    assert forall|d: Seq<char>| rhs.contains(d) implies lhs.contains(d) by {
        if d == x.0@ {
            assert(dns_of(t.push(x)).contains(d));
        } else if spec_flat_member_of(dir, cfg, x.0@).contains(d) {
            assert(dns_of(t.push(x)).contains(x.0@));
        } else {
            assert(spec_closure_rhs(dir, cfg, t).contains(d));
            if dns_of(t).contains(d) {
                assert(dns_of(t.push(x)).contains(d));
            } else {
                let h = choose|h: Seq<char>|
                    #[trigger] dns_of(t).contains(h) && spec_flat_member_of(dir, cfg, h).contains(
                        d,
                    );
                assert(dns_of(t.push(x)).contains(h));
            }
        }
    }
    assert(lhs =~= rhs);
}

/// Replace the flattened set of one role of one entry, leaving everything
/// else as it stands.
fn set_flattened(dir: &mut Directory, idx: usize, m: Mright, v: Vec<Dn>)
    requires
        idx < old(dir).entries@.len(),
    ensures
        final(dir).entries@.len() == old(dir).entries@.len(),
        forall|i: int|
            0 <= i < final(dir).entries@.len() && i != idx ==> final(dir).entries@[i] == old(
                dir,
            ).entries@[i],
        final(dir).entries@[idx as int].id == old(dir).entries@[idx as int].id,
        final(dir).entries@[idx as int].attrs == old(dir).entries@[idx as int].attrs,
        final(dir).entries@[idx as int].direct == old(dir).entries@[idx as int].direct,
        final(dir).entries@[idx as int].flattened.spec_get(m) == v@,
        forall|m2: Mright|
            m2 != m ==> final(dir).entries@[idx as int].flattened.spec_get(m2) == old(
                dir,
            ).entries@[idx as int].flattened.spec_get(m2),
    {
    let entry = &mut dir.entries[idx];
    entry.flattened.set(m, v);
}

/// Recompute the flattened set of one role of one entry from the direct
/// state: the new stored set satisfies the closure equation — it holds the
/// direct DNs of the role together with the flattened members of every
/// group among them — except that a group whose member closure comes out
/// empty stores the single sentinel empty value instead; and the equation
/// still reads true over the state left behind. Nothing else of the
/// directory moves, and `Unchanged` is reported exactly when the stored set
/// already held the right value, in which case the directory is left
/// untouched.
pub fn recompute_flattened(dir: &mut Directory, cfg: &LdapConfig, idx: usize, mright: Mright) -> (r:
    UpResult)
    requires
        old(dir).wf(),
        cfg.wf(),
        idx < old(dir).entries@.len(),
        !(spec_is_stem(old(dir).entries@[idx as int].id@) && mright == Mright::Member),
    ensures
        final(dir).wf(),
        final(dir).entries@.len() == old(dir).entries@.len(),
        forall|i: int|
            0 <= i < final(dir).entries@.len() && i != idx ==> final(dir).entries@[i] == old(
                dir,
            ).entries@[i],
        final(dir).entries@[idx as int].id == old(dir).entries@[idx as int].id,
        final(dir).entries@[idx as int].attrs == old(dir).entries@[idx as int].attrs,
        final(dir).entries@[idx as int].direct == old(dir).entries@[idx as int].direct,
        forall|m2: Mright|
            m2 != mright ==> final(dir).entries@[idx as int].flattened.spec_get(m2) == old(
                dir,
            ).entries@[idx as int].flattened.spec_get(m2),
        dn_set(final(dir).entries@[idx as int].flattened.spec_get(mright)) == spec_closure_target(
            old(dir),
            cfg,
            old(dir).entries@[idx as int].direct.spec_get(mright),
            mright,
        ),
        spec_flattened_equation(final(dir), cfg, idx as int, mright),
        r is Unchanged <==> dn_set(old(dir).entries@[idx as int].flattened.spec_get(mright))
            == spec_closure_target(
            old(dir),
            cfg,
            old(dir).entries@[idx as int].direct.spec_get(mright),
            mright,
        ),
        r is Unchanged ==> final(dir).entries@ == old(dir).entries@,
    {
    let entry_direct = crate::mods::clone_dns_opts(dir.entries[idx].direct.get(mright));
    let ghost direct_view = old(dir).entries@[idx as int].direct.spec_get(mright);
    let mut newflat: Vec<Dn> = Vec::new();
    let mut k: usize = 0;
    proof {
        assert(direct_view.take(0) =~= Seq::<(Dn, DirectOptions)>::empty());
        assert(dn_set(newflat@) =~= spec_closure_rhs(dir, cfg, direct_view.take(0)));
    }
    while k < entry_direct.len()
        invariant
            dir.wf(),
            cfg.wf(),
            dir == old(dir),
            idx < dir.entries@.len(),
            entry_direct@ == direct_view,
            k <= direct_view.len(),
            forall|i: int, j: int| 0 <= i < j < newflat@.len() ==> newflat@[i]@ != newflat@[j]@,
            dn_set(newflat@) == spec_closure_rhs(dir, cfg, direct_view.take(k as int)),
        decreases direct_view.len() - k,
    {
        proof {
            assert(direct_view.take(k as int).push(direct_view[k as int]) =~= direct_view.take(
                k + 1,
            ));
            lemma_closure_step(dir, cfg, direct_view.take(k as int), direct_view[k as int]);
        }
        let dn = &entry_direct[k].0;
        if !contains_dn_vec(&newflat, dn) {
            let copy = Dn(dn.0.clone());
            proof {
                lemma_dn_set_push(newflat@, copy);
            }
            newflat.push(copy);
        }
        proof {
            assert(dn_set(newflat@) == spec_closure_rhs(dir, cfg, direct_view.take(k as int)).insert(
                direct_view[k as int].0@,
            )) by {
                assert(dn_set(newflat@) =~= spec_closure_rhs(
                    dir,
                    cfg,
                    direct_view.take(k as int),
                ).insert(direct_view[k as int].0@));
            }
        }
        match find_entry_by_dn(dir, cfg, dn) {
            Some(gi) => {
                proof {
                    lemma_flat_member_of_entry(dir, cfg, dn@, gi as int);
                }
                let glen = dir.entries[gi].flattened.get(Mright::Member).len();
                let ghost gflat = dir.entries@[gi as int].flattened.spec_get(Mright::Member);
                let mut j: usize = 0;
                proof {
                    assert(gflat.take(0) =~= Seq::<Dn>::empty());
                    assert(dn_set(gflat.take(0)) =~= Set::<Seq<char>>::empty());
                }
                while j < glen
                    invariant
                        dir.wf(),
                        cfg.wf(),
                        dir == old(dir),
                        idx < dir.entries@.len(),
                        gi < dir.entries@.len(),
                        gflat == dir.entries@[gi as int].flattened.spec_get(Mright::Member),
                        glen == gflat.len(),
                        j <= glen,
                        k < direct_view.len(),
                        forall|i2: int, j2: int|
                            0 <= i2 < j2 < newflat@.len() ==> newflat@[i2]@ != newflat@[j2]@,
                        dn_set(newflat@) == spec_closure_rhs(
                            dir,
                            cfg,
                            direct_view.take(k as int),
                        ).insert(direct_view[k as int].0@).union(dn_set(gflat.take(j as int))),
                    decreases glen - j,
                {
                    proof {
                        assert(gflat.take(j as int).push(gflat[j as int]) =~= gflat.take(j + 1));
                        lemma_dn_set_push(gflat.take(j as int), gflat[j as int]);
                    }
                    let d = &dir.entries[gi].flattened.get(Mright::Member)[j];
                    if !contains_dn_vec(&newflat, d) {
                        let copy = Dn(d.0.clone());
                        proof {
                            lemma_dn_set_push(newflat@, copy);
                        }
                        newflat.push(copy);
                    }
                    proof {
                        assert(dn_set(newflat@) =~= spec_closure_rhs(
                            dir,
                            cfg,
                            direct_view.take(k as int),
                        ).insert(direct_view[k as int].0@).union(dn_set(gflat.take(j + 1))));
                    }
                    j += 1;
                }
                proof {
                    assert(gflat.take(glen as int) =~= gflat);
                    assert(dn_set(newflat@) =~= spec_closure_rhs(dir, cfg, direct_view.take(k + 1)));
                }
            }
            None => {
                proof {
                    lemma_flat_member_of_none(dir, cfg, dn@);
                    assert(dn_set(newflat@) =~= spec_closure_rhs(dir, cfg, direct_view.take(k + 1)));
                }
            }
        }
        k += 1;
    }
    proof {
        assert(direct_view.take(direct_view.len() as int) =~= direct_view);
    }
    // a group whose member closure is empty stores the sentinel empty value
    if matches!(mright, Mright::Member) && newflat.len() == 0 {
        proof {
            assert(dn_set(newflat@).is_empty()) by {
                if exists|d: Seq<char>| dn_set(newflat@).contains(d) {
                    let d = choose|d: Seq<char>| dn_set(newflat@).contains(d);
                    let i = choose|i: int| 0 <= i < newflat@.len() && #[trigger] newflat@[i]@ == d;
                }
            }
        }
        let sentinel = Dn(String::new());
        proof {
            lemma_dn_set_push(newflat@, sentinel);
        }
        newflat.push(sentinel);
        proof {
            assert(dn_set(newflat@) =~= sentinel_set());
        }
    } else {
        proof {
            if dn_set(newflat@).is_empty() && newflat@.len() > 0 {
                assert(dn_set(newflat@).contains(newflat@[0]@));
            }
        }
    }
    proof {
        assert(dn_set(newflat@) == spec_closure_target(dir, cfg, direct_view, mright));
    }
    let current = dir.entries[idx].flattened.get(mright);
    let to_add = diff_dn_vec(&newflat, current);
    let to_remove = diff_dn_vec(current, &newflat);
    proof {
        lemma_diff_empty(newflat@, current@);
        lemma_diff_empty(current@, newflat@);
    }
    if to_add.len() == 0 && to_remove.len() == 0 {
        proof {
            assert(dn_set(dir.entries@[idx as int].flattened.spec_get(mright)) =~= dn_set(
                newflat@,
            ));
        }
        UpResult::Unchanged
    } else {
        proof {
            // the stored set differed from the target
            if dn_set(dir.entries@[idx as int].flattened.spec_get(mright)) == dn_set(newflat@) {
                assert(dn_set(newflat@).subset_of(dn_set(current@)));
                assert(dn_set(current@).subset_of(dn_set(newflat@)));
            }
        }
        set_flattened(dir, idx, mright, newflat);
        proof {
            crate::directory::lemma_has_entry_same_ids(old(dir).entries@, dir.entries@);
            assert(dir.wf()) by {
                assert forall|i: int, k: int|
                    0 <= i < dir.entries@.len() && 0 <= k < crate::naming::spec_parent_stems(
                        dir.entries@[i].id@,
                    ).len() implies crate::directory::spec_has_entry(
                    dir.entries@,
                    #[trigger] crate::naming::spec_parent_stems(
                        (#[trigger] dir.entries@[i]).id@,
                    )[k],
                ) by {
                    assert(dir.entries@[i].id@ == old(dir).entries@[i].id@);
                    assert(crate::directory::spec_has_entry(
                        old(dir).entries@,
                        crate::naming::spec_parent_stems(old(dir).entries@[i].id@)[k],
                    ));
                }
            }
            // the closure equation also reads true over the new state
            assert forall|i: int|
                0 <= i < old(dir).entries@.len() implies (#[trigger] dir.entries@[i]).id@ == (
            #[trigger] old(dir).entries@[i]).id@ by {}
            let direct = old(dir).entries@[idx as int].direct.spec_get(mright);
            if mright == Mright::Member {
                lemma_member_update_keeps_closure(*old(dir), *dir, cfg, idx as int);
                assert(spec_closure_rhs(dir, cfg, direct) == spec_closure_rhs(
                    old(dir),
                    cfg,
                    direct,
                ));
            } else {
                assert forall|i: int|
                    0 <= i < old(dir).entries@.len() implies (
                #[trigger] dir.entries@[i]).flattened.spec_get(Mright::Member) == (
                #[trigger] old(dir).entries@[i]).flattened.spec_get(Mright::Member) by {
                    if i == idx {
                        assert(dir.entries@[idx as int].flattened.spec_get(Mright::Member) == old(
                            dir,
                        ).entries@[idx as int].flattened.spec_get(Mright::Member));
                    }
                }
                assert forall|h: Seq<char>|
                    dns_of(direct).contains(h) implies spec_flat_member_of(dir, cfg, h)
                    == spec_flat_member_of(old(dir), cfg, h) by {
                    lemma_flat_member_same(*old(dir), *dir, cfg, h);
                }
                lemma_closure_same_reach(*old(dir), *dir, cfg, direct);
            }
            assert(dir.entries@[idx as int].direct.spec_get(mright) == direct);
            assert(spec_flattened_equation(dir, cfg, idx as int, mright));
        }
        UpResult::Modified
    }
}


/// The set a flattened role must store: the closure of the direct set, or
/// the sentinel where a group's member closure comes out empty.
pub open spec fn spec_closure_target(
    dir: &Directory,
    cfg: &LdapConfig,
    direct: Seq<(Dn, DirectOptions)>,
    m: Mright,
) -> Set<Seq<char>> {
    let closure = spec_closure_rhs(dir, cfg, direct);
    if m == Mright::Member && closure.is_empty() {
        sentinel_set()
    } else {
        closure
    }
}

/// The closure equation of one entry and role, read over one state: the
/// stored flattened set holds exactly the closure of the direct set, with
/// the sentinel rule for an empty member closure.
pub open spec fn spec_flattened_equation(dir: &Directory, cfg: &LdapConfig, i: int, m: Mright) -> bool {
    dn_set(dir.entries@[i].flattened.spec_get(m)) == spec_closure_target(
        dir,
        cfg,
        dir.entries@[i].direct.spec_get(m),
        m,
    )
}

/// A flattening work pair is settled: the identifier names no entry, or it
/// names a stem's member set (which the engine never touches), or its
/// closure equation holds.
pub open spec fn spec_pair_settled(dir: &Directory, cfg: &LdapConfig, id: Seq<char>, m: Mright) -> bool {
    match crate::directory::spec_find_entry(dir.entries@, id) {
        Some(i) => (spec_is_stem(id) && m == Mright::Member) || spec_flattened_equation(
            dir,
            cfg,
            i,
            m,
        ),
        None => true,
    }
}

/// Which entry an identifier names depends on the identifiers alone.
pub proof fn lemma_find_entry_same_ids(s1: Seq<crate::directory::SgroupEntry>, s2: Seq<crate::directory::SgroupEntry>, id: Seq<char>)
    requires
        s1.len() == s2.len(),
        forall|i: int| 0 <= i < s1.len() ==> (#[trigger] s1[i]).id@ == (#[trigger] s2[i]).id@,
    ensures
        crate::directory::spec_find_entry(s1, id) == crate::directory::spec_find_entry(s2, id),
    decreases s1.len(),
{
    if s1.len() > 0 {
        assert forall|i: int|
            0 <= i < s1.drop_first().len() implies (#[trigger] s1.drop_first()[i]).id@ == (
        #[trigger] s2.drop_first()[i]).id@ by {
            assert(s1[i + 1].id@ == s2[i + 1].id@);
        }
        lemma_find_entry_same_ids(s1.drop_first(), s2.drop_first(), id);
    }
}

/// What a DN reaches is the same in two states with the same identifiers
/// and the same flattened member sets.
pub proof fn lemma_flat_member_same(pre: Directory, post: Directory, cfg: &LdapConfig, dn: Seq<char>)
    requires
        pre.entries@.len() == post.entries@.len(),
        forall|i: int|
            0 <= i < pre.entries@.len() ==> (#[trigger] post.entries@[i]).id@ == (
            #[trigger] pre.entries@[i]).id@,
        forall|i: int|
            0 <= i < pre.entries@.len() ==> (#[trigger] post.entries@[i]).flattened.spec_get(
                Mright::Member,
            ) == (#[trigger] pre.entries@[i]).flattened.spec_get(Mright::Member),
    ensures
        spec_flat_member_of(&post, cfg, dn) == spec_flat_member_of(&pre, cfg, dn),
{
    assert forall|d: Seq<char>|
        spec_flat_member_of(&post, cfg, dn).contains(d) implies spec_flat_member_of(
        &pre,
        cfg,
        dn,
    ).contains(d) by {
        let i = choose|i: int|
            0 <= i < post.entries@.len() && spec_sgroup_id_to_dn(
                cfg.groups_dn@,
                (#[trigger] post.entries@[i]).id@,
            ) == dn && dn_set(post.entries@[i].flattened.spec_get(Mright::Member)).contains(d);
        assert(spec_sgroup_id_to_dn(cfg.groups_dn@, pre.entries@[i].id@) == dn && dn_set(
            pre.entries@[i].flattened.spec_get(Mright::Member),
        ).contains(d));
    }
    assert forall|d: Seq<char>|
        spec_flat_member_of(&pre, cfg, dn).contains(d) implies spec_flat_member_of(
        &post,
        cfg,
        dn,
    ).contains(d) by {
        let i = choose|i: int|
            0 <= i < pre.entries@.len() && spec_sgroup_id_to_dn(
                cfg.groups_dn@,
                (#[trigger] pre.entries@[i]).id@,
            ) == dn && dn_set(pre.entries@[i].flattened.spec_get(Mright::Member)).contains(d);
        assert(spec_sgroup_id_to_dn(cfg.groups_dn@, post.entries@[i].id@) == dn && dn_set(
            post.entries@[i].flattened.spec_get(Mright::Member),
        ).contains(d));
    }
    assert(spec_flat_member_of(&post, cfg, dn) =~= spec_flat_member_of(&pre, cfg, dn));
}

/// After one entry's flattened member set moved, a DN reaches the entry's
/// new set where it names that entry, and what it reached before anywhere
/// else.
pub proof fn lemma_flat_member_update(
    pre: Directory,
    post: Directory,
    cfg: &LdapConfig,
    idx: int,
    dn: Seq<char>,
)
    requires
        pre.wf(),
        0 <= idx < pre.entries@.len(),
        post.entries@.len() == pre.entries@.len(),
        forall|i: int|
            0 <= i < pre.entries@.len() ==> (#[trigger] post.entries@[i]).id@ == (
            #[trigger] pre.entries@[i]).id@,
        forall|i: int|
            0 <= i < pre.entries@.len() && i != idx ==> (
            #[trigger] post.entries@[i]).flattened.spec_get(Mright::Member) == (
            #[trigger] pre.entries@[i]).flattened.spec_get(Mright::Member),
    ensures
        dn == spec_sgroup_id_to_dn(cfg.groups_dn@, pre.entries@[idx].id@) ==> spec_flat_member_of(
            &post,
            cfg,
            dn,
        ) == dn_set(post.entries@[idx].flattened.spec_get(Mright::Member)),
        dn != spec_sgroup_id_to_dn(cfg.groups_dn@, pre.entries@[idx].id@) ==> spec_flat_member_of(
            &post,
            cfg,
            dn,
        ) == spec_flat_member_of(&pre, cfg, dn),
{
    if dn == spec_sgroup_id_to_dn(cfg.groups_dn@, pre.entries@[idx].id@) {
        let target = dn_set(post.entries@[idx].flattened.spec_get(Mright::Member));
        assert forall|d: Seq<char>|
            spec_flat_member_of(&post, cfg, dn).contains(d) implies target.contains(d) by {
            let i = choose|i: int|
                0 <= i < post.entries@.len() && spec_sgroup_id_to_dn(
                    cfg.groups_dn@,
                    (#[trigger] post.entries@[i]).id@,
                ) == dn && dn_set(post.entries@[i].flattened.spec_get(Mright::Member)).contains(d);
            lemma_sgroup_dn_injective(cfg.groups_dn@, pre.entries@[i].id@, pre.entries@[idx].id@);
            if i != idx {
                assert(pre.entries@[i].id@ != pre.entries@[idx].id@);
            }
        }
        assert forall|d: Seq<char>|
            target.contains(d) implies spec_flat_member_of(&post, cfg, dn).contains(d) by {
            assert(spec_sgroup_id_to_dn(cfg.groups_dn@, post.entries@[idx].id@) == dn && dn_set(
                post.entries@[idx].flattened.spec_get(Mright::Member),
            ).contains(d));
        }
        assert(spec_flat_member_of(&post, cfg, dn) =~= target);
    } else {
        assert forall|d: Seq<char>|
            spec_flat_member_of(&post, cfg, dn).contains(d) implies spec_flat_member_of(
            &pre,
            cfg,
            dn,
        ).contains(d) by {
            let i = choose|i: int|
                0 <= i < post.entries@.len() && spec_sgroup_id_to_dn(
                    cfg.groups_dn@,
                    (#[trigger] post.entries@[i]).id@,
                ) == dn && dn_set(post.entries@[i].flattened.spec_get(Mright::Member)).contains(d);
            assert(i != idx);
            assert(spec_sgroup_id_to_dn(cfg.groups_dn@, pre.entries@[i].id@) == dn && dn_set(
                pre.entries@[i].flattened.spec_get(Mright::Member),
            ).contains(d));
        }
        assert forall|d: Seq<char>|
            spec_flat_member_of(&pre, cfg, dn).contains(d) implies spec_flat_member_of(
            &post,
            cfg,
            dn,
        ).contains(d) by {
            let i = choose|i: int|
                0 <= i < pre.entries@.len() && spec_sgroup_id_to_dn(
                    cfg.groups_dn@,
                    (#[trigger] pre.entries@[i]).id@,
                ) == dn && dn_set(pre.entries@[i].flattened.spec_get(Mright::Member)).contains(d);
            assert(i != idx);
            assert(spec_sgroup_id_to_dn(cfg.groups_dn@, post.entries@[i].id@) == dn && dn_set(
                post.entries@[i].flattened.spec_get(Mright::Member),
            ).contains(d));
        }
        assert(spec_flat_member_of(&post, cfg, dn) =~= spec_flat_member_of(&pre, cfg, dn));
    }
}

/// The closure of a direct list is the same in two states in which every
/// DN of the list reaches the same flattened members.
pub proof fn lemma_closure_same_reach(
    pre: Directory,
    post: Directory,
    cfg: &LdapConfig,
    direct: Seq<(Dn, DirectOptions)>,
)
    requires
        forall|h: Seq<char>|
            dns_of(direct).contains(h) ==> spec_flat_member_of(&post, cfg, h)
                == spec_flat_member_of(&pre, cfg, h),
    ensures
        spec_closure_rhs(&post, cfg, direct) == spec_closure_rhs(&pre, cfg, direct),
{
    assert forall|d: Seq<char>|
        spec_closure_rhs(&post, cfg, direct).contains(d) implies spec_closure_rhs(
        &pre,
        cfg,
        direct,
    ).contains(d) by {
        if !dns_of(direct).contains(d) {
            let h = choose|h: Seq<char>|
                #[trigger] dns_of(direct).contains(h) && spec_flat_member_of(&post, cfg, h).contains(
                    d,
                );
            assert(spec_flat_member_of(&pre, cfg, h).contains(d));
        }
    }
    assert forall|d: Seq<char>|
        spec_closure_rhs(&pre, cfg, direct).contains(d) implies spec_closure_rhs(
        &post,
        cfg,
        direct,
    ).contains(d) by {
        if !dns_of(direct).contains(d) {
            let h = choose|h: Seq<char>|
                #[trigger] dns_of(direct).contains(h) && spec_flat_member_of(&pre, cfg, h).contains(
                    d,
                );
            assert(spec_flat_member_of(&post, cfg, h).contains(d));
        }
    }
    assert(spec_closure_rhs(&post, cfg, direct) =~= spec_closure_rhs(&pre, cfg, direct));
}

/// Writing a member set's closure target back leaves the closure of that
/// same direct list unchanged: what the rewrite adds was already reachable.
pub proof fn lemma_member_update_keeps_closure(
    pre: Directory,
    post: Directory,
    cfg: &LdapConfig,
    idx: int,
)
    requires
        pre.wf(),
        0 <= idx < pre.entries@.len(),
        post.entries@.len() == pre.entries@.len(),
        forall|i: int|
            0 <= i < pre.entries@.len() ==> (#[trigger] post.entries@[i]).id@ == (
            #[trigger] pre.entries@[i]).id@,
        forall|i: int|
            0 <= i < pre.entries@.len() && i != idx ==> (
            #[trigger] post.entries@[i]).flattened.spec_get(Mright::Member) == (
            #[trigger] pre.entries@[i]).flattened.spec_get(Mright::Member),
        post.entries@[idx].direct == pre.entries@[idx].direct,
        dn_set(post.entries@[idx].flattened.spec_get(Mright::Member)) == spec_closure_target(
            &pre,
            cfg,
            pre.entries@[idx].direct.spec_get(Mright::Member),
            Mright::Member,
        ),
    ensures
        spec_closure_rhs(&post, cfg, pre.entries@[idx].direct.spec_get(Mright::Member))
            == spec_closure_rhs(&pre, cfg, pre.entries@[idx].direct.spec_get(Mright::Member)),
{
    let direct = pre.entries@[idx].direct.spec_get(Mright::Member);
    let gdn = spec_sgroup_id_to_dn(cfg.groups_dn@, pre.entries@[idx].id@);
    let closure_pre = spec_closure_rhs(&pre, cfg, direct);
    if closure_pre.is_empty() {
        // an empty closure means an empty direct list, so neither state
        // reaches anything through it
        assert forall|d: Seq<char>| !dns_of(direct).contains(d) by {
            if dns_of(direct).contains(d) {
                assert(closure_pre.contains(d));
            }
        }
        assert(spec_closure_rhs(&post, cfg, direct) =~= closure_pre) by {
            assert forall|d: Seq<char>|
                !spec_closure_rhs(&post, cfg, direct).contains(d) by {
                if spec_closure_rhs(&post, cfg, direct).contains(d) {
                    if !dns_of(direct).contains(d) {
                        let h = choose|h: Seq<char>|
                            #[trigger] dns_of(direct).contains(h) && spec_flat_member_of(
                                &post,
                                cfg,
                                h,
                            ).contains(d);
                    }
                }
            }
        }
    } else {
        // the new stored set is the closure itself
        assert forall|d: Seq<char>|
            spec_closure_rhs(&post, cfg, direct).contains(d) implies closure_pre.contains(d) by {
            if !dns_of(direct).contains(d) {
                let h = choose|h: Seq<char>|
                    #[trigger] dns_of(direct).contains(h) && spec_flat_member_of(
                        &post,
                        cfg,
                        h,
                    ).contains(d);
                lemma_flat_member_update(pre, post, cfg, idx, h);
                if h == gdn {
                    assert(spec_flat_member_of(&post, cfg, h) == closure_pre);
                } else {
                    assert(spec_flat_member_of(&pre, cfg, h).contains(d));
                }
            }
        }
        assert forall|d: Seq<char>|
            closure_pre.contains(d) implies spec_closure_rhs(&post, cfg, direct).contains(d) by {
            if !dns_of(direct).contains(d) {
                let h = choose|h: Seq<char>|
                    #[trigger] dns_of(direct).contains(h) && spec_flat_member_of(
                        &pre,
                        cfg,
                        h,
                    ).contains(d);
                lemma_flat_member_update(pre, post, cfg, idx, h);
                if h == gdn {
                    // what the entry reached before is inside its own closure
                    assert(closure_pre.contains(d));
                    assert(spec_flat_member_of(&post, cfg, h) == closure_pre);
                } else {
                    assert(spec_flat_member_of(&post, cfg, h).contains(d));
                }
            }
        }
        assert(spec_closure_rhs(&post, cfg, direct) =~= closure_pre);
    }
}

/// A settled closure equation survives a recomputation that touched another
/// pair, as long as the settled pair's direct set does not reference the
/// recomputed entry (a condition only member recomputations need).
pub proof fn lemma_equation_frame(
    pre: Directory,
    post: Directory,
    cfg: &LdapConfig,
    idx: int,
    m: Mright,
    j: int,
    m2: Mright,
)
    requires
        pre.wf(),
        0 <= idx < pre.entries@.len(),
        0 <= j < pre.entries@.len(),
        post.entries@.len() == pre.entries@.len(),
        forall|i: int|
            0 <= i < pre.entries@.len() && i != idx ==> #[trigger] post.entries@[i]
                == pre.entries@[i],
        post.entries@[idx as int].id == pre.entries@[idx as int].id,
        post.entries@[idx as int].direct == pre.entries@[idx as int].direct,
        forall|mm: Mright|
            mm != m ==> post.entries@[idx as int].flattened.spec_get(mm)
                == pre.entries@[idx as int].flattened.spec_get(mm),
        !(j == idx && m2 == m),
        m == Mright::Member ==> !dns_of(pre.entries@[j].direct.spec_get(m2)).contains(
            spec_sgroup_id_to_dn(cfg.groups_dn@, pre.entries@[idx].id@),
        ),
        spec_flattened_equation(&pre, cfg, j, m2),
    ensures
        spec_flattened_equation(&post, cfg, j, m2),
{
    let direct = pre.entries@[j].direct.spec_get(m2);
    assert(post.entries@[j].direct.spec_get(m2) == direct);
    assert(post.entries@[j].flattened.spec_get(m2) == pre.entries@[j].flattened.spec_get(m2));
    assert forall|i: int|
        0 <= i < pre.entries@.len() implies (#[trigger] post.entries@[i]).id@ == (
    #[trigger] pre.entries@[i]).id@ by {}
    if m == Mright::Member {
        let gdn = spec_sgroup_id_to_dn(cfg.groups_dn@, pre.entries@[idx].id@);
        assert forall|h: Seq<char>|
            dns_of(direct).contains(h) implies spec_flat_member_of(&post, cfg, h)
            == spec_flat_member_of(&pre, cfg, h) by {
            lemma_flat_member_update(pre, post, cfg, idx, h);
            assert(h != gdn);
        }
        lemma_closure_same_reach(pre, post, cfg, direct);
    } else {
        assert forall|i: int|
            0 <= i < pre.entries@.len() implies (#[trigger] post.entries@[i]).flattened.spec_get(
            Mright::Member,
        ) == (#[trigger] pre.entries@[i]).flattened.spec_get(Mright::Member) by {
            if i == idx {
                assert(post.entries@[idx as int].flattened.spec_get(Mright::Member)
                    == pre.entries@[idx as int].flattened.spec_get(Mright::Member));
            }
        }
        assert forall|h: Seq<char>|
            dns_of(direct).contains(h) implies spec_flat_member_of(&post, cfg, h)
            == spec_flat_member_of(&pre, cfg, h) by {
            lemma_flat_member_same(pre, post, cfg, h);
        }
        lemma_closure_same_reach(pre, post, cfg, direct);
    }
}

/// A settled pair is settled in any state with the same entries.
pub proof fn lemma_settled_entries_equal(
    a: Directory,
    b: Directory,
    cfg: &LdapConfig,
    id: Seq<char>,
    m: Mright,
)
    requires
        a.entries@ == b.entries@,
    ensures
        spec_pair_settled(&a, cfg, id, m) == spec_pair_settled(&b, cfg, id, m),
{
    assert forall|dn: Seq<char>|
        #[trigger] spec_flat_member_of(&a, cfg, dn) == spec_flat_member_of(&b, cfg, dn) by {
        assert(spec_flat_member_of(&a, cfg, dn) =~= spec_flat_member_of(&b, cfg, dn));
    }
    match crate::directory::spec_find_entry(a.entries@, id) {
        Some(i) => {
            let direct = a.entries@[i].direct.spec_get(m);
            assert(spec_closure_rhs(&a, cfg, direct) =~= spec_closure_rhs(&b, cfg, direct));
        }
        None => {}
    }
}

} // verus!
