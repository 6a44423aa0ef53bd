use vstd::prelude::*;
use vstd::string::StrSliceExecFns;

use crate::config::{spec_sgroup_id_to_dn, LdapConfig};
use crate::directory::{spec_find_entry, lemma_find_entry, Directory, SgroupEntry};
use crate::helpers::str_eq;
use crate::naming::spec_parent_stems;
use crate::types::{best_of, spec_best_of, DirectOptions, Dn, DnsOpts, Mright, Right};
use crate::urls::{dn_opts_to_url, dn_to_url, spec_dn_opts_to_url, spec_dn_to_url};

verus! {

/// The view of a relation's optional end date.
pub open spec fn spec_opts_view(o: DirectOptions) -> Option<Seq<char>> {
    match o.enddate {
        Some(e) => Some(e@),
        None => None,
    }
}

/// The set of strings a list holds.
pub open spec fn str_set(l: Seq<String>) -> Set<Seq<char>> {
    Set::new(|u: Seq<char>| exists|i: int| 0 <= i < l.len() && (#[trigger] l[i])@ == u)
}

/// Whether one stored relation value grants a role to a caller holding
/// these identity URLs: the stored URL must be one of them, letter for
/// letter.
pub open spec fn spec_urls_match(stored: Seq<(Dn, DirectOptions)>, uset: Set<Seq<char>>) -> bool {
    exists|i: int|
        0 <= i < stored.len() && uset.contains(
            spec_dn_opts_to_url((#[trigger] stored[i]).0@, spec_opts_view(stored[i].1)),
        )
}

/// Whether one stored relation value is one of the caller's identity URLs.
pub fn urls_match(stored: &DnsOpts, urls: &Vec<String>) -> (r: bool)
    ensures
        r == spec_urls_match(stored@, str_set(urls@)),
{
    let mut k: usize = 0;
    while k < stored.len()
        invariant
            k <= stored@.len(),
            forall|i: int|
                0 <= i < k ==> !str_set(urls@).contains(
                    spec_dn_opts_to_url((#[trigger] stored@[i]).0@, spec_opts_view(stored@[i].1)),
                ),
        decreases stored@.len() - k,
    {
        let url = dn_opts_to_url(&stored[k].0, &stored[k].1);
        let mut j: usize = 0;
        while j < urls.len()
            invariant
                k < stored@.len(),
                j <= urls@.len(),
                url@ == spec_dn_opts_to_url(stored@[k as int].0@, spec_opts_view(
                    stored@[k as int].1,
                )),
                forall|i: int| 0 <= i < j ==> (#[trigger] urls@[i])@ != url@,
            decreases urls@.len() - j,
        {
            if str_eq(urls[j].as_str(), url.as_str()) {
                proof {
                    assert(str_set(urls@).contains(url@));
                }
                return true;
            }
            j += 1;
        }
        proof {
            if str_set(urls@).contains(url@) {
                let i = choose|i: int| 0 <= i < urls@.len() && (#[trigger] urls@[i])@ == url@;
                assert(urls@[i]@ != url@);
            }
        }
        k += 1;
    }
    proof {
        if spec_urls_match(stored@, str_set(urls@)) {
            let i = choose|i: int|
                0 <= i < stored@.len() && str_set(urls@).contains(
                    spec_dn_opts_to_url((#[trigger] stored@[i]).0@, spec_opts_view(stored@[i].1)),
                );
        }
    }
    false
}

/// The highest right one entry's direct relations grant to a caller holding
/// these identity URLs.
pub open spec fn spec_entry_highest_right(e: SgroupEntry, uset: Set<Seq<char>>) -> Option<Right> {
    if spec_urls_match(e.direct.spec_get(Mright::Admin), uset) {
        Some(Right::Admin)
    } else if spec_urls_match(e.direct.spec_get(Mright::Updater), uset) {
        Some(Right::Updater)
    } else if spec_urls_match(e.direct.spec_get(Mright::Reader), uset) {
        Some(Right::Reader)
    } else {
        None
    }
}

/// The highest right one entry's direct relations grant to the caller.
pub fn user_highest_right(e: &SgroupEntry, urls: &Vec<String>) -> (r: Option<Right>)
    ensures
        r == spec_entry_highest_right(*e, str_set(urls@)),
{
    if urls_match(e.direct.get(Mright::Admin), urls) {
        Some(Right::Admin)
    } else if urls_match(e.direct.get(Mright::Updater), urls) {
        Some(Right::Updater)
    } else if urls_match(e.direct.get(Mright::Reader), urls) {
        Some(Right::Reader)
    } else {
        None
    }
}

/// The highest right the entry carrying an identifier grants, or nothing
/// where no entry carries it.
pub open spec fn spec_right_on_id(dir: &Directory, uset: Set<Seq<char>>, id: Seq<char>) -> Option<
    Right,
> {
    match spec_find_entry(dir.entries@, id) {
        Some(i) => spec_entry_highest_right(dir.entries@[i], uset),
        None => None,
    }
}

/// The best right granted along a chain of identifiers.
pub open spec fn spec_best_on_chain(
    dir: &Directory,
    uset: Set<Seq<char>>,
    chain: Seq<Seq<char>>,
) -> Option<Right>
    decreases chain.len(),
{
    if chain.len() == 0 {
        None
    } else {
        spec_best_of(
            spec_right_on_id(dir, uset, chain[0]),
            spec_best_on_chain(dir, uset, chain.drop_first()),
        )
    }
}

/// The caller's effective right on an identifier: the best right granted on
/// it or on any of its ancestor stems.
pub open spec fn spec_effective_right(dir: &Directory, uset: Set<Seq<char>>, id: Seq<char>) -> Option<
    Right,
> {
    spec_best_of(
        spec_right_on_id(dir, uset, id),
        spec_best_on_chain(dir, uset, spec_parent_stems(id)),
    )
}

/// The level of an optional right, absence counting lowest.
pub open spec fn opt_right_level(r: Option<Right>) -> int {
    match r {
        Some(x) => x.spec_level(),
        None => 0,
    }
}

/// The caller's identity URLs: the URL of the user's own entry, together
/// with the URL of every group whose flattened member set holds the user's
/// DN.
pub fn user_urls(dir: &Directory, cfg: &LdapConfig, user: &str) -> (r: Vec<String>)
    requires
        cfg.wf(),
    ensures
        str_set(r@) == spec_user_urls(dir, cfg, user@),
{
    let user_dn = cfg.people_id_to_dn(user);
    let mut r: Vec<String> = Vec::new();
    r.push(dn_to_url(&user_dn));
    let ghost base = str_set(r@);
    proof {
        assert(base =~= Set::<Seq<char>>::empty().insert(spec_dn_to_url(user_dn@))) by {
            assert forall|u: Seq<char>| base.contains(u) implies u == spec_dn_to_url(user_dn@) by {
                let i = choose|i: int| 0 <= i < r@.len() && (#[trigger] r@[i])@ == u;
            }
            assert(r@[0]@ == spec_dn_to_url(user_dn@));
        }
    }
    let mut k: usize = 0;
    while k < dir.entries.len()
        invariant
            cfg.wf(),
            k <= dir.entries@.len(),
            user_dn@ == spec_people_dn(cfg, user@),
            str_set(r@) == spec_user_urls_upto(dir, cfg, user@, k as int),
        decreases dir.entries@.len() - k,
    {
        let flat_member = dir.entries[k].flattened.get(Mright::Member);
        if crate::mods::contains_dn_vec(flat_member, &user_dn) {
            let gdn = cfg.sgroup_id_to_dn(dir.entries[k].id.as_str());
            let url = dn_to_url(&gdn);
            let ghost prev = r@;
            let ghost uval = url;
            r.push(url);
            proof {
                lemma_str_set_push(prev, uval);
            }
        }
        proof {
            lemma_user_urls_upto_step(dir, cfg, user@, k as int);
            assert(str_set(r@) =~= spec_user_urls_upto(dir, cfg, user@, k + 1));
        }
        k += 1;
    }
    proof {
        lemma_user_urls_full(dir, cfg, user@);
    }
    r
}

/// The DN of a person entry.
pub open spec fn spec_people_dn(cfg: &LdapConfig, user: Seq<char>) -> Seq<char> {
    seq!['u', 'i', 'd', '='] + user + ",ou=people,"@ + cfg.base_dn@
}

/// The caller's identity URL set.
pub open spec fn spec_user_urls(dir: &Directory, cfg: &LdapConfig, user: Seq<char>) -> Set<
    Seq<char>,
> {
    spec_user_urls_upto(dir, cfg, user, dir.entries@.len() as int)
}

/// The identity URL set restricted to the first `n` entries of the
/// directory.
pub open spec fn spec_user_urls_upto(
    dir: &Directory,
    cfg: &LdapConfig,
    user: Seq<char>,
    n: int,
) -> Set<Seq<char>> {
    Set::new(
        |u: Seq<char>|
            u == spec_dn_to_url(spec_people_dn(cfg, user)) || (exists|i: int|
                0 <= i < n && i < dir.entries@.len() && crate::mods::dn_set(
                    (#[trigger] dir.entries@[i]).flattened.spec_get(Mright::Member),
                ).contains(spec_people_dn(cfg, user)) && u == spec_dn_to_url(
                    spec_sgroup_id_to_dn(cfg.groups_dn@, dir.entries@[i].id@),
                )),
    )
}

/// Appending one string extends the string set by it.
pub proof fn lemma_str_set_push(t: Seq<String>, x: String)
    ensures
        str_set(t.push(x)) == str_set(t).insert(x@),
{
    assert forall|u: Seq<char>| str_set(t.push(x)).contains(u) implies str_set(t).insert(
        x@,
    ).contains(u) by {
        let i = choose|i: int| 0 <= i < t.push(x).len() && (#[trigger] t.push(x)[i])@ == u;
        if i < t.len() {
            assert(t[i]@ == u);
        }
    }
    assert forall|u: Seq<char>| str_set(t).insert(x@).contains(u) implies str_set(
        t.push(x),
    ).contains(u) by {
        if str_set(t).contains(u) {
            let i = choose|i: int| 0 <= i < t.len() && (#[trigger] t[i])@ == u;
            assert(t.push(x)[i]@ == u);
        } else {
            assert(t.push(x)[t.len() as int]@ == u);
        }
    }
    assert(str_set(t.push(x)) =~= str_set(t).insert(x@));
}

/// One step of the identity URL set.
pub proof fn lemma_user_urls_upto_step(dir: &Directory, cfg: &LdapConfig, user: Seq<char>, k: int)
    requires
        0 <= k < dir.entries@.len(),
    ensures
        crate::mods::dn_set(dir.entries@[k].flattened.spec_get(Mright::Member)).contains(
            spec_people_dn(cfg, user),
        ) ==> spec_user_urls_upto(dir, cfg, user, k + 1) == spec_user_urls_upto(
            dir,
            cfg,
            user,
            k,
        ).insert(spec_dn_to_url(spec_sgroup_id_to_dn(cfg.groups_dn@, dir.entries@[k].id@))),
        !crate::mods::dn_set(dir.entries@[k].flattened.spec_get(Mright::Member)).contains(
            spec_people_dn(cfg, user),
        ) ==> spec_user_urls_upto(dir, cfg, user, k + 1) == spec_user_urls_upto(dir, cfg, user, k),
{
    if crate::mods::dn_set(dir.entries@[k].flattened.spec_get(Mright::Member)).contains(
        spec_people_dn(cfg, user),
    ) {
        assert(spec_user_urls_upto(dir, cfg, user, k + 1) =~= spec_user_urls_upto(
            dir,
            cfg,
            user,
            k,
        ).insert(spec_dn_to_url(spec_sgroup_id_to_dn(cfg.groups_dn@, dir.entries@[k].id@)))) by {
            assert forall|u: Seq<char>|
                spec_user_urls_upto(dir, cfg, user, k + 1).contains(u) implies spec_user_urls_upto(
                dir,
                cfg,
                user,
                k,
            ).insert(
                spec_dn_to_url(spec_sgroup_id_to_dn(cfg.groups_dn@, dir.entries@[k].id@)),
            ).contains(u) by {
                if u != spec_dn_to_url(spec_people_dn(cfg, user)) {
                    let i = choose|i: int|
                        0 <= i < k + 1 && i < dir.entries@.len() && crate::mods::dn_set(
                            (#[trigger] dir.entries@[i]).flattened.spec_get(Mright::Member),
                        ).contains(spec_people_dn(cfg, user)) && u == spec_dn_to_url(
                            spec_sgroup_id_to_dn(cfg.groups_dn@, dir.entries@[i].id@),
                        );
                    if i < k {
                        assert(spec_user_urls_upto(dir, cfg, user, k).contains(u));
                    }
                }
            }
        }
    } else {
        assert(spec_user_urls_upto(dir, cfg, user, k + 1) =~= spec_user_urls_upto(
            dir,
            cfg,
            user,
            k,
        )) by {
            assert forall|u: Seq<char>|
                spec_user_urls_upto(dir, cfg, user, k + 1).contains(u) implies spec_user_urls_upto(
                dir,
                cfg,
                user,
                k,
            ).contains(u) by {
                if u != spec_dn_to_url(spec_people_dn(cfg, user)) {
                    let i = choose|i: int|
                        0 <= i < k + 1 && i < dir.entries@.len() && crate::mods::dn_set(
                            (#[trigger] dir.entries@[i]).flattened.spec_get(Mright::Member),
                        ).contains(spec_people_dn(cfg, user)) && u == spec_dn_to_url(
                            spec_sgroup_id_to_dn(cfg.groups_dn@, dir.entries@[i].id@),
                        );
                    assert(i < k);
                }
            }
        }
    }
}

/// Over the whole directory the bounded set is the full set.
pub proof fn lemma_user_urls_full(dir: &Directory, cfg: &LdapConfig, user: Seq<char>)
    ensures
        spec_user_urls_upto(dir, cfg, user, dir.entries@.len() as int) == spec_user_urls(
            dir,
            cfg,
            user,
        ),
{
}

/// The best right granted along a chain never falls below the right granted
/// on any single identifier of the chain: a right on an ancestor carries
/// down to every descendant.
pub proof fn lemma_chain_monotonic(
    dir: &Directory,
    uset: Set<Seq<char>>,
    chain: Seq<Seq<char>>,
    k: int,
)
    requires
        0 <= k < chain.len(),
    ensures
        opt_right_level(spec_best_on_chain(dir, uset, chain)) >= opt_right_level(
            spec_right_on_id(dir, uset, chain[k]),
        ),
    decreases chain.len(),
{
    if k == 0 {
    } else {
        lemma_chain_monotonic(dir, uset, chain.drop_first(), k - 1);
        assert(chain.drop_first()[k - 1] == chain[k]);
    }
}

/// Rights inherit downward: the caller's effective right on an identifier
/// is at least the right granted directly on any of its ancestor stems.
pub proof fn lemma_rights_monotonic(dir: &Directory, uset: Set<Seq<char>>, id: Seq<char>, k: int)
    requires
        0 <= k < spec_parent_stems(id).len(),
    ensures
        opt_right_level(spec_effective_right(dir, uset, id)) >= opt_right_level(
            spec_right_on_id(dir, uset, spec_parent_stems(id)[k]),
        ),
{
    lemma_chain_monotonic(dir, uset, spec_parent_stems(id), k);
}

/// The best right granted on an identifier or on any of its ancestors.
pub fn best_right_on_self_or_any_parents(
    dir: &Directory,
    cfg: &LdapConfig,
    id: &str,
    urls: &Vec<String>,
) -> (r: Option<Right>)
    requires
        cfg.wf(),
    ensures
        r == spec_effective_right(dir, str_set(urls@), id@),
{
    let mut best = right_on_id(dir, id, urls);
    let parents = cfg.stem.parent_stems(id);
    let ghost chain = spec_parent_stems(id@);
    let mut k: usize = parents.len();
    proof {
        assert(parents@.map_values(|p: &str| p@).len() == chain.len());
        assert(chain.skip(k as int) =~= Seq::<Seq<char>>::empty());
    }
    while k > 0
        invariant
            parents@.map_values(|p: &str| p@) == chain,
            k <= chain.len(),
            best == spec_best_of(
                spec_right_on_id(dir, str_set(urls@), id@),
                spec_best_on_chain(dir, str_set(urls@), chain.skip(k as int)),
            ),
        decreases k,
    {
        k -= 1;
        let r = right_on_id(dir, parents[k], urls);
        proof {
            assert(parents@.map_values(|p: &str| p@)[k as int] == chain[k as int]);
            assert(chain.skip(k as int).drop_first() =~= chain.skip(k + 1));
            assert(chain.skip(k as int)[0] == chain[k as int]);
            lemma_best_of_assoc(
                spec_right_on_id(dir, str_set(urls@), id@),
                spec_right_on_id(dir, str_set(urls@), chain[k as int]),
                spec_best_on_chain(dir, str_set(urls@), chain.skip(k + 1)),
            );
            assert(spec_best_on_chain(dir, str_set(urls@), chain.skip(k as int)) == spec_best_of(
                spec_right_on_id(dir, str_set(urls@), chain[k as int]),
                spec_best_on_chain(dir, str_set(urls@), chain.skip(k + 1)),
            ));
        }
        best = best_of(best, r);
    }
    proof {
        assert(chain.skip(0) =~= chain);
    }
    best
}

/// Taking the best of rights in either grouping gives the same right.
pub proof fn lemma_best_of_assoc(a: Option<Right>, b: Option<Right>, c: Option<Right>)
    ensures
        spec_best_of(spec_best_of(a, c), b) == spec_best_of(a, spec_best_of(b, c)),
{
}

/// The highest right the entry carrying an identifier grants.
pub fn right_on_id(dir: &Directory, id: &str, urls: &Vec<String>) -> (r: Option<Right>)
    ensures
        r == spec_right_on_id(dir, str_set(urls@), id@),
{
    match dir.find_entry(id) {
        Some(i) => {
            proof {
                lemma_find_entry(dir.entries@, id@);
            }
            user_highest_right(&dir.entries[i], urls)
        }
        None => None,
    }
}


/// The best right granted on any ancestor stem of an identifier.
pub fn best_right_on_any_parents(
    dir: &Directory,
    cfg: &LdapConfig,
    id: &str,
    urls: &Vec<String>,
) -> (r: Option<Right>)
    requires
        cfg.wf(),
    ensures
        r == spec_best_on_chain(dir, str_set(urls@), spec_parent_stems(id@)),
{
    let parents = cfg.stem.parent_stems(id);
    let ghost chain = spec_parent_stems(id@);
    let mut best: Option<Right> = None;
    let mut k: usize = parents.len();
    proof {
        assert(parents@.map_values(|p: &str| p@).len() == chain.len());
        assert(chain.skip(k as int) =~= Seq::<Seq<char>>::empty());
    }
    while k > 0
        invariant
            parents@.map_values(|p: &str| p@) == chain,
            k <= chain.len(),
            best == spec_best_on_chain(dir, str_set(urls@), chain.skip(k as int)),
        decreases k,
    {
        k -= 1;
        let r = right_on_id(dir, parents[k], urls);
        proof {
            assert(parents@.map_values(|p: &str| p@)[k as int] == chain[k as int]);
            assert(chain.skip(k as int).drop_first() =~= chain.skip(k + 1));
            assert(chain.skip(k as int)[0] == chain[k as int]);
        }
        best = best_of(r, best);
    }
    proof {
        assert(chain.skip(0) =~= chain);
    }
    best
}


/// Whether one value among raw directory attribute rows under the given
/// attribute name is one of the caller's identity URLs.
pub open spec fn spec_raw_attr_match(
    attrs: Seq<(String, Vec<String>)>,
    attr: Seq<char>,
    urls: Seq<String>,
) -> bool {
    exists|i: int, j: int|
        0 <= i < attrs.len() && (#[trigger] attrs[i]).0@ == attr && 0 <= j < attrs[i].1@.len()
            && str_set(urls).contains((#[trigger] attrs[i].1@[j])@)
}

/// The highest right a raw directory entry grants to a caller holding these
/// identity URLs: the best role attribute holding one of the URLs letter
/// for letter.
pub open spec fn spec_raw_highest_right(
    attrs: Seq<(String, Vec<String>)>,
    urls: Seq<String>,
) -> Option<Right> {
    if spec_raw_attr_match(attrs, Mright::Admin.spec_attr(), urls) {
        Some(Right::Admin)
    } else if spec_raw_attr_match(attrs, Mright::Updater.spec_attr(), urls) {
        Some(Right::Updater)
    } else if spec_raw_attr_match(attrs, Mright::Reader.spec_attr(), urls) {
        Some(Right::Reader)
    } else {
        None
    }
}

/// Whether raw attribute rows under this name hold one of the URLs.
#[verifier::loop_isolation(false)]
fn raw_attr_match(attrs: &Vec<(String, Vec<String>)>, attr: &str, urls: &Vec<String>) -> (r: bool)
    ensures
        r == spec_raw_attr_match(attrs@, attr@, urls@),
{
    let mut i: usize = 0;
    while i < attrs.len()
        invariant
            i <= attrs@.len(),
            forall|i2: int, j: int|
                0 <= i2 < i && (#[trigger] attrs@[i2]).0@ == attr@ && 0 <= j < attrs@[i2].1@.len()
                    ==> !str_set(urls@).contains((#[trigger] attrs@[i2].1@[j])@),
        decreases attrs@.len() - i,
    {
        if str_eq(attrs[i].0.as_str(), attr) {
            let vals = &attrs[i].1;
            let mut j: usize = 0;
            while j < vals.len()
                invariant
                    i < attrs@.len(),
                    vals == &attrs@[i as int].1,
                    j <= vals@.len(),
                    forall|j2: int|
                        0 <= j2 < j ==> !str_set(urls@).contains(
                            (#[trigger] attrs@[i as int].1@[j2])@,
                        ),
                decreases vals@.len() - j,
            {
                let mut l: usize = 0;
                while l < urls.len()
                    invariant
                        i < attrs@.len(),
                        vals == &attrs@[i as int].1,
                        j < vals@.len(),
                        l <= urls@.len(),
                        forall|l2: int| 0 <= l2 < l ==> (#[trigger] urls@[l2])@ != vals@[j as int]@,
                    decreases urls@.len() - l,
                {
                    if str_eq(urls[l].as_str(), vals[j].as_str()) {
                        proof {
                            assert(urls@[l as int]@ == attrs@[i as int].1@[j as int]@);
                            assert(str_set(urls@).contains(attrs@[i as int].1@[j as int]@));
                        }
                        return true;
                    }
                    l += 1;
                }
                proof {
                    if str_set(urls@).contains(attrs@[i as int].1@[j as int]@) {
                        let l2 = choose|l2: int|
                            0 <= l2 < urls@.len() && (#[trigger] urls@[l2])@ == attrs@[i as int].1@[
                                j as int
                            ]@;
                    }
                }
                j += 1;
            }
        }
        i += 1;
    }
    proof {
        if spec_raw_attr_match(attrs@, attr@, urls@) {
            let (i2, j) = choose|i2: int, j: int|
                0 <= i2 < attrs@.len() && (#[trigger] attrs@[i2]).0@ == attr@ && 0 <= j < attrs@[
                    i2
                ].1@.len() && str_set(urls@).contains((#[trigger] attrs@[i2].1@[j])@);
        }
    }
    false
}

/// The highest right a raw directory entry grants to the caller: the
/// wire-attribute twin of `user_highest_right`, for callers holding a
/// directory read rather than the model.
pub fn user_highest_right_on_raw_attrs(
    attrs: &Vec<(String, Vec<String>)>,
    urls: &Vec<String>,
) -> (r: Option<Right>)
    ensures
        r == spec_raw_highest_right(attrs@, urls@),
{
    let admin_attr = Mright::Admin.to_attr();
    let updater_attr = Mright::Updater.to_attr();
    let reader_attr = Mright::Reader.to_attr();
    if raw_attr_match(attrs, admin_attr.as_str(), urls) {
        Some(Right::Admin)
    } else if raw_attr_match(attrs, updater_attr.as_str(), urls) {
        Some(Right::Updater)
    } else if raw_attr_match(attrs, reader_attr.as_str(), urls) {
        Some(Right::Reader)
    } else {
        None
    }
}

} // verus!
