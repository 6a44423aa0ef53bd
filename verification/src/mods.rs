use vstd::prelude::*;
use vstd::string::StrSliceExecFns;

use crate::helpers::str_eq;
use crate::types::{DirectOptions, Dn, DnsOpts, Mright, MyErr, MyMod, MyMods, Right};
use crate::urls::{spec_url_to_dn, url_to_dn};

verus! {

/// The set of DNs a relation list holds.
pub open spec fn dns_of(l: Seq<(Dn, DirectOptions)>) -> Set<Seq<char>> {
    Set::new(|d: Seq<char>| exists|i: int| 0 <= i < l.len() && #[trigger] l[i].0@ == d)
}

/// The set of DNs a plain DN list holds.
pub open spec fn dn_set(l: Seq<Dn>) -> Set<Seq<char>> {
    Set::new(|d: Seq<char>| exists|i: int| 0 <= i < l.len() && #[trigger] l[i]@ == d)
}

/// Whether a relation list holds each DN at most once.
pub open spec fn dns_unique(l: Seq<(Dn, DirectOptions)>) -> bool {
    forall|i: int, j: int| 0 <= i < j < l.len() ==> l[i].0@ != l[j].0@
}

/// Whether this relation list holds this DN.
pub fn contains_dn(l: &DnsOpts, dn: &Dn) -> (r: bool)
    ensures
        r == dns_of(l@).contains(dn@),
{
    let mut k: usize = 0;
    while k < l.len()
        invariant
            k <= l@.len(),
            forall|j: int| 0 <= j < k ==> #[trigger] l@[j].0@ != dn@,
        decreases l@.len() - k,
    {
        if str_eq(l[k].0.0.as_str(), dn.0.as_str()) {
            proof {
                assert(l@[k as int].0@ == dn@);
            }
            return true;
        }
        k += 1;
    }
    proof {
        if dns_of(l@).contains(dn@) {
            let i = choose|i: int| 0 <= i < l@.len() && #[trigger] l@[i].0@ == dn@;
            assert(l@[i].0@ != dn@);
        }
    }
    false
}

/// Whether this DN list holds this DN.
pub fn contains_dn_vec(l: &Vec<Dn>, dn: &Dn) -> (r: bool)
    ensures
        r == dn_set(l@).contains(dn@),
{
    let mut k: usize = 0;
    while k < l.len()
        invariant
            k <= l@.len(),
            forall|j: int| 0 <= j < k ==> #[trigger] l@[j]@ != dn@,
        decreases l@.len() - k,
    {
        if str_eq(l[k].0.as_str(), dn.0.as_str()) {
            proof {
                assert(l@[k as int]@ == dn@);
            }
            return true;
        }
        k += 1;
    }
    proof {
        if dn_set(l@).contains(dn@) {
            let i = choose|i: int| 0 <= i < l@.len() && #[trigger] l@[i]@ == dn@;
            assert(l@[i]@ != dn@);
        }
    }
    false
}

/// The entries of `a` whose DN does not occur in `b`, in order.
pub open spec fn spec_diff_dns(
    a: Seq<(Dn, DirectOptions)>,
    b: Seq<(Dn, DirectOptions)>,
) -> Seq<(Dn, DirectOptions)>
    decreases a.len(),
{
    if a.len() == 0 {
        Seq::<(Dn, DirectOptions)>::empty()
    } else {
        let rest = spec_diff_dns(a.drop_last(), b);
        if !dns_of(b).contains(a.last().0@) {
            rest.push(a.last())
        } else {
            rest
        }
    }
}

/// The entries of `a` whose DN does not occur in `b`, in order, with their
/// options.
pub fn diff_dns(a: &DnsOpts, b: &DnsOpts) -> (r: DnsOpts)
    ensures
        r@ == spec_diff_dns(a@, b@),
{
    let mut r: DnsOpts = Vec::new();
    let mut k: usize = 0;
    proof {
        assert(a@.take(0) =~= Seq::<(Dn, DirectOptions)>::empty());
    }
    while k < a.len()
        invariant
            k <= a@.len(),
            r@ == spec_diff_dns(a@.take(k as int), b@),
        decreases a@.len() - k,
    {
        proof {
            assert(a@.take(k + 1).drop_last() =~= a@.take(k as int));
            assert(a@.take(k + 1).last() == a@[k as int]);
        }
        let entry = &a[k];
        if !contains_dn(b, &entry.0) {
            let copy = (Dn(entry.0.0.clone()), clone_options(&entry.1));
            proof {
                assert(copy == a@[k as int]);
            }
            r.push(copy);
        }
        k += 1;
    }
    proof {
        assert(a@.take(a@.len() as int) =~= a@);
    }
    r
}

/// A copy of one relation's options.
pub fn clone_options(o: &DirectOptions) -> (r: DirectOptions)
    ensures
        r == o,
{
    DirectOptions {
        enddate: match &o.enddate {
            Some(e) => Some(e.clone()),
            None => None,
        },
    }
}

/// The DNs of `a` that do not occur in `b`, in order.
pub open spec fn spec_diff_dn_vec(a: Seq<Dn>, b: Seq<Dn>) -> Seq<Dn>
    decreases a.len(),
{
    if a.len() == 0 {
        Seq::<Dn>::empty()
    } else {
        let rest = spec_diff_dn_vec(a.drop_last(), b);
        if !dn_set(b).contains(a.last()@) {
            rest.push(a.last())
        } else {
            rest
        }
    }
}

/// The DNs of `a` that do not occur in `b`, in order.
pub fn diff_dn_vec(a: &Vec<Dn>, b: &Vec<Dn>) -> (r: Vec<Dn>)
    ensures
        r@ == spec_diff_dn_vec(a@, b@),
{
    let mut r: Vec<Dn> = Vec::new();
    let mut k: usize = 0;
    proof {
        assert(a@.take(0) =~= Seq::<Dn>::empty());
    }
    while k < a.len()
        invariant
            k <= a@.len(),
            r@ == spec_diff_dn_vec(a@.take(k as int), b@),
        decreases a@.len() - k,
    {
        proof {
            assert(a@.take(k + 1).drop_last() =~= a@.take(k as int));
            assert(a@.take(k + 1).last() == a@[k as int]);
        }
        if !contains_dn_vec(b, &a[k]) {
            let copy = Dn(a[k].0.clone());
            proof {
                assert(copy == a@[k as int]);
            }
            r.push(copy);
        }
        k += 1;
    }
    proof {
        assert(a@.take(a@.len() as int) =~= a@);
    }
    r
}

/// The right a set of modifications demands of the caller: any modification
/// beyond the member and reader roles asks for the administrator right.
pub fn my_mods_to_right(my_mods: &MyMods) -> (r: Right)
    ensures
        r == (if exists|i: int|
            0 <= i < my_mods@.len() && (#[trigger] my_mods@[i].0).spec_level() > 1 {
            Right::Admin
        } else {
            Right::Updater
        }),
{
    let mut k: usize = 0;
    while k < my_mods.len()
        invariant
            k <= my_mods@.len(),
            forall|j: int| 0 <= j < k ==> (#[trigger] my_mods@[j].0).spec_level() <= 1,
        decreases my_mods@.len() - k,
    {
        if my_mods[k].0.level() > 1 {
            return Right::Admin;
        }
        k += 1;
    }
    proof {
        if exists|i: int| 0 <= i < my_mods@.len() && (#[trigger] my_mods@[i].0).spec_level() > 1 {
            let i = choose|i: int|
                0 <= i < my_mods@.len() && (#[trigger] my_mods@[i].0).spec_level() > 1;
            assert(my_mods@[i].0.spec_level() <= 1);
        }
    }
    Right::Updater
}

/// Requested modifications in their wire form: for each role and kind of
/// modification, the URL values to store.
pub type UrlMods = Vec<(Mright, Vec<(MyMod, Vec<String>)>)>;

/// Whether the values of one submodification are acceptable: every value
/// must reference a subject by DN, except that a replacement of the whole
/// member set by exactly one value may carry any URL — the only door for the
/// synchronization marker.
pub open spec fn submod_urls_ok(mright: Mright, action: MyMod, urls: Seq<String>) -> bool {
    (action == MyMod::Replace && urls.len() == 1 && mright == Mright::Member) || (forall|i: int|
        0 <= i < urls.len() ==> spec_url_to_dn((#[trigger] urls[i])@) is Some)
}

/// Whether a whole set of modifications is acceptable: no member
/// modification on a stem, and every submodification's values acceptable.
pub open spec fn spec_check_mods_ok(
    is_stem: bool,
    mods: Seq<(Mright, Vec<(MyMod, Vec<String>)>)>,
) -> bool {
    forall|i: int|
        0 <= i < mods.len() ==> (!((#[trigger] mods[i]).0 == Mright::Member && is_stem) && (forall|
            j: int,
        |
            0 <= j < mods[i].1@.len() ==> submod_urls_ok(
                mods[i].0,
                (#[trigger] mods[i].1@[j]).0,
                mods[i].1@[j].1@,
            )))
}

/// Whether the values of one submodification are acceptable.
fn check_submod_urls(mright: Mright, action: MyMod, urls: &Vec<String>) -> (r: bool)
    ensures
        r == submod_urls_ok(mright, action, urls@),
{
    if action == MyMod::Replace && urls.len() == 1 && mright == Mright::Member {
        proof {
            assert(submod_urls_ok(mright, action, urls@));
        }
        return true;
    }
    let mut k: usize = 0;
    while k < urls.len()
        invariant
            !(action == MyMod::Replace && urls@.len() == 1 && mright == Mright::Member),
            k <= urls@.len(),
            forall|j: int| 0 <= j < k ==> spec_url_to_dn((#[trigger] urls@[j])@) is Some,
        decreases urls@.len() - k,
    {
        if url_to_dn(urls[k].as_str()).is_none() {
            proof {
                assert(spec_url_to_dn((urls@[k as int])@) is None);
                assert(!submod_urls_ok(mright, action, urls@));
            }
            return false;
        }
        k += 1;
    }
    proof {
        assert(submod_urls_ok(mright, action, urls@));
    }
    true
}

/// Check the validity of requested modifications: member modifications are
/// refused on stems, and any value that does not reference a subject by DN
/// is refused unless it is the sole value of a member replacement.
pub fn check_mods(is_stem: bool, my_mods: &UrlMods) -> (r: Result<(), MyErr>)
    ensures
        r is Ok <==> spec_check_mods_ok(is_stem, my_mods@),
        r matches Err(e) ==> e is InvalidMods,
{
    let mut k: usize = 0;
    while k < my_mods.len()
        invariant
            k <= my_mods@.len(),
            forall|i: int|
                0 <= i < k ==> (!((#[trigger] my_mods@[i]).0 == Mright::Member && is_stem) && (
                forall|j: int|
                    0 <= j < my_mods@[i].1@.len() ==> submod_urls_ok(
                        my_mods@[i].0,
                        (#[trigger] my_mods@[i].1@[j]).0,
                        my_mods@[i].1@[j].1@,
                    ))),
        decreases my_mods@.len() - k,
    {
        let (mright, submods) = &my_mods[k];
        if *mright == Mright::Member && is_stem {
            let mut msg = String::new();
            msg.append("members are not allowed for stems");
            return Err(MyErr::InvalidMods(msg));
        }
        let mut j: usize = 0;
        while j < submods.len()
            invariant
                k < my_mods@.len(),
                j <= submods@.len(),
                mright == my_mods@[k as int].0,
                submods == &my_mods@[k as int].1,
                forall|m: int|
                    0 <= m < j ==> submod_urls_ok(
                        my_mods@[k as int].0,
                        (#[trigger] my_mods@[k as int].1@[m]).0,
                        my_mods@[k as int].1@[m].1@,
                    ),
            decreases submods@.len() - j,
        {
            let (action, urls) = &submods[j];
            if !check_submod_urls(*mright, *action, urls) {
                let mut msg = String::new();
                msg.append("non DN URL is not allowed there");
                return Err(MyErr::InvalidMods(msg));
            }
            j += 1;
        }
        k += 1;
    }
    Ok(())
}

/// The effect of one role's submodifications on its direct set: the values
/// added, then the values deleted, then a replacement of the whole set if
/// one was requested.
pub open spec fn spec_apply_submods(
    cur: Set<Seq<char>>,
    add: Set<Seq<char>>,
    del: Set<Seq<char>>,
    repl: Option<Set<Seq<char>>>,
) -> Set<Seq<char>> {
    match repl {
        Some(rset) => rset,
        None => cur.union(add).difference(del),
    }
}

/// Applying the same submodifications twice leaves what one application
/// built: the direct state, and with it the flattened state derived from
/// it, settle after the first application.
pub proof fn lemma_mods_idempotent(
    cur: Set<Seq<char>>,
    add: Set<Seq<char>>,
    del: Set<Seq<char>>,
    repl: Option<Set<Seq<char>>>,
)
    ensures
        spec_apply_submods(spec_apply_submods(cur, add, del, repl), add, del, repl)
            == spec_apply_submods(cur, add, del, repl),
{
    match repl {
        Some(rset) => {},
        None => {
            assert(cur.union(add).difference(del).union(add).difference(del) =~= cur.union(
                add,
            ).difference(del));
        }
    }
}

/// Rewriting a replacement as the additions and deletions that separate it
/// from the current set changes nothing of the outcome.
pub proof fn lemma_simplify_replace_equiv(cur: Set<Seq<char>>, repl: Set<Seq<char>>)
    ensures
        spec_apply_submods(cur, repl.difference(cur), cur.difference(repl), None)
            == spec_apply_submods(cur, Set::empty(), Set::empty(), Some(repl)),
{
    assert(cur.union(repl.difference(cur)).difference(cur.difference(repl)) =~= repl);
}

/// The list of one kind's values among a role's submodifications, or the
/// empty list where the kind does not occur.
pub open spec fn spec_submod_list(
    submods: Seq<(MyMod, DnsOpts)>,
    m: MyMod,
) -> Seq<(Dn, DirectOptions)> {
    let k = first_with_key(submods, m);
    if k is Some {
        submods[k->0].1@
    } else {
        Seq::<(Dn, DirectOptions)>::empty()
    }
}

/// The first position carrying this kind of modification.
pub open spec fn first_with_key(submods: Seq<(MyMod, DnsOpts)>, m: MyMod) -> Option<int>
    decreases submods.len(),
{
    if submods.len() == 0 {
        None
    } else if submods[0].0 == m {
        Some(0)
    } else {
        match first_with_key(submods.drop_first(), m) {
            Some(i) => Some(i + 1),
            None => None,
        }
    }
}

/// The values of one kind among a role's submodifications.
pub fn submod_list(submods: &Vec<(MyMod, DnsOpts)>, m: MyMod) -> (r: DnsOpts)
    ensures
        r@ == spec_submod_list(submods@, m),
{
    let mut k: usize = 0;
    while k < submods.len()
        invariant
            k <= submods@.len(),
            forall|j: int| 0 <= j < k ==> (#[trigger] submods@[j]).0 != m,
        decreases submods@.len() - k,
    {
        if submods[k].0 == m {
            proof {
                lemma_first_with_key(submods@, m);
                match first_with_key(submods@, m) {
                    Some(i) => {
                        if i < k {
                            assert(submods@[i].0 != m);
                        }
                        if i > k {
                            assert(submods@[k as int].0 != m);
                        }
                        assert(i == k);
                    }
                    None => {
                        assert(submods@[k as int].0 != m);
                    }
                }
            }
            return clone_dns_opts(&submods[k].1);
        }
        k += 1;
    }
    proof {
        lemma_first_with_key(submods@, m);
        match first_with_key(submods@, m) {
            Some(i) => {
                assert(submods@[i].0 != m);
            }
            None => {}
        }
    }
    Vec::new()
}

/// `first_with_key` finds an occurrence, the first one, or states there is
/// none.
pub proof fn lemma_first_with_key(submods: Seq<(MyMod, DnsOpts)>, m: MyMod)
    ensures
        match first_with_key(submods, m) {
            Some(i) => 0 <= i < submods.len() && submods[i].0 == m && (forall|j: int|
                0 <= j < i ==> (#[trigger] submods[j]).0 != m),
            None => forall|j: int| 0 <= j < submods.len() ==> (#[trigger] submods[j]).0 != m,
        },
    decreases submods.len(),
{
    if submods.len() > 0 && submods[0].0 != m {
        lemma_first_with_key(submods.drop_first(), m);
        let t = submods.drop_first();
        match first_with_key(t, m) {
            Some(i) => {
                assert(t[i] == submods[i + 1]);
                assert forall|j: int| 0 <= j < i + 1 implies (#[trigger] submods[j]).0 != m by {
                    if j > 0 {
                        assert(t[j - 1] == submods[j]);
                    }
                }
            }
            None => {
                assert forall|j: int| 0 <= j < submods.len() implies (#[trigger] submods[j]).0
                    != m by {
                    if j > 0 {
                        assert(t[j - 1] == submods[j]);
                    }
                }
            }
        }
    }
}

/// A copy of a relation list.
pub fn clone_dns_opts(l: &DnsOpts) -> (r: DnsOpts)
    ensures
        r@ == l@,
{
    let mut r: DnsOpts = Vec::new();
    let mut k: usize = 0;
    while k < l.len()
        invariant
            k <= l@.len(),
            r@ == l@.take(k as int),
        decreases l@.len() - k,
    {
        let copy = (Dn(l[k].0.0.clone()), clone_options(&l[k].1));
        proof {
            assert(copy == l@[k as int]);
            assert(l@.take(k as int).push(l@[k as int]) =~= l@.take(k + 1));
        }
        r.push(copy);
        k += 1;
    }
    proof {
        assert(l@.take(l@.len() as int) =~= l@);
    }
    r
}

} // verus!
