use vstd::prelude::*;
use vstd::string::StrSliceExecFns;

use crate::config::{spec_sgroup_id_to_dn, LdapConfig};
use crate::helpers::str_eq;
use crate::mods::{dn_set, dns_of};
use crate::naming::{spec_is_stem, spec_parent_stems, valid_sgroup_id};
use crate::types::{DirectOptions, Dn, DnsOpts, MonoAttrs, Mright};

verus! {

/// The four direct relation sets of one entry.
pub struct DirectSets {
    pub member: DnsOpts,
    pub reader: DnsOpts,
    pub updater: DnsOpts,
    pub admin: DnsOpts,
}

/// The four flattened relation sets of one entry.
pub struct FlatSets {
    pub member: Vec<Dn>,
    pub reader: Vec<Dn>,
    pub updater: Vec<Dn>,
    pub admin: Vec<Dn>,
}

impl DirectSets {
    /// The direct set of a role.
    pub open spec fn spec_get(&self, m: Mright) -> Seq<(Dn, DirectOptions)> {
        match m {
            Mright::Member => self.member@,
            Mright::Reader => self.reader@,
            Mright::Updater => self.updater@,
            Mright::Admin => self.admin@,
        }
    }

    /// The direct set of a role.
    pub fn get<'a>(&'a self, m: Mright) -> (r: &'a DnsOpts)
        ensures
            r@ == self.spec_get(m),
    {
        match m {
            Mright::Member => &self.member,
            Mright::Reader => &self.reader,
            Mright::Updater => &self.updater,
            Mright::Admin => &self.admin,
        }
    }

    /// Replace the direct set of a role.
    pub fn set(&mut self, m: Mright, v: DnsOpts)
        ensures
            final(self).spec_get(m) == v@,
            forall|m2: Mright| m2 != m ==> final(self).spec_get(m2) == old(self).spec_get(m2),
    {
        match m {
            Mright::Member => {
                self.member = v;
            }
            Mright::Reader => {
                self.reader = v;
            }
            Mright::Updater => {
                self.updater = v;
            }
            Mright::Admin => {
                self.admin = v;
            }
        }
    }

    /// Four empty direct sets.
    pub fn new() -> (r: DirectSets)
        ensures
            forall|m: Mright| #[trigger] r.spec_get(m) == Seq::<(Dn, DirectOptions)>::empty(),
    {
        DirectSets { member: Vec::new(), reader: Vec::new(), updater: Vec::new(), admin: Vec::new() }
    }
}

impl FlatSets {
    /// The flattened set of a role.
    pub open spec fn spec_get(&self, m: Mright) -> Seq<Dn> {
        match m {
            Mright::Member => self.member@,
            Mright::Reader => self.reader@,
            Mright::Updater => self.updater@,
            Mright::Admin => self.admin@,
        }
    }

    /// The flattened set of a role.
    pub fn get<'a>(&'a self, m: Mright) -> (r: &'a Vec<Dn>)
        ensures
            r@ == self.spec_get(m),
    {
        match m {
            Mright::Member => &self.member,
            Mright::Reader => &self.reader,
            Mright::Updater => &self.updater,
            Mright::Admin => &self.admin,
        }
    }

    /// Replace the flattened set of a role.
    pub fn set(&mut self, m: Mright, v: Vec<Dn>)
        ensures
            final(self).spec_get(m) == v@,
            forall|m2: Mright| m2 != m ==> final(self).spec_get(m2) == old(self).spec_get(m2),
    {
        match m {
            Mright::Member => {
                self.member = v;
            }
            Mright::Reader => {
                self.reader = v;
            }
            Mright::Updater => {
                self.updater = v;
            }
            Mright::Admin => {
                self.admin = v;
            }
        }
    }

    /// Four empty flattened sets.
    pub fn new() -> (r: FlatSets)
        ensures
            forall|m: Mright| #[trigger] r.spec_get(m) == Seq::<Dn>::empty(),
    {
        FlatSets { member: Vec::new(), reader: Vec::new(), updater: Vec::new(), admin: Vec::new() }
    }
}

/// One group or stem held in the directory: its identifier, attributes,
/// direct relation sets and derived flattened sets.
pub struct SgroupEntry {
    pub id: String,
    pub attrs: MonoAttrs,
    pub direct: DirectSets,
    pub flattened: FlatSets,
}

/// The state of the directory server restricted to the groups branch: one
/// entry per group or stem.
pub struct Directory {
    pub entries: Vec<SgroupEntry>,
}

/// The position of the entry with this identifier, if present.
pub open spec fn spec_find_entry(entries: Seq<SgroupEntry>, id: Seq<char>) -> Option<int>
    decreases entries.len(),
{
    if entries.len() == 0 {
        None
    } else if entries[0].id@ == id {
        Some(0)
    } else {
        match spec_find_entry(entries.drop_first(), id) {
            Some(i) => Some(i + 1),
            None => None,
        }
    }
}

/// `spec_find_entry` finds the first entry carrying the identifier, and
/// `None` only when none carries it.
pub proof fn lemma_find_entry(entries: Seq<SgroupEntry>, id: Seq<char>)
    ensures
        match spec_find_entry(entries, id) {
            Some(i) => 0 <= i < entries.len() && entries[i].id@ == id && (forall|j: int|
                0 <= j < i ==> (#[trigger] entries[j]).id@ != id),
            None => forall|j: int| 0 <= j < entries.len() ==> (#[trigger] entries[j]).id@ != id,
        },
    decreases entries.len(),
{
    if entries.len() > 0 && entries[0].id@ != id {
        lemma_find_entry(entries.drop_first(), id);
        let t = entries.drop_first();
        match spec_find_entry(t, id) {
            Some(i) => {
                assert(t[i] == entries[i + 1]);
                assert forall|j: int| 0 <= j < i + 1 implies (#[trigger] entries[j]).id@ != id by {
                    if j > 0 {
                        assert(t[j - 1] == entries[j]);
                    }
                }
            }
            None => {
                assert forall|j: int|
                    0 <= j < entries.len() implies (#[trigger] entries[j]).id@ != id by {
                    if j > 0 {
                        assert(t[j - 1] == entries[j]);
                    }
                }
            }
        }
    }
}

/// Whether an entry with this identifier exists.
pub open spec fn spec_has_entry(entries: Seq<SgroupEntry>, id: Seq<char>) -> bool {
    spec_find_entry(entries, id) is Some
}

impl Directory {
    /// The position of the entry with this identifier, if present.
    pub fn find_entry(&self, id: &str) -> (r: Option<usize>)
        ensures
            match r {
                Some(i) => spec_find_entry(self.entries@, id@) == Some(i as int),
                None => spec_find_entry(self.entries@, id@) is None,
            },
    {
        let mut k: usize = 0;
        while k < self.entries.len()
            invariant
                k <= self.entries@.len(),
                forall|j: int| 0 <= j < k ==> (#[trigger] self.entries@[j]).id@ != id@,
            decreases self.entries@.len() - k,
        {
            if str_eq(self.entries[k].id.as_str(), id) {
                proof {
                    lemma_find_entry(self.entries@, id@);
                    match spec_find_entry(self.entries@, id@) {
                        Some(i) => {
                            if i < k {
                                assert(self.entries@[i].id@ != id@);
                            }
                            if i > k {
                                assert(self.entries@[k as int].id@ != id@);
                            }
                        }
                        None => {
                            assert(self.entries@[k as int].id@ != id@);
                        }
                    }
                }
                return Some(k);
            }
            k += 1;
        }
        proof {
            lemma_find_entry(self.entries@, id@);
            match spec_find_entry(self.entries@, id@) {
                Some(i) => {
                    assert(self.entries@[i].id@ != id@);
                }
                None => {}
            }
        }
        None
    }

    /// Whether an entry with this identifier exists.
    pub fn has_entry(&self, id: &str) -> (r: bool)
        ensures
            r == spec_has_entry(self.entries@, id@),
    {
        self.find_entry(id).is_some()
    }

    /// The invariants the write interface preserves: identifiers are unique
    /// and valid, a stem holds no direct member and no flattened member, and
    /// every entry's ancestor stems all exist.
    pub open spec fn wf(&self) -> bool {
        wf_entries(self.entries@)
    }
}

/// The invariants of a directory state: identifiers are unique and valid, a
/// stem holds no direct member and no flattened member, every entry's
/// ancestor stems all exist, and a direct set holds each DN once.
pub open spec fn wf_entries(entries: Seq<SgroupEntry>) -> bool {
    &&& (forall|i: int, j: int|
        0 <= i < j < entries.len() ==> (#[trigger] entries[i]).id@ != (#[trigger] entries[j]).id@)
    &&& (forall|i: int| 0 <= i < entries.len() ==> valid_sgroup_id((#[trigger] entries[i]).id@))
    &&& (forall|i: int|
        0 <= i < entries.len() && spec_is_stem((#[trigger] entries[i]).id@)
            ==> entries[i].direct.spec_get(Mright::Member) == Seq::<(Dn, DirectOptions)>::empty()
            && entries[i].flattened.spec_get(Mright::Member) == Seq::<Dn>::empty())
    &&& (forall|i: int, k: int|
        0 <= i < entries.len() && 0 <= k < spec_parent_stems(entries[i].id@).len()
            ==> spec_has_entry(
            entries,
            #[trigger] spec_parent_stems((#[trigger] entries[i]).id@)[k],
        ))
    &&& (forall|i: int, m: Mright|
        0 <= i < entries.len() ==> crate::mods::dns_unique(
            #[trigger] entries[i].direct.spec_get(m),
        ))
}

/// An entry with an identifier exists exactly when some position carries it.
pub proof fn lemma_has_entry_exists(entries: Seq<SgroupEntry>, id: Seq<char>)
    ensures
        spec_has_entry(entries, id) <==> (exists|j: int|
            0 <= j < entries.len() && (#[trigger] entries[j]).id@ == id),
{
    lemma_find_entry(entries, id);
    match spec_find_entry(entries, id) {
        Some(i) => {
            assert(entries[i].id@ == id);
        }
        None => {}
    }
}

/// Which identifiers exist depends on the identifiers alone.
pub proof fn lemma_has_entry_same_ids(s1: Seq<SgroupEntry>, s2: Seq<SgroupEntry>)
    requires
        s1.len() == s2.len(),
        forall|i: int| 0 <= i < s1.len() ==> (#[trigger] s1[i]).id@ == (#[trigger] s2[i]).id@,
    ensures
        forall|x: Seq<char>| #[trigger] spec_has_entry(s1, x) == spec_has_entry(s2, x),
{
    assert forall|x: Seq<char>| #[trigger] spec_has_entry(s1, x) == spec_has_entry(s2, x) by {
        lemma_has_entry_exists(s1, x);
        lemma_has_entry_exists(s2, x);
        if exists|j: int| 0 <= j < s1.len() && (#[trigger] s1[j]).id@ == x {
            let j = choose|j: int| 0 <= j < s1.len() && (#[trigger] s1[j]).id@ == x;
            assert(s2[j].id@ == x);
        }
        if exists|j: int| 0 <= j < s2.len() && (#[trigger] s2[j]).id@ == x {
            let j = choose|j: int| 0 <= j < s2.len() && (#[trigger] s2[j]).id@ == x;
            assert(s1[j].id@ == x);
        }
    }
}

/// The set a flattened role must equal: the direct DNs of the role,
/// together with the flattened members of every group among them.
pub open spec fn spec_closure_rhs(
    dir: &Directory,
    cfg: &LdapConfig,
    direct: Seq<(Dn, DirectOptions)>,
) -> Set<Seq<char>> {
    Set::new(
        |d: Seq<char>|
            dns_of(direct).contains(d) || (exists|h: Seq<char>|
                #[trigger] dns_of(direct).contains(h) && spec_flat_member_of(dir, cfg, h).contains(
                    d,
                )),
    )
}

/// The flattened member DNs of the group or stem a DN names, or the empty
/// set for any DN that names no entry of the directory.
pub open spec fn spec_flat_member_of(dir: &Directory, cfg: &LdapConfig, dn: Seq<char>) -> Set<
    Seq<char>,
> {
    Set::new(
        |d: Seq<char>|
            exists|i: int|
                0 <= i < dir.entries@.len() && spec_sgroup_id_to_dn(
                    cfg.groups_dn@,
                    (#[trigger] dir.entries@[i]).id@,
                ) == dn && dn_set(dir.entries@[i].flattened.spec_get(Mright::Member)).contains(d),
    )
}

/// Two identifiers with the same entry DN are the same identifier.
pub proof fn lemma_sgroup_dn_injective(g: Seq<char>, a: Seq<char>, b: Seq<char>)
    requires
        spec_sgroup_id_to_dn(g, a) == spec_sgroup_id_to_dn(g, b),
    ensures
        a == b,
{
    let da = spec_sgroup_id_to_dn(g, a);
    let db = spec_sgroup_id_to_dn(g, b);
    if a.len() == 0 && b.len() == 0 {
        assert(a =~= b);
    } else if a.len() == 0 {
        assert(db.len() == 4 + b.len() + g.len());
        assert(da.len() == g.len());
    } else if b.len() == 0 {
        assert(da.len() == 4 + a.len() + g.len());
        assert(db.len() == g.len());
    } else {
        assert(da.len() == 4 + a.len() + g.len());
        assert(db.len() == 4 + b.len() + g.len());
        assert(a.len() == b.len());
        assert forall|i: int| 0 <= i < a.len() implies a[i] == b[i] by {
            assert(da[3 + i] == a[i]);
            assert(db[3 + i] == b[i]);
        }
        assert(a =~= b);
    }
}


/// A stem never carries members: under the directory invariants its direct
/// member set is empty and its flattened member set holds nothing.
pub proof fn lemma_stems_have_no_members(dir: &Directory, i: int)
    requires
        dir.wf(),
        0 <= i < dir.entries@.len(),
        spec_is_stem(dir.entries@[i].id@),
    ensures
        dir.entries@[i].direct.spec_get(Mright::Member) == Seq::<(Dn, DirectOptions)>::empty(),
        dir.entries@[i].flattened.spec_get(Mright::Member) == Seq::<Dn>::empty(),
{
}

} // verus!
