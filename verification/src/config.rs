use vstd::prelude::*;
use vstd::string::StrSliceExecFns;

use crate::helpers::{
    ends_with, replace_all, spec_ends_with, spec_replace_all, spec_starts_with, str_eq,
    strip_prefix, strip_suffix,
};
use crate::ldap_filter;
use crate::naming::{spec_is_stem, StemConfig};
use crate::types::{Dn, LoggedUser, Mright, MyErr, MonoAttrs, Right};

verus! {

/// Configuration of the single-sign-on ticket validator.
pub struct CasConfig {
    pub prefix_url: String,
}

/// Label and description of one configured attribute.
pub struct AttrTexts {
    pub label: String,
    pub description: String,
}

/// A configured subject source: a directory branch with its search filter
/// template and display attributes.
pub struct SubjectSourceConfig {
    pub dn: Dn,
    pub name: String,
    pub vue_template: Option<String>,
    pub vue_template_if_ambiguous: Option<String>,
    pub display_attrs: Vec<String>,
    pub id_attrs: Option<Vec<String>>,
    pub search_filter: String,
}

/// The flattened attribute of one subject source.
pub struct SubjectSourceFlattenConfig {
    pub attr: String,
}

impl SubjectSourceConfig {
    /// The source's search filter with the token substituted for `%TERM%`
    /// and every space removed.
    pub fn search_filter_(&self, term: &str) -> (r: String)
        ensures
            r@ == spec_replace_all(
                spec_replace_all(self.search_filter@, "%TERM%"@, term@),
                " "@,
                Seq::<char>::empty(),
            ),
    {
        proof {
            reveal_strlit("%TERM%");
            reveal_strlit(" ");
            reveal_strlit("");
            assert(""@ =~= Seq::<char>::empty());
        }
        let substituted = replace_all(self.search_filter.as_str(), "%TERM%", term);
        replace_all(substituted.as_str(), " ", "")
    }
}

/// The directory attribute holding the flattened set of each role: a total
/// table, so that no role can be left without one.
pub struct FlattenedAttrs {
    pub member: String,
    pub reader: String,
    pub updater: String,
    pub admin: String,
}

impl FlattenedAttrs {
    /// The attribute recorded for a role.
    pub open spec fn spec_get(&self, mright: Mright) -> Seq<char> {
        match mright {
            Mright::Member => self.member@,
            Mright::Reader => self.reader@,
            Mright::Updater => self.updater@,
            Mright::Admin => self.admin@,
        }
    }
}

/// Configuration of the directory: where groups and people live, the schema
/// of both, and the subject sources.
pub struct LdapConfig {
    pub url: String,
    pub bind_dn: Dn,
    pub bind_password: String,
    pub base_dn: Dn,
    pub groups_dn: Dn,
    pub stem_object_classes: Vec<String>,
    pub group_object_classes: Vec<String>,
    pub sgroup_filter: Option<String>,
    pub stem: StemConfig,
    pub subject_sources: Vec<SubjectSourceConfig>,
    pub groups_flattened_attr: FlattenedAttrs,
    pub sgroup_attrs: Vec<(String, AttrTexts)>,
}

/// The configuration slice shown to interactive clients.
pub struct LdapConfigOut<'a> {
    pub groups_dn: &'a Dn,
    pub subject_sources: &'a Vec<SubjectSourceConfig>,
}

/// The DN of the entry holding a group or stem.
pub open spec fn spec_sgroup_id_to_dn(groups_dn: Seq<char>, id: Seq<char>) -> Seq<char> {
    if id.len() == 0 {
        groups_dn
    } else {
        seq!['c', 'n', '='] + id + seq![','] + groups_dn
    }
}

/// The identifier of the group or stem an entry DN stands for, if it is one.
pub open spec fn spec_dn_to_sgroup_id(groups_dn: Seq<char>, dn: Seq<char>) -> Option<Seq<char>> {
    if dn == groups_dn {
        Some(Seq::<char>::empty())
    } else if spec_ends_with(dn, seq![','] + groups_dn) {
        let body = dn.subrange(0, dn.len() - groups_dn.len() - 1);
        if spec_starts_with(body, seq!['c', 'n', '=']) {
            Some(body.subrange(3, body.len() as int))
        } else {
            None
        }
    } else {
        None
    }
}

impl LdapConfig {
    /// The whole configuration is over the hierarchy of `StemConfig`.
    pub open spec fn wf(&self) -> bool {
        self.stem.wf()
    }

    /// The DN of the entry holding a group or stem: the groups base itself
    /// for the root stem, a `cn=` entry under it otherwise.
    pub fn sgroup_id_to_dn(&self, cn: &str) -> (r: Dn)
        requires
            self.wf(),
        ensures
            r@ == spec_sgroup_id_to_dn(self.groups_dn@, cn@),
    {
        proof {
            reveal_strlit("cn=");
            reveal_strlit(",");
            assert("cn="@ =~= seq!['c', 'n', '=']);
            assert(","@ =~= seq![',']);
        }
        if cn.unicode_len() == 0 {
            Dn(self.groups_dn.0.clone())
        } else {
            let mut r = String::new();
            r.append("cn=");
            r.append(cn);
            r.append(",");
            r.append(self.groups_dn.0.as_str());
            proof {
                assert(r@ =~= spec_sgroup_id_to_dn(self.groups_dn@, cn@));
            }
            Dn(r)
        }
    }

    /// The DN of a person entry under the configured people branch.
    pub fn people_id_to_dn(&self, cn: &str) -> (r: Dn)
        ensures
            r@ == seq!['u', 'i', 'd', '='] + cn@ + ",ou=people,"@ + self.base_dn@,
    {
        proof {
            reveal_strlit("uid=");
            reveal_strlit(",ou=people,");
            assert("uid="@ =~= seq!['u', 'i', 'd', '=']);
        }
        let mut r = String::new();
        r.append("uid=");
        r.append(cn);
        r.append(",ou=people,");
        r.append(self.base_dn.0.as_str());
        proof {
            assert(r@ =~= seq!['u', 'i', 'd', '='] + cn@ + ",ou=people,"@ + self.base_dn@);
        }
        Dn(r)
    }

    /// The identifier of the group or stem this DN stands for, if it is one.
    pub fn dn_to_sgroup_id(&self, dn: &str) -> (r: Option<String>)
        ensures
            match r {
                Some(id) => spec_dn_to_sgroup_id(self.groups_dn@, dn@) == Some(id@),
                None => spec_dn_to_sgroup_id(self.groups_dn@, dn@) is None,
            },
    {
        proof {
            reveal_strlit("cn=");
            reveal_strlit(",");
            assert("cn="@ =~= seq!['c', 'n', '=']);
            assert(","@ =~= seq![',']);
        }
        if str_eq(dn, self.groups_dn.0.as_str()) {
            proof {
                reveal_strlit("");
                assert(""@ =~= Seq::<char>::empty());
            }
            let r = String::new();
            return Some(r);
        }
        let rest = match strip_suffix(dn, self.groups_dn.0.as_str()) {
            Some(t) => t,
            None => {
                proof {
                    lemma_strip_two(dn@, self.groups_dn@);
                }
                return None;
            },
        };
        let body = match strip_suffix(rest, ",") {
            Some(t) => t,
            None => {
                proof {
                    lemma_strip_two(dn@, self.groups_dn@);
                    if rest@.len() > 0 && rest@.last() == ',' {
                        assert(rest@.subrange(rest@.len() - 1, rest@.len() as int) =~= seq![',']);
                    }
                }
                return None;
            },
        };
        proof {
            assert(rest@.last() == rest@.subrange(rest@.len() - 1, rest@.len() as int)[0]);
            lemma_strip_two(dn@, self.groups_dn@);
            assert(body@ =~= dn@.subrange(0, dn@.len() - self.groups_dn@.len() - 1));
        }
        match strip_prefix(body, "cn=") {
            Some(id) => Some(id.to_owned()),
            None => None,
        }
    }

    /// As `dn_to_sgroup_id`, on a typed DN.
    pub fn dn_to_sgroup_id_(&self, dn: &Dn) -> (r: Option<String>)
        ensures
            match r {
                Some(id) => spec_dn_to_sgroup_id(self.groups_dn@, dn@) == Some(id@),
                None => spec_dn_to_sgroup_id(self.groups_dn@, dn@) is None,
            },
    {
        self.dn_to_sgroup_id(dn.0.as_str())
    }

    /// Whether this DN lies under the groups base.
    pub fn dn_is_sgroup(&self, dn: &Dn) -> (r: bool)
        ensures
            r == spec_ends_with(dn@, self.groups_dn@),
    {
        ends_with(dn.0.as_str(), self.groups_dn.0.as_str())
    }

    /// The first configured subject source whose branch contains this DN.
    pub fn dn_to_subject_source_cfg<'a>(&'a self, dn: &Dn) -> (r: Option<&'a SubjectSourceConfig>)
        ensures
            match r {
                Some(sscfg) => exists|k: int|
                    0 <= k < self.subject_sources@.len() && sscfg == &self.subject_sources@[k]
                        && spec_ends_with(dn@, #[trigger] self.subject_sources@[k].dn@) && (forall|
                        j: int,
                    |
                        0 <= j < k ==> !spec_ends_with(dn@, #[trigger] self.subject_sources@[j].dn@)),
                None => forall|j: int|
                    0 <= j < self.subject_sources@.len() ==> !spec_ends_with(
                        dn@,
                        #[trigger] self.subject_sources@[j].dn@,
                    ),
            },
    {
        let mut k: usize = 0;
        while k < self.subject_sources.len()
            invariant
                k <= self.subject_sources@.len(),
                forall|j: int|
                    0 <= j < k ==> !spec_ends_with(dn@, #[trigger] self.subject_sources@[j].dn@),
            decreases self.subject_sources@.len() - k,
        {
            let sscfg = &self.subject_sources[k];
            if ends_with(dn.0.as_str(), sscfg.dn.0.as_str()) {
                proof {
                    assert(spec_ends_with(dn@, self.subject_sources@[k as int].dn@));
                }
                return Some(sscfg);
            }
            k += 1;
        }
        None
    }

    /// The first configured subject source for the groups branch itself,
    /// if one is configured.
    pub fn sgroup_sscfg_raw<'a>(&'a self) -> (r: Option<&'a SubjectSourceConfig>)
        ensures
            match r {
                Some(sscfg) => exists|k: int|
                    0 <= k < self.subject_sources@.len() && sscfg == &self.subject_sources@[k]
                        && #[trigger] self.subject_sources@[k].dn@ == self.groups_dn@,
                None => forall|j: int|
                    0 <= j < self.subject_sources@.len()
                        ==> #[trigger] self.subject_sources@[j].dn@ != self.groups_dn@,
            },
    {
        let mut k: usize = 0;
        while k < self.subject_sources.len()
            invariant
                k <= self.subject_sources@.len(),
                forall|j: int|
                    0 <= j < k ==> #[trigger] self.subject_sources@[j].dn@ != self.groups_dn@,
            decreases self.subject_sources@.len() - k,
        {
            let sscfg = &self.subject_sources[k];
            if str_eq(sscfg.dn.0.as_str(), self.groups_dn.0.as_str()) {
                proof {
                    assert(self.subject_sources@[k as int].dn@ == self.groups_dn@);
                }
                return Some(sscfg);
            }
            k += 1;
        }
        None
    }

    /// Whether a subject source is configured for the groups branch, as the
    /// startup check demands.
    pub open spec fn has_sgroup_sscfg(&self) -> bool {
        exists|k: int|
            0 <= k < self.subject_sources@.len() && #[trigger] self.subject_sources@[k].dn@
                == self.groups_dn@
    }

    /// The subject source of the groups branch; the startup check has
    /// ensured there is one.
    pub fn sgroup_sscfg<'a>(&'a self) -> (r: &'a SubjectSourceConfig)
        requires
            self.has_sgroup_sscfg(),
        ensures
            r.dn@ == self.groups_dn@,
    {
        match self.sgroup_sscfg_raw() {
            Some(sscfg) => sscfg,
            None => {
                proof {
                    assert(false);
                }
                &self.subject_sources[0]
            },
        }
    }

    /// The configuration slice shown to interactive clients.
    pub fn to_js_ui<'a>(&'a self) -> (r: LdapConfigOut<'a>)
        ensures
            r.groups_dn == &self.groups_dn,
            r.subject_sources == &self.subject_sources,
    {
        LdapConfigOut { groups_dn: &self.groups_dn, subject_sources: &self.subject_sources }
    }

    /// The directory attribute holding the flattened set of a role.
    pub fn to_flattened_attr<'a>(&'a self, mright: Mright) -> (r: &'a str)
        ensures
            r@ == self.groups_flattened_attr.spec_get(mright),
    {
        match mright {
            Mright::Member => self.groups_flattened_attr.member.as_str(),
            Mright::Reader => self.groups_flattened_attr.reader.as_str(),
            Mright::Updater => self.groups_flattened_attr.updater.as_str(),
            Mright::Admin => self.groups_flattened_attr.admin.as_str(),
        }
    }

    /// Whether an attribute key belongs to the configured vocabulary.
    pub open spec fn spec_is_sgroup_attr(&self, key: Seq<char>) -> bool {
        exists|k: int|
            0 <= k < self.sgroup_attrs@.len() && #[trigger] self.sgroup_attrs@[k].0@ == key
    }

    /// Whether an attribute key belongs to the configured vocabulary.
    pub fn is_sgroup_attr(&self, key: &str) -> (r: bool)
        ensures
            r == self.spec_is_sgroup_attr(key@),
    {
        let mut k: usize = 0;
        while k < self.sgroup_attrs.len()
            invariant
                k <= self.sgroup_attrs@.len(),
                forall|j: int| 0 <= j < k ==> #[trigger] self.sgroup_attrs@[j].0@ != key@,
            decreases self.sgroup_attrs@.len() - k,
        {
            if str_eq(self.sgroup_attrs[k].0.as_str(), key) {
                return true;
            }
            k += 1;
        }
        false
    }

    /// Accept a set of attributes exactly when every key belongs to the
    /// configured vocabulary.
    pub fn validate_sgroups_attrs(&self, attrs: &MonoAttrs) -> (r: Result<(), MyErr>)
        ensures
            r is Ok <==> (forall|i: int|
                0 <= i < attrs@.len() ==> self.spec_is_sgroup_attr(#[trigger] attrs@[i].0@)),
            r matches Err(e) ==> e is InvalidAttrs,
    {
        let mut i: usize = 0;
        while i < attrs.len()
            invariant
                i <= attrs@.len(),
                forall|j: int| 0 <= j < i ==> self.spec_is_sgroup_attr(#[trigger] attrs@[j].0@),
            decreases attrs@.len() - i,
        {
            if !self.is_sgroup_attr(attrs[i].0.as_str()) {
                let mut msg = String::new();
                msg.append("sgroup attr ");
                msg.append(attrs[i].0.as_str());
                msg.append(" is not listed in conf [ldap.sgroup_attrs]");
                return Err(MyErr::InvalidAttrs(msg));
            }
            i += 1;
        }
        Ok(())
    }

    /// The filter matching the groups on which a user's own DN carries one
    /// of the rights that grant `right`, via the flattened role attributes.
    pub fn user_has_direct_right_on_group_filter(&self, user_dn: &Dn, right: &Right) -> (r: String)
        ensures
            r@ == ldap_filter::spec_or(
                right.spec_allowed_rights().map_values(
                    |rr: Right|
                        ldap_filter::spec_eq(
                            self.groups_flattened_attr.spec_get(rr.spec_to_mright()),
                            user_dn@,
                        ),
                ),
            ),
    {
        let allowed = right.to_allowed_rights();
        let mut filters: Vec<String> = Vec::new();
        let mut k: usize = 0;
        while k < allowed.len()
            invariant
                k <= allowed@.len(),
                filters@.len() == k,
                forall|j: int|
                    0 <= j < k ==> #[trigger] filters@[j]@ == ldap_filter::spec_eq(
                        self.groups_flattened_attr.spec_get(allowed@[j].spec_to_mright()),
                        user_dn@,
                    ),
            decreases allowed@.len() - k,
        {
            let rr = allowed[k];
            filters.push(ldap_filter::eq(self.to_flattened_attr(rr.to_mright()), user_dn.0.as_str()));
            k += 1;
        }
        let r = ldap_filter::or(filters);
        proof {
            assert(filters@.map_values(|s: String| s@) =~~= right.spec_allowed_rights().map_values(
                |rr: Right|
                    ldap_filter::spec_eq(
                        self.groups_flattened_attr.spec_get(rr.spec_to_mright()),
                        user_dn@,
                    ),
            ));
        }
        r
    }

    /// The filter matching the entry of one group or stem: the structural
    /// class of the root stem, or the `cn` of any other identifier.
    pub fn sgroup_filter(&self, id: &str) -> (r: String)
        ensures
            id@.len() == 0 ==> r@ == "(objectClass=organizationalUnit)"@,
            id@.len() > 0 ==> r@ == ldap_filter::spec_eq("cn"@, id@),
    {
        if id.unicode_len() == 0 {
            let r = String::new();
            r.concat("(objectClass=organizationalUnit)")
        } else {
            ldap_filter::eq("cn", id)
        }
    }
}

/// Stripping a suffix and then one more character splits off exactly that
/// suffix with the separator.
proof fn lemma_strip_two(dn: Seq<char>, base: Seq<char>)
    ensures
        spec_ends_with(dn, seq![','] + base) <==> (spec_ends_with(dn, base) && dn.len() > base.len()
            && dn.subrange(0, dn.len() - base.len()).last() == ','),
        spec_ends_with(dn, seq![','] + base) ==> dn.subrange(0, dn.len() - base.len()).drop_last()
            =~= dn.subrange(0, dn.len() - base.len() - 1),
{
    let pat = seq![','] + base;
    if spec_ends_with(dn, pat) {
        assert(dn.subrange(dn.len() - pat.len(), dn.len() as int) == pat);
        assert forall|k: int|
            0 <= k < base.len() implies #[trigger] dn.subrange(
            dn.len() - base.len(),
            dn.len() as int,
        )[k] == base[k] by {
            assert(dn.subrange(dn.len() - pat.len(), dn.len() as int)[k + 1] == pat[k + 1]);
            assert(pat[k + 1] == base[k]);
            assert(dn.subrange(dn.len() - pat.len(), dn.len() as int)[k + 1] == dn[dn.len()
                - pat.len() + k + 1]);
            assert(dn.len() - pat.len() + k + 1 == dn.len() - base.len() + k);
        }
        assert(dn.subrange(dn.len() - base.len(), dn.len() as int) =~= base);
        assert(dn.subrange(0, dn.len() - base.len()).last() == dn[dn.len() - base.len() - 1]);
        assert(dn.subrange(dn.len() - pat.len(), dn.len() as int)[0] == pat[0]);
        assert(dn[dn.len() - base.len() - 1] == pat[0]);
        assert(dn.subrange(0, dn.len() - base.len()).drop_last() =~= dn.subrange(
            0,
            dn.len() - base.len() - 1,
        ));
    }
    if spec_ends_with(dn, base) && dn.len() > base.len() && dn.subrange(
        0,
        dn.len() - base.len(),
    ).last() == ',' {
        assert(dn.subrange(dn.len() - base.len(), dn.len() as int) == base);
        assert forall|m: int| 0 <= m < base.len() implies dn[dn.len() - base.len() + m] == base[m] by {
            assert(dn.subrange(dn.len() - base.len(), dn.len() as int)[m] == base[m]);
        }
        assert(dn[dn.len() - base.len() - 1] == dn.subrange(0, dn.len() - base.len()).last());
        assert(dn.subrange(dn.len() - pat.len(), dn.len() as int) =~= pat);
    }
}

/// Configuration of one SQL remote.
pub struct RemoteConfig {
    pub host: String,
    pub port: Option<u16>,
    pub driver: crate::types::RemoteDriver,
    pub db_name: String,
    pub user: String,
    pub password: String,
    pub periodicity: String,
}

/// The whole configuration, read once at startup.
pub struct Config {
    pub trusted_auth_bearer: Option<String>,
    pub log_dir: Option<String>,
    pub cas: CasConfig,
    pub ldap: LdapConfig,
    pub remotes: Vec<(String, RemoteConfig)>,
}

impl Config {
    /// The configuration of a named remote, if one is configured.
    pub fn get_remote<'a>(&'a self, name: &str) -> (r: Option<&'a RemoteConfig>)
        ensures
            match r {
                Some(cfg) => exists|k: int|
                    0 <= k < self.remotes@.len() && #[trigger] self.remotes@[k].0@ == name@ && cfg
                        == &self.remotes@[k].1,
                None => forall|j: int|
                    0 <= j < self.remotes@.len() ==> #[trigger] self.remotes@[j].0@ != name@,
            },
    {
        let mut k: usize = 0;
        while k < self.remotes.len()
            invariant
                k <= self.remotes@.len(),
                forall|j: int| 0 <= j < k ==> #[trigger] self.remotes@[j].0@ != name@,
            decreases self.remotes@.len() - k,
        {
            if str_eq(self.remotes[k].0.as_str(), name) {
                return Some(&self.remotes[k].1);
            }
            k += 1;
        }
        None
    }
}

/// The configuration together with the caller of one request.
pub struct CfgAndLU<'a> {
    pub cfg: &'a Config,
    pub user: LoggedUser,
}


/// The equality filters of one direct attribute against each identity URL.
pub open spec fn spec_attr_url_filters(attr: Seq<char>, urls: Seq<String>) -> Seq<Seq<char>>
    decreases urls.len(),
{
    if urls.len() == 0 {
        Seq::<Seq<char>>::empty()
    } else {
        spec_attr_url_filters(attr, urls.drop_last()).push(
            ldap_filter::spec_eq(attr, urls.last()@),
        )
    }
}

/// The filters of every allowed right's direct attribute against each
/// identity URL.
pub open spec fn spec_rights_url_filters(rights: Seq<Right>, urls: Seq<String>) -> Seq<Seq<char>>
    decreases rights.len(),
{
    if rights.len() == 0 {
        Seq::<Seq<char>>::empty()
    } else {
        spec_rights_url_filters(rights.drop_last(), urls) + spec_attr_url_filters(
            rights.last().spec_to_mright().spec_attr(),
            urls,
        )
    }
}

/// The filter matching the groups and stems on which one of the caller's
/// identity URLs carries one of the rights that grant `right`, via the
/// direct role attributes.
pub fn user_has_right_on_sgroup_filter(user_urls: &Vec<String>, right: &Right) -> (r: String)
    ensures
        r@ == ldap_filter::spec_or(
            spec_rights_url_filters(right.spec_allowed_rights(), user_urls@),
        ),
{
    let allowed = right.to_allowed_rights();
    let mut filters: Vec<String> = Vec::new();
    let mut k: usize = 0;
    proof {
        assert(allowed@.take(0) =~= Seq::<Right>::empty());
        assert(filters@.map_values(|s: String| s@) =~= spec_rights_url_filters(
            allowed@.take(0),
            user_urls@,
        ));
    }
    while k < allowed.len()
        invariant
            allowed@ == right.spec_allowed_rights(),
            k <= allowed@.len(),
            filters@.map_values(|s: String| s@) == spec_rights_url_filters(
                allowed@.take(k as int),
                user_urls@,
            ),
        decreases allowed@.len() - k,
    {
        let attr = allowed[k].to_attr();
        let mut j: usize = 0;
        proof {
            assert(user_urls@.take(0) =~= Seq::<String>::empty());
            assert(filters@.map_values(|s: String| s@) + spec_attr_url_filters(
                attr@,
                user_urls@.take(0),
            ) =~= filters@.map_values(|s: String| s@));
        }
        let ghost base = filters@.map_values(|s: String| s@);
        while j < user_urls.len()
            invariant
                k < allowed@.len(),
                attr@ == allowed@[k as int].spec_to_mright().spec_attr(),
                j <= user_urls@.len(),
                filters@.map_values(|s: String| s@) == base + spec_attr_url_filters(
                    attr@,
                    user_urls@.take(j as int),
                ),
            decreases user_urls@.len() - j,
        {
            let ghost prev = filters@.map_values(|s: String| s@);
            filters.push(ldap_filter::eq(attr.as_str(), user_urls[j].as_str()));
            proof {
                assert(user_urls@.take(j + 1).drop_last() =~= user_urls@.take(j as int));
                assert(user_urls@.take(j + 1).last() == user_urls@[j as int]);
                assert(filters@.map_values(|s: String| s@) =~= prev.push(
                    ldap_filter::spec_eq(attr@, user_urls@[j as int]@),
                ));
                assert(filters@.map_values(|s: String| s@) =~= base + spec_attr_url_filters(
                    attr@,
                    user_urls@.take(j + 1),
                ));
            }
            j += 1;
        }
        proof {
            assert(user_urls@.take(user_urls@.len() as int) =~= user_urls@);
            assert(allowed@.take(k + 1).drop_last() =~= allowed@.take(k as int));
            assert(allowed@.take(k + 1).last() == allowed@[k as int]);
        }
        k += 1;
    }
    proof {
        assert(allowed@.take(allowed@.len() as int) =~= allowed@);
    }
    ldap_filter::or(filters)
}

/// The multi-valued form of single-valued attributes, one value per key.
pub fn mono_to_multi_attrs(attrs: &MonoAttrs) -> (r: Vec<(String, Vec<String>)>)
    ensures
        r@.len() == attrs@.len(),
        forall|i: int|
            0 <= i < attrs@.len() ==> (#[trigger] r@[i]).0 == attrs@[i].0 && r@[i].1@.len() == 1
                && r@[i].1@[0] == attrs@[i].1,
{
    let mut r: Vec<(String, Vec<String>)> = Vec::new();
    let mut k: usize = 0;
    while k < attrs.len()
        invariant
            k <= attrs@.len(),
            r@.len() == k,
            forall|i: int|
                0 <= i < k ==> (#[trigger] r@[i]).0 == attrs@[i].0 && r@[i].1@.len() == 1
                    && r@[i].1@[0] == attrs@[i].1,
        decreases attrs@.len() - k,
    {
        let mut vals: Vec<String> = Vec::new();
        vals.push(attrs[k].1.clone());
        r.push((attrs[k].0.clone(), vals));
        k += 1;
    }
    r
}

impl LdapConfig {
    /// The attributes of a new group or stem entry: the structural object
    /// classes of its kind, its `cn`, the requested attributes, and, for a
    /// group, the member attribute holding the sentinel empty value the
    /// schema demands.
    pub fn group_add_attrs(&self, cn: &str, attrs: &MonoAttrs) -> (r: Vec<(String, Vec<String>)>)
        requires
            self.wf(),
        ensures
            ({
                let classes = if spec_is_stem(cn@) {
                    self.stem_object_classes
                } else {
                    self.group_object_classes
                };
                let member_extra: int = if spec_is_stem(cn@) {
                    0
                } else {
                    1
                };
                &&& r@.len() == 2 + attrs@.len() + member_extra
                &&& r@[0].0@ == "objectClass"@ && r@[0].1@ == classes@
                &&& r@[1].0@ == "cn"@ && r@[1].1@.len() == 1 && r@[1].1@[0]@ == cn@
                &&& (forall|i: int|
                    0 <= i < attrs@.len() ==> (#[trigger] r@[2 + i]).0 == attrs@[i].0 && r@[2
                        + i].1@.len() == 1 && r@[2 + i].1@[0] == attrs@[i].1)
                &&& (!spec_is_stem(cn@) ==> r@.last().0@ == "member"@ && r@.last().1@.len() == 1
                    && r@.last().1@[0]@ == Seq::<char>::empty())
            }),
    {
        proof {
            reveal_strlit("objectClass");
            reveal_strlit("cn");
            reveal_strlit("member");
        }
        let is_stem = self.stem.is_stem(cn);
        let mut r: Vec<(String, Vec<String>)> = Vec::new();
        let classes = if is_stem {
            clone_string_vec(&self.stem_object_classes)
        } else {
            clone_string_vec(&self.group_object_classes)
        };
        let mut oc_key = String::new();
        oc_key.append("objectClass");
        r.push((oc_key, classes));
        let mut cn_key = String::new();
        cn_key.append("cn");
        let mut cn_vals: Vec<String> = Vec::new();
        cn_vals.push(cn.to_owned());
        r.push((cn_key, cn_vals));
        let multi = mono_to_multi_attrs(attrs);
        let mut k: usize = 0;
        while k < multi.len()
            invariant
                k <= multi@.len(),
                multi@.len() == attrs@.len(),
                r@.len() == 2 + k,
                r@[0].0@ == "objectClass"@,
                r@[0].1@ == (if spec_is_stem(cn@) {
                    self.stem_object_classes@
                } else {
                    self.group_object_classes@
                }),
                r@[1].0@ == "cn"@ && r@[1].1@.len() == 1 && r@[1].1@[0]@ == cn@,
                forall|i: int|
                    0 <= i < multi@.len() ==> (#[trigger] multi@[i]).0 == attrs@[i].0
                        && multi@[i].1@.len() == 1 && multi@[i].1@[0] == attrs@[i].1,
                forall|i: int|
                    0 <= i < k ==> (#[trigger] r@[2 + i]).0 == multi@[i].0 && r@[2 + i].1@
                        == multi@[i].1@,
            decreases multi@.len() - k,
        {
            let pair = (multi[k].0.clone(), clone_string_vec(&multi[k].1));
            proof {
                assert(pair.0 == multi@[k as int].0 && pair.1@ == multi@[k as int].1@);
            }
            r.push(pair);
            k += 1;
        }
        if !is_stem {
            // the schema demands a member attribute on groups
            let mut member_key = String::new();
            member_key.append("member");
            let mut member_vals: Vec<String> = Vec::new();
            member_vals.push(String::new());
            r.push((member_key, member_vals));
        }
        r
    }
}

/// A copy of a list of strings.
pub fn clone_string_vec(l: &Vec<String>) -> (r: Vec<String>)
    ensures
        r@ == l@,
{
    let mut r: Vec<String> = Vec::new();
    let mut k: usize = 0;
    while k < l.len()
        invariant
            k <= l@.len(),
            r@ == l@.take(k as int),
        decreases l@.len() - k,
    {
        r.push(l[k].clone());
        proof {
            assert(l@.take(k as int).push(l@[k as int]) =~= l@.take(k + 1));
        }
        k += 1;
    }
    proof {
        assert(l@.take(l@.len() as int) =~= l@);
        assert(r@ =~= l@);
    }
    r
}


/// The position of the first configured subject source whose branch
/// contains the DN.
pub open spec fn spec_first_source_index(
    sources: Seq<SubjectSourceConfig>,
    dn: Seq<char>,
) -> Option<int>
    decreases sources.len(),
{
    if sources.len() == 0 {
        None
    } else if spec_ends_with(dn, sources[0].dn@) {
        Some(0)
    } else {
        match spec_first_source_index(sources.drop_first(), dn) {
            Some(i) => Some(i + 1),
            None => None,
        }
    }
}

/// `spec_first_source_index` finds the first matching source, or states
/// there is none.
pub proof fn lemma_first_source_index(sources: Seq<SubjectSourceConfig>, dn: Seq<char>)
    ensures
        match spec_first_source_index(sources, dn) {
            Some(i) => 0 <= i < sources.len() && spec_ends_with(dn, sources[i].dn@) && (forall|
                j: int,
            | 0 <= j < i ==> !spec_ends_with(dn, (#[trigger] sources[j]).dn@)),
            None => forall|j: int|
                0 <= j < sources.len() ==> !spec_ends_with(dn, (#[trigger] sources[j]).dn@),
        },
    decreases sources.len(),
{
    if sources.len() > 0 && !spec_ends_with(dn, sources[0].dn@) {
        lemma_first_source_index(sources.drop_first(), dn);
        let t = sources.drop_first();
        match spec_first_source_index(t, dn) {
            Some(i) => {
                assert(t[i] == sources[i + 1]);
                assert forall|j: int|
                    0 <= j < i + 1 implies !spec_ends_with(dn, (#[trigger] sources[j]).dn@) by {
                    if j > 0 {
                        assert(t[j - 1] == sources[j]);
                    }
                }
            }
            None => {
                assert forall|j: int|
                    0 <= j < sources.len() implies !spec_ends_with(
                    dn,
                    (#[trigger] sources[j]).dn@,
                ) by {
                    if j > 0 {
                        assert(t[j - 1] == sources[j]);
                    }
                }
            }
        }
    }
}

impl LdapConfig {
    /// The position of the first configured subject source whose branch
    /// contains the DN, if any.
    pub fn first_subject_source_index(&self, dn: &Dn) -> (r: Option<usize>)
        ensures
            match r {
                Some(i) => spec_first_source_index(self.subject_sources@, dn@) == Some(i as int),
                None => spec_first_source_index(self.subject_sources@, dn@) is None,
            },
    {
        proof {
            lemma_first_source_index(self.subject_sources@, dn@);
        }
        let mut k: usize = 0;
        while k < self.subject_sources.len()
            invariant
                k <= self.subject_sources@.len(),
                forall|j: int|
                    0 <= j < k ==> !spec_ends_with(dn@, (#[trigger] self.subject_sources@[j]).dn@),
            decreases self.subject_sources@.len() - k,
        {
            if ends_with(dn.0.as_str(), self.subject_sources[k].dn.0.as_str()) {
                proof {
                    lemma_first_source_index(self.subject_sources@, dn@);
                    match spec_first_source_index(self.subject_sources@, dn@) {
                        Some(i) => {
                            if i < k {
                                assert(!spec_ends_with(dn@, self.subject_sources@[i].dn@));
                            }
                            if i > k {
                                assert(!spec_ends_with(dn@, self.subject_sources@[k as int].dn@));
                            }
                        }
                        None => {
                            assert(!spec_ends_with(dn@, self.subject_sources@[k as int].dn@));
                        }
                    }
                }
                return Some(k);
            }
            k += 1;
        }
        proof {
            lemma_first_source_index(self.subject_sources@, dn@);
            match spec_first_source_index(self.subject_sources@, dn@) {
                Some(i) => {
                    assert(!spec_ends_with(dn@, self.subject_sources@[i].dn@));
                }
                None => {}
            }
        }
        None
    }
}

/// The position of the bucket carrying a source index, scanning from the
/// front.
pub open spec fn spec_bucket_pos(buckets: Seq<(int, Seq<Dn>)>, s: int) -> Option<int>
    decreases buckets.len(),
{
    if buckets.len() == 0 {
        None
    } else if buckets[0].0 == s {
        Some(0)
    } else {
        match spec_bucket_pos(buckets.drop_first(), s) {
            Some(g) => Some(g + 1),
            None => None,
        }
    }
}

/// `spec_bucket_pos` finds the first bucket with the index, or states there
/// is none.
pub proof fn lemma_bucket_pos(buckets: Seq<(int, Seq<Dn>)>, s: int)
    ensures
        match spec_bucket_pos(buckets, s) {
            Some(g) => 0 <= g < buckets.len() && buckets[g].0 == s && (forall|j: int|
                0 <= j < g ==> (#[trigger] buckets[j]).0 != s),
            None => forall|j: int| 0 <= j < buckets.len() ==> (#[trigger] buckets[j]).0 != s,
        },
    decreases buckets.len(),
{
    if buckets.len() > 0 && buckets[0].0 != s {
        lemma_bucket_pos(buckets.drop_first(), s);
        let t = buckets.drop_first();
        match spec_bucket_pos(t, s) {
            Some(g) => {
                assert(t[g] == buckets[g + 1]);
                assert forall|j: int| 0 <= j < g + 1 implies (#[trigger] buckets[j]).0 != s by {
                    if j > 0 {
                        assert(t[j - 1] == buckets[j]);
                    }
                }
            }
            None => {
                assert forall|j: int|
                    0 <= j < buckets.len() implies (#[trigger] buckets[j]).0 != s by {
                    if j > 0 {
                        assert(t[j - 1] == buckets[j]);
                    }
                }
            }
        }
    }
}

/// One DN placed under its source index: appended to the bucket already
/// carrying the index, or opening a new bucket at the end.
pub open spec fn spec_bucket_insert(buckets: Seq<(int, Seq<Dn>)>, s: int, d: Dn) -> Seq<
    (int, Seq<Dn>),
> {
    match spec_bucket_pos(buckets, s) {
        Some(g) => buckets.update(g, (s, buckets[g].1.push(d))),
        None => buckets.push((s, seq![d])),
    }
}

/// The DNs grouped under the first subject source containing each, buckets
/// in order of first appearance, each bucket's DNs in input order; DNs
/// under no configured source are left out.
pub open spec fn spec_group_dns(sources: Seq<SubjectSourceConfig>, dns: Seq<Dn>) -> Seq<
    (int, Seq<Dn>),
>
    decreases dns.len(),
{
    if dns.len() == 0 {
        Seq::<(int, Seq<Dn>)>::empty()
    } else {
        let rest = spec_group_dns(sources, dns.drop_last());
        match spec_first_source_index(sources, dns.last()@) {
            Some(s) => spec_bucket_insert(rest, s, dns.last()),
            None => rest,
        }
    }
}

/// Group DNs under the first subject source containing each, so that they
/// can be resolved source by source.
#[verifier::loop_isolation(false)]
pub fn group_dns_by_source(cfg: &LdapConfig, dns: &Vec<Dn>) -> (r: Vec<(usize, Vec<Dn>)>)
    ensures
        r@.len() == spec_group_dns(cfg.subject_sources@, dns@).len(),
        forall|g: int|
            0 <= g < r@.len() ==> (#[trigger] r@[g]).0 as int == spec_group_dns(
                cfg.subject_sources@,
                dns@,
            )[g].0 && r@[g].1@ == spec_group_dns(cfg.subject_sources@, dns@)[g].1,
{
    let mut r: Vec<(usize, Vec<Dn>)> = Vec::new();
    let mut k: usize = 0;
    proof {
        assert(dns@.take(0) =~= Seq::<Dn>::empty());
    }
    while k < dns.len()
        invariant
            k <= dns@.len(),
            r@.len() == spec_group_dns(cfg.subject_sources@, dns@.take(k as int)).len(),
            forall|g: int|
                0 <= g < r@.len() ==> (#[trigger] r@[g]).0 as int == spec_group_dns(
                    cfg.subject_sources@,
                    dns@.take(k as int),
                )[g].0 && r@[g].1@ == spec_group_dns(cfg.subject_sources@, dns@.take(k as int))[
                    g
                ].1,
        decreases dns@.len() - k,
    {
        proof {
            assert(dns@.take(k + 1).drop_last() =~= dns@.take(k as int));
            assert(dns@.take(k + 1).last() == dns@[k as int]);
        }
        let ghost spec_before = spec_group_dns(cfg.subject_sources@, dns@.take(k as int));
        let d = &dns[k];
        match cfg.first_subject_source_index(d) {
            Some(s) => {
                proof {
                    lemma_bucket_pos(spec_before, s as int);
                }
                let mut g: usize = 0;
                while g < r.len()
                    invariant
                        g <= r@.len(),
                        forall|j: int| 0 <= j < g ==> (#[trigger] r@[j]).0 != s,
                    decreases r@.len() - g,
                {
                    if r[g].0 == s {
                        break;
                    }
                    g += 1;
                }
                if g < r.len() {
                    proof {
                        assert(r@[g as int].0 == s);
                        assert(spec_before[g as int].0 == s as int);
                        match spec_bucket_pos(spec_before, s as int) {
                            Some(g2) => {
                                if g2 < g {
                                    assert(r@[g2].0 as int == spec_before[g2].0);
                                    assert(r@[g2].0 != s);
                                }
                                if g2 > g {
                                    assert(spec_before[g as int].0 != s as int);
                                }
                                assert(g2 == g as int);
                            }
                            None => {
                                assert(spec_before[g as int].0 != s as int);
                            }
                        }
                    }
                    let row = &mut r[g];
                    row.1.push(Dn(dns[k].0.clone()));
                    proof {
                        let spec_after = spec_group_dns(cfg.subject_sources@, dns@.take(k + 1));
                        assert(spec_after == spec_bucket_insert(spec_before, s as int, dns@[
                            k as int
                        ]));
                        assert forall|g3: int|
                            0 <= g3 < r@.len() implies (#[trigger] r@[g3]).0 as int == spec_after[
                            g3
                        ].0 && r@[g3].1@ == spec_after[g3].1 by {
                            if g3 == g {
                                assert(r@[g3].1@ =~= spec_before[g3].1.push(dns@[k as int]));
                            }
                        }
                    }
                } else {
                    proof {
                        match spec_bucket_pos(spec_before, s as int) {
                            Some(g2) => {
                                assert(r@[g2].0 as int == spec_before[g2].0);
                                assert(r@[g2].0 != s);
                            }
                            None => {}
                        }
                    }
                    let mut fresh: Vec<Dn> = Vec::new();
                    fresh.push(Dn(dns[k].0.clone()));
                    r.push((s, fresh));
                    proof {
                        let spec_after = spec_group_dns(cfg.subject_sources@, dns@.take(k + 1));
                        assert(spec_after == spec_before.push(
                            (s as int, seq![dns@[k as int]]),
                        ));
                        assert forall|g3: int|
                            0 <= g3 < r@.len() implies (#[trigger] r@[g3]).0 as int == spec_after[
                            g3
                        ].0 && r@[g3].1@ == spec_after[g3].1 by {
                            if g3 == r@.len() - 1 {
                                assert(r@[g3].1@ =~= seq![dns@[k as int]]);
                            }
                        }
                    }
                }
            }
            None => {}
        }
        k += 1;
    }
    proof {
        assert(dns@.take(dns@.len() as int) =~= dns@);
    }
    r
}

} // verus!
