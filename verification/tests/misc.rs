use groupald::api_read::{
    attr_lookup, get_children, mono_attrs, remove_non_modified_attrs, simplify_hierachical_ou,
    to_sgroup_attrs,
};
use groupald::authz::user_highest_right_on_raw_attrs;
use groupald::cache::{AllCaches, SharedExpirableCache};
use groupald::config::{FlattenedAttrs, LdapConfig};
use groupald::directory::{DirectSets, Directory, FlatSets, SgroupEntry};
use groupald::naming::StemConfig;
use groupald::types::{best_of, Dn, Mright, Right};

fn test_config() -> LdapConfig {
    LdapConfig {
        url: "".to_owned(),
        bind_dn: Dn("".to_owned()),
        bind_password: "".to_owned(),
        base_dn: Dn("dc=nodomain".to_owned()),
        groups_dn: Dn("ou=groups,dc=nodomain".to_owned()),
        stem_object_classes: vec!["organizationalRole".to_owned()],
        group_object_classes: vec!["groupOfNames".to_owned()],
        sgroup_filter: None,
        stem: StemConfig {
            filter: "(objectClass=organizationalRole)".to_owned(),
            separator: ".".to_owned(),
            root_id: "".to_owned(),
        },
        subject_sources: vec![],
        groups_flattened_attr: FlattenedAttrs {
            member: "member".to_owned(),
            reader: "supannGroupeLecteurDN".to_owned(),
            updater: "supannGroupeAdminDN".to_owned(),
            admin: "owner".to_owned(),
        },
        sgroup_attrs: vec![],
    }
}

#[test]
fn rights_lattice() {
    assert_eq!(Right::Reader.to_allowed_rights(), vec![Right::Admin, Right::Updater, Right::Reader]);
    assert_eq!(Right::Updater.to_allowed_rights(), vec![Right::Admin, Right::Updater]);
    assert_eq!(Right::Admin.to_allowed_rights(), vec![Right::Admin]);
    assert!(Right::Admin.covers(Right::Reader));
    assert!(!Right::Reader.covers(Right::Updater));
    assert_eq!(best_of(Some(Right::Reader), Some(Right::Admin)), Some(Right::Admin));
    assert_eq!(best_of(None, Some(Right::Reader)), Some(Right::Reader));
    assert_eq!(best_of(None, None), None);
}

#[test]
fn role_names_and_attributes() {
    assert_eq!(Mright::Member.to_attr(), "memberURL;x-member");
    assert_eq!(Mright::Admin.to_attr(), "memberURL;x-admin");
    assert_eq!(Mright::Member.to_attr_synchronized(), "memberURL;x-member;x-remote");
    assert_eq!(Mright::from_string("member"), Ok(Mright::Member));
    assert_eq!(Mright::from_string("updater"), Ok(Mright::Updater));
    assert!(Mright::from_string("boss").is_err());
    assert_eq!(Right::from_string("admin"), Ok(Right::Admin));
    assert!(Right::from_string("member").is_err());
    assert_eq!(
        Right::Updater.to_allowed_attrs(),
        vec!["memberURL;x-admin".to_owned(), "memberURL;x-updater".to_owned()]
    );
    assert_eq!(Mright::list(), vec![Mright::Member, Mright::Reader, Mright::Updater, Mright::Admin]);
}

#[test]
fn attribute_helpers() {
    let raw = vec![
        ("ou".to_owned(), vec!["Applications:Grouper".to_owned()]),
        ("empty".to_owned(), vec![]),
        ("description".to_owned(), vec!["first".to_owned(), "second".to_owned()]),
    ];
    let mono = mono_attrs(&raw);
    assert_eq!(
        mono,
        vec![
            ("ou".to_owned(), "Applications:Grouper".to_owned()),
            ("description".to_owned(), "first".to_owned()),
        ]
    );
    let simplified = simplify_hierachical_ou(mono);
    assert_eq!(simplified[0], ("ou".to_owned(), "Grouper".to_owned()));

    let rooted = to_sgroup_attrs("", vec![("description".to_owned(), "x".to_owned())]);
    assert_eq!(rooted.last().unwrap(), &("ou".to_owned(), "Racine".to_owned()));

    let current = vec![("ou".to_owned(), "same".to_owned()), ("description".to_owned(), "old".to_owned())];
    let wanted = vec![("ou".to_owned(), "same".to_owned()), ("description".to_owned(), "new".to_owned())];
    let diff = remove_non_modified_attrs(&current, &wanted);
    assert_eq!(diff, vec![("description".to_owned(), "new".to_owned())]);
    assert_eq!(attr_lookup(&current, "ou"), Some(&"same".to_owned()));
    assert_eq!(attr_lookup(&current, "cn"), None);
}

#[test]
fn cache_get_set_clear() {
    let mut cache = SharedExpirableCache::new();
    assert!(cache.get().is_none());
    cache.set(42, vec![("foo".to_owned(), vec!["g1".to_owned()])]);
    let entry = cache.get().unwrap();
    assert_eq!(entry.0, 42);
    assert_eq!(entry.1, vec![("foo".to_owned(), vec!["g1".to_owned()])]);
    cache.clear();
    assert!(cache.get().is_none());

    let mut all = AllCaches::new();
    all.remote_to_sgroup_ids.set(7, vec![]);
    all.clear_all();
    assert!(all.remote_to_sgroup_ids.get().is_none());
}

#[test]
fn group_add_attrs_builds_the_entry() {
    let cfg = test_config();
    let attrs = vec![("ou".to_owned(), "Collaboration".to_owned())];
    let group = cfg.group_add_attrs("collab.DSIUN", &attrs);
    assert_eq!(group[0], ("objectClass".to_owned(), vec!["groupOfNames".to_owned()]));
    assert_eq!(group[1], ("cn".to_owned(), vec!["collab.DSIUN".to_owned()]));
    assert_eq!(group[2], ("ou".to_owned(), vec!["Collaboration".to_owned()]));
    assert_eq!(group.last().unwrap(), &("member".to_owned(), vec!["".to_owned()]));

    let stem = cfg.group_add_attrs("collab.", &attrs);
    assert_eq!(stem[0], ("objectClass".to_owned(), vec!["organizationalRole".to_owned()]));
    assert_eq!(stem.len(), 3);
}

#[test]
fn children_skip_grandchildren() {
    let cfg = test_config();
    let entry = |id: &str| SgroupEntry {
        id: id.to_owned(),
        attrs: vec![],
        direct: DirectSets::new(),
        flattened: FlatSets::new(),
    };
    let dir = Directory {
        entries: vec![entry(""), entry("a."), entry("a.b"), entry("a.c."), entry("a.c.d")],
    };
    assert_eq!(get_children(&dir, &cfg, "a."), ["a.b", "a.c."]);
    assert_eq!(get_children(&dir, &cfg, ""), ["a."]);
}

#[test]
fn dns_are_grouped_under_their_first_source() {
    let mut cfg = test_config();
    cfg.subject_sources = vec![
        groupald::config::SubjectSourceConfig {
            dn: Dn("ou=people,dc=nodomain".to_owned()),
            name: "people".to_owned(),
            vue_template: None,
            vue_template_if_ambiguous: None,
            display_attrs: vec!["displayName".to_owned()],
            id_attrs: Some(vec!["uid".to_owned()]),
            search_filter: "(cn=*%TERM%*)".to_owned(),
        },
        groupald::config::SubjectSourceConfig {
            dn: Dn("ou=groups,dc=nodomain".to_owned()),
            name: "groups".to_owned(),
            vue_template: None,
            vue_template_if_ambiguous: None,
            display_attrs: vec!["ou".to_owned()],
            id_attrs: None,
            search_filter: "(ou=*%TERM%*)".to_owned(),
        },
    ];
    let dns = vec![
        Dn("uid=a,ou=people,dc=nodomain".to_owned()),
        Dn("cn=g1,ou=groups,dc=nodomain".to_owned()),
        Dn("uid=b,ou=people,dc=nodomain".to_owned()),
        Dn("uid=x,dc=elsewhere".to_owned()),
    ];
    let grouped = groupald::config::group_dns_by_source(&cfg, &dns);
    assert_eq!(grouped.len(), 2);
    assert_eq!(grouped[0].0, 0);
    assert_eq!(
        grouped[0].1,
        vec![
            Dn("uid=a,ou=people,dc=nodomain".to_owned()),
            Dn("uid=b,ou=people,dc=nodomain".to_owned()),
        ]
    );
    assert_eq!(grouped[1].0, 1);
    assert_eq!(grouped[1].1, vec![Dn("cn=g1,ou=groups,dc=nodomain".to_owned())]);
    assert_eq!(cfg.first_subject_source_index(&Dn("uid=x,dc=elsewhere".to_owned())), None);
}

#[test]
fn raw_attribute_rights_match_letter_for_letter() {
    let attrs = vec![
        ("memberURL;x-admin".to_owned(), vec!["ldap:///uid=boss,dc=x".to_owned()]),
        ("memberURL;x-reader".to_owned(), vec!["ldap:///uid=alice,dc=x".to_owned()]),
    ];
    let alice = vec!["ldap:///uid=alice,dc=x".to_owned()];
    let boss = vec!["ldap:///uid=boss,dc=x".to_owned()];
    let nobody = vec!["ldap:///uid=nobody,dc=x".to_owned()];
    assert_eq!(user_highest_right_on_raw_attrs(&attrs, &alice), Some(Right::Reader));
    assert_eq!(user_highest_right_on_raw_attrs(&attrs, &boss), Some(Right::Admin));
    assert_eq!(user_highest_right_on_raw_attrs(&attrs, &nobody), None);
}
