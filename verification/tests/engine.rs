use groupald::api_read::get_children;
use groupald::api_write::{create, delete, modify_members_or_rights};
use groupald::authz::{best_right_on_self_or_any_parents, user_urls};
use groupald::config::{FlattenedAttrs, LdapConfig};
use groupald::directory::{DirectSets, Directory, FlatSets, SgroupEntry};
use groupald::naming::StemConfig;
use groupald::types::{DirectOptions, Dn, LoggedUser, Mright, MyErr, MyMod, MyMods, Right};

const FUEL: usize = 10000;

fn ldap_config() -> LdapConfig {
    LdapConfig {
        url: "".to_owned(),
        bind_dn: Dn("".to_owned()),
        bind_password: "".to_owned(),
        base_dn: Dn("dc=nodomain".to_owned()),
        groups_dn: Dn("ou=groups,dc=nodomain".to_owned()),
        stem_object_classes: vec!["organizationalRole".to_owned()],
        group_object_classes: vec!["groupOfNames".to_owned()],
        sgroup_filter: None,
        stem: StemConfig {
            filter: "(objectClass=organizationalRole)".to_owned(),
            separator: ".".to_owned(),
            root_id: "".to_owned(),
        },
        subject_sources: vec![],
        groups_flattened_attr: FlattenedAttrs {
            member: "member".to_owned(),
            reader: "supannGroupeLecteurDN".to_owned(),
            updater: "supannGroupeAdminDN".to_owned(),
            admin: "owner".to_owned(),
        },
        sgroup_attrs: vec![
            ("ou".to_owned(), groupald::config::AttrTexts {
                label: "name".to_owned(),
                description: "display name".to_owned(),
            }),
            ("description".to_owned(), groupald::config::AttrTexts {
                label: "description".to_owned(),
                description: "description".to_owned(),
            }),
        ],
    }
}

/// A directory bootstrapped with the root stem, `prigaux` its administrator.
fn bootstrap(cfg: &LdapConfig) -> Directory {
    let prigaux_dn = cfg.people_id_to_dn("prigaux");
    let mut direct = DirectSets::new();
    direct.set(Mright::Admin, vec![(prigaux_dn, DirectOptions::default())]);
    Directory {
        entries: vec![SgroupEntry {
            id: "".to_owned(),
            attrs: vec![("ou".to_owned(), "Racine".to_owned())],
            direct,
            flattened: FlatSets::new(),
        }],
    }
}

fn prigaux() -> LoggedUser {
    LoggedUser::User("prigaux".to_owned())
}

fn aanli() -> LoggedUser {
    LoggedUser::User("aanli".to_owned())
}

fn no_attrs() -> Vec<(String, String)> {
    vec![]
}

fn add_mods(mright: Mright, dns: Vec<Dn>) -> MyMods {
    vec![(mright, vec![(MyMod::Add, dns.into_iter().map(|d| (d, DirectOptions::default())).collect())])]
}

fn delete_mods(mright: Mright, dns: Vec<Dn>) -> MyMods {
    vec![(
        mright,
        vec![(MyMod::Delete, dns.into_iter().map(|d| (d, DirectOptions::default())).collect())],
    )]
}

fn right_of(dir: &Directory, cfg: &LdapConfig, user: &str, id: &str) -> Option<Right> {
    let urls = user_urls(dir, cfg, user);
    best_right_on_self_or_any_parents(dir, cfg, id, &urls)
}

fn flattened_member(dir: &Directory, id: &str) -> Vec<String> {
    let idx = dir.find_entry(id).unwrap();
    let mut l: Vec<String> = dir.entries[idx]
        .flattened
        .get(Mright::Member)
        .iter()
        .map(|d| d.0.clone())
        .collect();
    l.sort();
    l
}

#[test]
fn create_stem_then_group_and_list_children() {
    let cfg = ldap_config();
    let mut dir = bootstrap(&cfg);
    create(&mut dir, &cfg, &prigaux(), "collab.", no_attrs()).unwrap();
    create(&mut dir, &cfg, &prigaux(), "collab.DSIUN", no_attrs()).unwrap();

    assert_eq!(cfg.stem.parent_stems("collab.DSIUN"), ["collab.", ""]);
    assert_eq!(get_children(&dir, &cfg, "collab."), ["collab.DSIUN"]);
    // a group starts with the sentinel empty member value
    assert_eq!(flattened_member(&dir, "collab.DSIUN"), ["".to_owned()]);
}

#[test]
fn create_demands_an_existing_parent_and_a_free_identifier() {
    let cfg = ldap_config();
    let mut dir = bootstrap(&cfg);
    // no parent stem yet
    let err = create(&mut dir, &cfg, &prigaux(), "collab.DSIUN", no_attrs());
    assert!(matches!(err, Err(MyErr::NotFound(_))));
    create(&mut dir, &cfg, &prigaux(), "collab.", no_attrs()).unwrap();
    create(&mut dir, &cfg, &prigaux(), "collab.DSIUN", no_attrs()).unwrap();
    let again = create(&mut dir, &cfg, &prigaux(), "collab.DSIUN", no_attrs());
    assert!(matches!(again, Err(MyErr::Msg(_))));
    // an invalid identifier, an unknown attribute
    assert!(matches!(
        create(&mut dir, &cfg, &prigaux(), ".bad", no_attrs()),
        Err(MyErr::InvalidId(_))
    ));
    assert!(matches!(
        create(
            &mut dir,
            &cfg,
            &prigaux(),
            "collab.other",
            vec![("color".to_owned(), "red".to_owned())]
        ),
        Err(MyErr::InvalidAttrs(_))
    ));
    // a user without any right anywhere
    assert!(matches!(
        create(&mut dir, &cfg, &aanli(), "collab.foo", no_attrs()),
        Err(MyErr::Forbidden(_))
    ));
}

#[test]
fn updater_right_is_granted_and_bounded() {
    let cfg = ldap_config();
    let mut dir = bootstrap(&cfg);
    create(&mut dir, &cfg, &prigaux(), "collab.", no_attrs()).unwrap();
    create(&mut dir, &cfg, &prigaux(), "collab.DSIUN", no_attrs()).unwrap();
    create(&mut dir, &cfg, &prigaux(), "collab.foo", no_attrs()).unwrap();

    let aanli_dn = cfg.people_id_to_dn("aanli");
    modify_members_or_rights(
        &mut dir,
        &cfg,
        &prigaux(),
        "collab.DSIUN",
        &add_mods(Mright::Updater, vec![aanli_dn]),
        FUEL,
    )
    .unwrap();

    assert_eq!(right_of(&dir, &cfg, "aanli", "collab.DSIUN"), Some(Right::Updater));
    assert_eq!(right_of(&dir, &cfg, "aanli", "collab.foo"), None);
    assert_eq!(right_of(&dir, &cfg, "prigaux", "collab.foo"), Some(Right::Admin));
}

#[test]
fn admin_through_group_membership_and_its_loss() {
    let cfg = ldap_config();
    let mut dir = bootstrap(&cfg);
    let prigaux_dn = cfg.people_id_to_dn("prigaux");
    let super_admins_dn = cfg.sgroup_id_to_dn("super-admins");

    create(&mut dir, &cfg, &prigaux(), "super-admins", no_attrs()).unwrap();
    modify_members_or_rights(
        &mut dir,
        &cfg,
        &prigaux(),
        "super-admins",
        &add_mods(Mright::Member, vec![prigaux_dn.clone()]),
        FUEL,
    )
    .unwrap();
    assert_eq!(flattened_member(&dir, "super-admins"), [prigaux_dn.0.clone()]);

    // replace the administrator of the root: the group takes the user's place
    modify_members_or_rights(
        &mut dir,
        &cfg,
        &prigaux(),
        "",
        &vec![(
            Mright::Admin,
            vec![
                (MyMod::Add, vec![(super_admins_dn.clone(), DirectOptions::default())]),
                (MyMod::Delete, vec![(prigaux_dn.clone(), DirectOptions::default())]),
            ],
        )],
        FUEL,
    )
    .unwrap();

    // the user keeps the administrator right through the flattened closure
    assert_eq!(right_of(&dir, &cfg, "prigaux", "super-admins"), Some(Right::Admin));
    assert_eq!(right_of(&dir, &cfg, "prigaux", ""), Some(Right::Admin));

    // removing the last direct member leaves the sentinel and takes the
    // right away
    modify_members_or_rights(
        &mut dir,
        &cfg,
        &LoggedUser::TrustedAdmin,
        "super-admins",
        &delete_mods(Mright::Member, vec![prigaux_dn.clone()]),
        FUEL,
    )
    .unwrap();
    assert_eq!(flattened_member(&dir, "super-admins"), ["".to_owned()]);
    assert_eq!(right_of(&dir, &cfg, "prigaux", ""), None);
}

#[test]
fn membership_cascades_through_a_referenced_group() {
    let cfg = ldap_config();
    let mut dir = bootstrap(&cfg);
    let prigaux_dn = cfg.people_id_to_dn("prigaux");
    let dsiun_dn = cfg.sgroup_id_to_dn("collab.DSIUN");
    let super_admins_dn = cfg.sgroup_id_to_dn("super-admins");

    create(&mut dir, &cfg, &prigaux(), "collab.", no_attrs()).unwrap();
    create(&mut dir, &cfg, &prigaux(), "collab.DSIUN", no_attrs()).unwrap();
    create(&mut dir, &cfg, &prigaux(), "super-admins", no_attrs()).unwrap();
    modify_members_or_rights(
        &mut dir,
        &cfg,
        &prigaux(),
        "collab.DSIUN",
        &add_mods(Mright::Member, vec![prigaux_dn.clone()]),
        FUEL,
    )
    .unwrap();
    // hand the root administration to the (still empty) group
    modify_members_or_rights(
        &mut dir,
        &cfg,
        &prigaux(),
        "",
        &vec![(
            Mright::Admin,
            vec![
                (MyMod::Add, vec![(super_admins_dn.clone(), DirectOptions::default())]),
                (MyMod::Delete, vec![(prigaux_dn.clone(), DirectOptions::default())]),
            ],
        )],
        FUEL,
    )
    .unwrap();
    assert_eq!(right_of(&dir, &cfg, "prigaux", ""), None);

    // adding the group that contains the user restores the right, and the
    // flattened member set holds both the user and the referenced group
    modify_members_or_rights(
        &mut dir,
        &cfg,
        &LoggedUser::TrustedAdmin,
        "super-admins",
        &add_mods(Mright::Member, vec![dsiun_dn.clone()]),
        FUEL,
    )
    .unwrap();
    let mut expected = vec![dsiun_dn.0.clone(), prigaux_dn.0.clone()];
    expected.sort();
    assert_eq!(flattened_member(&dir, "super-admins"), expected);
    assert_eq!(right_of(&dir, &cfg, "prigaux", ""), Some(Right::Admin));
    assert_eq!(right_of(&dir, &cfg, "prigaux", "collab."), Some(Right::Admin));
}

#[test]
fn delete_of_a_stem_with_descendants_is_a_conflict() {
    let cfg = ldap_config();
    let mut dir = bootstrap(&cfg);
    create(&mut dir, &cfg, &prigaux(), "collab.", no_attrs()).unwrap();
    create(&mut dir, &cfg, &prigaux(), "collab.DSIUN", no_attrs()).unwrap();
    let r = delete(&mut dir, &cfg, &prigaux(), "collab.");
    assert!(matches!(r, Err(MyErr::Conflict(_))));
    // deleting the leaf first clears the way
    delete(&mut dir, &cfg, &prigaux(), "collab.DSIUN").unwrap();
    delete(&mut dir, &cfg, &prigaux(), "collab.").unwrap();
}

#[test]
fn create_then_delete_restores_the_directory() {
    let cfg = ldap_config();
    let mut dir = bootstrap(&cfg);
    create(&mut dir, &cfg, &prigaux(), "collab.", no_attrs()).unwrap();
    let ids_before: Vec<String> = dir.entries.iter().map(|e| e.id.clone()).collect();
    create(&mut dir, &cfg, &prigaux(), "collab.bar", no_attrs()).unwrap();
    delete(&mut dir, &cfg, &prigaux(), "collab.bar").unwrap();
    let ids_after: Vec<String> = dir.entries.iter().map(|e| e.id.clone()).collect();
    assert_eq!(ids_before, ids_after);
}

#[test]
fn member_modifications_are_refused_on_stems() {
    let cfg = ldap_config();
    let mut dir = bootstrap(&cfg);
    create(&mut dir, &cfg, &prigaux(), "collab.", no_attrs()).unwrap();
    let prigaux_dn = cfg.people_id_to_dn("prigaux");
    let r = modify_members_or_rights(
        &mut dir,
        &cfg,
        &prigaux(),
        "collab.",
        &add_mods(Mright::Member, vec![prigaux_dn]),
        FUEL,
    );
    assert!(matches!(r, Err(MyErr::InvalidMods(_))));
}

#[test]
fn modifications_demand_the_right_they_touch() {
    let cfg = ldap_config();
    let mut dir = bootstrap(&cfg);
    create(&mut dir, &cfg, &prigaux(), "g", no_attrs()).unwrap();
    let aanli_dn = cfg.people_id_to_dn("aanli");
    // a user without rights may not modify members
    let r = modify_members_or_rights(
        &mut dir,
        &cfg,
        &aanli(),
        "g",
        &add_mods(Mright::Member, vec![aanli_dn.clone()]),
        FUEL,
    );
    assert!(matches!(r, Err(MyErr::Forbidden(_))));
    // an updater may modify members but not rights
    modify_members_or_rights(
        &mut dir,
        &cfg,
        &prigaux(),
        "g",
        &add_mods(Mright::Updater, vec![aanli_dn.clone()]),
        FUEL,
    )
    .unwrap();
    modify_members_or_rights(
        &mut dir,
        &cfg,
        &aanli(),
        "g",
        &add_mods(Mright::Member, vec![aanli_dn.clone()]),
        FUEL,
    )
    .unwrap();
    let r2 = modify_members_or_rights(
        &mut dir,
        &cfg,
        &aanli(),
        "g",
        &add_mods(Mright::Admin, vec![aanli_dn.clone()]),
        FUEL,
    );
    assert!(matches!(r2, Err(MyErr::Forbidden(_))));
}

#[test]
fn applying_the_same_modifications_twice_changes_nothing_more() {
    let cfg = ldap_config();
    let mut dir = bootstrap(&cfg);
    let prigaux_dn = cfg.people_id_to_dn("prigaux");
    let aanli_dn = cfg.people_id_to_dn("aanli");
    create(&mut dir, &cfg, &prigaux(), "g", no_attrs()).unwrap();
    let mods = vec![(
        Mright::Member,
        vec![
            (
                MyMod::Add,
                vec![
                    (prigaux_dn.clone(), DirectOptions::default()),
                    (aanli_dn.clone(), DirectOptions::default()),
                ],
            ),
            (MyMod::Delete, vec![(aanli_dn.clone(), DirectOptions::default())]),
        ],
    )];
    modify_members_or_rights(&mut dir, &cfg, &prigaux(), "g", &mods, FUEL).unwrap();
    let direct_once: Vec<String> = {
        let idx = dir.find_entry("g").unwrap();
        dir.entries[idx].direct.get(Mright::Member).iter().map(|p| p.0 .0.clone()).collect()
    };
    let flattened_once = flattened_member(&dir, "g");
    modify_members_or_rights(&mut dir, &cfg, &prigaux(), "g", &mods, FUEL).unwrap();
    let direct_twice: Vec<String> = {
        let idx = dir.find_entry("g").unwrap();
        dir.entries[idx].direct.get(Mright::Member).iter().map(|p| p.0 .0.clone()).collect()
    };
    assert_eq!(direct_once, direct_twice);
    assert_eq!(flattened_once, flattened_member(&dir, "g"));
}

#[test]
fn large_replace_is_rewritten_as_the_difference() {
    let cfg = ldap_config();
    let mut dir = bootstrap(&cfg);
    create(&mut dir, &cfg, &prigaux(), "g", no_attrs()).unwrap();
    let names = ["u1", "u2", "u3", "u4", "u5"];
    let mut five: Vec<Dn> = Vec::new();
    for n in names.iter() {
        five.push(cfg.people_id_to_dn(n));
    }
    modify_members_or_rights(
        &mut dir,
        &cfg,
        &prigaux(),
        "g",
        &add_mods(Mright::Member, five.clone()),
        FUEL,
    )
    .unwrap();

    // replace the five by six: the five kept plus one more
    let mut six = five.clone();
    six.push(cfg.people_id_to_dn("u6"));
    let replace = vec![(
        Mright::Member,
        vec![(
            MyMod::Replace,
            six.iter().map(|d| (d.clone(), DirectOptions::default())).collect::<Vec<_>>(),
        )],
    )];
    modify_members_or_rights(&mut dir, &cfg, &prigaux(), "g", &replace, FUEL).unwrap();

    let idx = dir.find_entry("g").unwrap();
    let mut direct: Vec<String> =
        dir.entries[idx].direct.get(Mright::Member).iter().map(|p| p.0 .0.clone()).collect();
    direct.sort();
    let mut expected: Vec<String> = six.iter().map(|d| d.0.clone()).collect();
    expected.sort();
    assert_eq!(direct, expected);
    assert_eq!(flattened_member(&dir, "g"), expected);
}

#[test]
fn end_dated_membership_keeps_its_date_in_the_stored_url() {
    let cfg = ldap_config();
    let mut dir = bootstrap(&cfg);
    create(&mut dir, &cfg, &prigaux(), "g", no_attrs()).unwrap();
    let aanli_dn = cfg.people_id_to_dn("aanli");
    let mods = vec![(
        Mright::Member,
        vec![(
            MyMod::Add,
            vec![(
                aanli_dn.clone(),
                DirectOptions { enddate: Some("2099-12-31T00:00:00".to_owned()) },
            )],
        )],
    )];
    modify_members_or_rights(&mut dir, &cfg, &prigaux(), "g", &mods, FUEL).unwrap();
    let idx = dir.find_entry("g").unwrap();
    let stored = dir.entries[idx].direct.get(Mright::Member);
    assert_eq!(stored.len(), 1);
    assert_eq!(stored[0].1.enddate, Some("2099-12-31T00:00:00".to_owned()));
    // the flattened set carries the plain DN
    assert_eq!(flattened_member(&dir, "g"), [aanli_dn.0]);
}

#[test]
fn attribute_modification_sets_and_removes() {
    let cfg = ldap_config();
    let mut dir = bootstrap(&cfg);
    create(
        &mut dir,
        &cfg,
        &prigaux(),
        "g",
        vec![
            ("ou".to_owned(), "Old name".to_owned()),
            ("description".to_owned(), "Old text".to_owned()),
        ],
    )
    .unwrap();
    groupald::api_write::modify_sgroup_attrs(
        &mut dir,
        &cfg,
        &prigaux(),
        "g",
        &vec![
            ("ou".to_owned(), "New name".to_owned()),
            ("description".to_owned(), "".to_owned()),
        ],
    )
    .unwrap();
    let idx = dir.find_entry("g").unwrap();
    let attrs = &dir.entries[idx].attrs;
    assert_eq!(groupald::api_read::attr_lookup(attrs, "ou"), Some(&"New name".to_owned()));
    assert_eq!(groupald::api_read::attr_lookup(attrs, "description"), None);

    // an unknown attribute key is refused, a missing entry reported
    assert!(matches!(
        groupald::api_write::modify_sgroup_attrs(
            &mut dir,
            &cfg,
            &prigaux(),
            "g",
            &vec![("color".to_owned(), "red".to_owned())],
        ),
        Err(MyErr::InvalidAttrs(_))
    ));
    assert!(matches!(
        groupald::api_write::modify_sgroup_attrs(&mut dir, &cfg, &prigaux(), "nope", &vec![]),
        Err(MyErr::NotFound(_))
    ));
}

#[test]
fn inherited_rights_never_fall_toward_the_leaf() {
    let shown = groupald::api_read::inherit_rights_down(&vec![
        Some(Right::Reader),
        None,
        Some(Right::Admin),
        Some(Right::Updater),
    ]);
    assert_eq!(
        shown,
        vec![Some(Right::Reader), Some(Right::Reader), Some(Right::Admin), Some(Right::Admin)]
    );
}

#[test]
fn flattened_listing_refuses_stems_and_strips_the_sentinel() {
    let cfg = ldap_config();
    let mut dir = bootstrap(&cfg);
    create(&mut dir, &cfg, &prigaux(), "collab.", no_attrs()).unwrap();
    create(&mut dir, &cfg, &prigaux(), "collab.DSIUN", no_attrs()).unwrap();
    // the stored set holds the sentinel, the listing hides it
    assert_eq!(flattened_member(&dir, "collab.DSIUN"), ["".to_owned()]);
    let listed =
        groupald::api_read::get_group_flattened_mright(&dir, &cfg, "collab.DSIUN", Mright::Member)
            .unwrap();
    assert!(listed.is_empty());
    assert!(matches!(
        groupald::api_read::get_group_flattened_mright(&dir, &cfg, "collab.", Mright::Member),
        Err(MyErr::Msg(_))
    ));
    assert!(matches!(
        groupald::api_read::get_group_flattened_mright(&dir, &cfg, "nope", Mright::Member),
        Err(MyErr::NotFound(_))
    ));

    let prigaux_dn = cfg.people_id_to_dn("prigaux");
    modify_members_or_rights(
        &mut dir,
        &cfg,
        &prigaux(),
        "collab.DSIUN",
        &add_mods(Mright::Member, vec![prigaux_dn.clone()]),
        FUEL,
    )
    .unwrap();
    let listed2 =
        groupald::api_read::get_group_flattened_mright(&dir, &cfg, "collab.DSIUN", Mright::Member)
            .unwrap();
    assert_eq!(listed2, vec![prigaux_dn]);
}
