use groupald::api_write::apply_submods;
use groupald::mods::{
    check_mods, contains_dn, contains_dn_vec, diff_dn_vec, diff_dns, my_mods_to_right, submod_list,
    UrlMods,
};
use groupald::types::{DirectOptions, Dn, Mright, MyErr, MyMod, Right};

fn dn(s: &str) -> Dn {
    Dn(s.to_owned())
}

fn entry(s: &str) -> (Dn, DirectOptions) {
    (dn(s), DirectOptions::default())
}

#[test]
fn check_mods_accepts_subject_urls_everywhere() {
    let mods: UrlMods = vec![(
        Mright::Member,
        vec![(MyMod::Add, vec!["ldap:///uid=a,dc=x".to_owned(), "ldap:///uid=b,dc=x".to_owned()])],
    )];
    assert!(check_mods(false, &mods).is_ok());
}

#[test]
fn check_mods_lets_one_replace_install_the_synchronization_marker() {
    // the sole value of a member replacement may be any URL: the door for
    // the synchronization marker
    let install: UrlMods = vec![(
        Mright::Member,
        vec![(MyMod::Replace, vec!["sql: remote=foo : select uid from t".to_owned()])],
    )];
    assert!(check_mods(false, &install).is_ok());

    // anywhere else a value that is no subject URL is refused
    let as_add: UrlMods = vec![(
        Mright::Member,
        vec![(MyMod::Add, vec!["sql: remote=foo : select uid from t".to_owned()])],
    )];
    assert!(matches!(check_mods(false, &as_add), Err(MyErr::InvalidMods(_))));

    let two_values: UrlMods = vec![(
        Mright::Member,
        vec![(
            MyMod::Replace,
            vec!["sql: remote=foo : select uid from t".to_owned(), "ldap:///uid=a,dc=x".to_owned()],
        )],
    )];
    assert!(matches!(check_mods(false, &two_values), Err(MyErr::InvalidMods(_))));

    let on_admin: UrlMods = vec![(
        Mright::Admin,
        vec![(MyMod::Replace, vec!["sql: remote=foo : select uid from t".to_owned()])],
    )];
    assert!(matches!(check_mods(false, &on_admin), Err(MyErr::InvalidMods(_))));
}

#[test]
fn check_mods_refuses_members_on_stems() {
    let mods: UrlMods =
        vec![(Mright::Member, vec![(MyMod::Add, vec!["ldap:///uid=a,dc=x".to_owned()])])];
    assert!(matches!(check_mods(true, &mods), Err(MyErr::InvalidMods(_))));
    let rights_only: UrlMods =
        vec![(Mright::Admin, vec![(MyMod::Add, vec!["ldap:///uid=a,dc=x".to_owned()])])];
    assert!(check_mods(true, &rights_only).is_ok());
}

#[test]
fn the_right_a_modification_demands() {
    let members_only = vec![(Mright::Member, vec![])];
    assert_eq!(my_mods_to_right(&members_only), Right::Updater);
    let readers = vec![(Mright::Reader, vec![])];
    assert_eq!(my_mods_to_right(&readers), Right::Updater);
    let updaters = vec![(Mright::Member, vec![]), (Mright::Updater, vec![])];
    assert_eq!(my_mods_to_right(&updaters), Right::Admin);
    let admins = vec![(Mright::Admin, vec![])];
    assert_eq!(my_mods_to_right(&admins), Right::Admin);
}

#[test]
fn set_operations_on_relation_lists() {
    let a = vec![entry("u1"), entry("u2"), entry("u3")];
    let b = vec![entry("u2")];
    let d = diff_dns(&a, &b);
    assert_eq!(d.len(), 2);
    assert_eq!(d[0].0 .0, "u1");
    assert_eq!(d[1].0 .0, "u3");
    assert!(contains_dn(&a, &dn("u2")));
    assert!(!contains_dn(&b, &dn("u1")));

    let x = vec![dn("a"), dn("b")];
    let y = vec![dn("b"), dn("c")];
    let z = diff_dn_vec(&x, &y);
    assert_eq!(z, vec![dn("a")]);
    assert!(contains_dn_vec(&y, &dn("c")));
}

#[test]
fn submods_apply_in_order_add_delete_replace() {
    let cur = vec![entry("u1"), entry("u2")];
    let submods = vec![
        (MyMod::Add, vec![entry("u3")]),
        (MyMod::Delete, vec![entry("u1")]),
    ];
    let out = apply_submods(&cur, &submods);
    let mut names: Vec<String> = out.iter().map(|p| p.0 .0.clone()).collect();
    names.sort();
    assert_eq!(names, ["u2", "u3"]);

    // a small replacement wins over everything else
    let replace = vec![(MyMod::Replace, vec![entry("v1"), entry("v1"), entry("v2")])];
    let out2 = apply_submods(&cur, &replace);
    let mut names2: Vec<String> = out2.iter().map(|p| p.0 .0.clone()).collect();
    names2.sort();
    assert_eq!(names2, ["v1", "v2"]);

    assert_eq!(submod_list(&submods, MyMod::Add).len(), 1);
    assert_eq!(submod_list(&submods, MyMod::Replace).len(), 0);
}

#[test]
fn a_large_replacement_reaches_the_same_set() {
    let cur = vec![entry("u1"), entry("u2"), entry("u3"), entry("u4"), entry("u5")];
    let six = vec![
        entry("u1"),
        entry("u2"),
        entry("u3"),
        entry("u4"),
        entry("u5"),
        entry("u6"),
    ];
    let submods = vec![(MyMod::Replace, six.clone())];
    let out = apply_submods(&cur, &submods);
    let mut names: Vec<String> = out.iter().map(|p| p.0 .0.clone()).collect();
    names.sort();
    assert_eq!(names, ["u1", "u2", "u3", "u4", "u5", "u6"]);
}
