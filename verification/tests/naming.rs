use groupald::config::{FlattenedAttrs, LdapConfig};
use groupald::naming::StemConfig;
use groupald::types::Dn;

fn stem_config() -> StemConfig {
    StemConfig {
        filter: "(objectClass=organizationalRole)".to_owned(),
        separator: ".".to_owned(),
        root_id: "".to_owned(),
    }
}

fn ldap_config() -> LdapConfig {
    LdapConfig {
        url: "".to_owned(),
        bind_dn: Dn("".to_owned()),
        bind_password: "".to_owned(),
        base_dn: Dn("dc=nodomain".to_owned()),
        groups_dn: Dn("ou=groups,dc=nodomain".to_owned()),
        stem_object_classes: vec!["organizationalRole".to_owned()],
        group_object_classes: vec!["groupOfNames".to_owned()],
        sgroup_filter: None,
        stem: stem_config(),
        subject_sources: vec![],
        groups_flattened_attr: FlattenedAttrs {
            member: "member".to_owned(),
            reader: "supannGroupeLecteurDN".to_owned(),
            updater: "supannGroupeAdminDN".to_owned(),
            admin: "owner".to_owned(),
        },
        sgroup_attrs: vec![],
    }
}

#[test]
fn parent_stem() {
    let cfg = stem_config();
    assert_eq!(cfg.parent_stem("a.b.c"), Some("a.b."));
    assert_eq!(cfg.parent_stem("a.b.c."), Some("a.b."));
    assert_eq!(cfg.parent_stem("a"), Some(""));
    assert_eq!(cfg.parent_stem("a."), Some(""));
    assert_eq!(cfg.parent_stem(""), None);

    assert_eq!(cfg.parent_stems("a.b.c"), ["a.b.", "a.", ""]);
    assert_eq!(cfg.parent_stems("a."), [""]);
    assert_eq!(cfg.parent_stems(""), [] as [&str; 0]);
}

#[test]
fn validate_sgroup_id() {
    let cfg = stem_config();
    assert!(cfg.validate_sgroup_id("a.b.c").is_ok());
    assert!(cfg.validate_sgroup_id("a.b.c.").is_ok());
    assert!(cfg.validate_sgroup_id("a").is_ok());
    assert!(cfg.validate_sgroup_id("a.").is_ok());
    assert!(cfg.validate_sgroup_id("").is_ok());
    assert!(cfg.validate_sgroup_id("a.b-c_D").is_ok());

    assert!(cfg.validate_sgroup_id(".a").is_err());
    assert!(cfg.validate_sgroup_id(".").is_err());
    assert!(cfg.validate_sgroup_id("a[").is_err());
    assert!(cfg.validate_sgroup_id("a,").is_err());
}

#[test]
fn is_grandchild() {
    let cfg = stem_config();
    assert!(cfg.is_grandchild("a.", "a.b.c"));
    assert!(cfg.is_grandchild("a.", "a.b.c."));
    assert!(cfg.is_grandchild("a.", "a.b.c.d"));
    assert!(!cfg.is_grandchild("a.", "a."));
    assert!(!cfg.is_grandchild("a.", "a.b"));
    assert!(!cfg.is_grandchild("a.", "a.b."));

    assert!(cfg.is_grandchild("", "a.b"));
    assert!(cfg.is_grandchild("", "a.b."));
    assert!(cfg.is_grandchild("", "a.b.c"));
    assert!(!cfg.is_grandchild("", ""));
    assert!(!cfg.is_grandchild("", "b"));
    assert!(!cfg.is_grandchild("", "b."));
}

#[test]
fn sgroup_id_to_dn() {
    let cfg = ldap_config();
    assert_eq!(cfg.sgroup_id_to_dn("a").0, "cn=a,ou=groups,dc=nodomain");
    assert_eq!(cfg.sgroup_id_to_dn("").0, "ou=groups,dc=nodomain");
}

#[test]
fn dn_to_sgroup_id() {
    let cfg = ldap_config();
    assert_eq!(cfg.dn_to_sgroup_id("cn=a,ou=groups,dc=nodomain"), Some("a".to_owned()));
    assert_eq!(cfg.dn_to_sgroup_id("ou=groups,dc=nodomain"), Some("".to_owned()));
}

#[test]
fn validate_rejects_unicode_letters_outside_the_alphabet() {
    let cfg = stem_config();
    assert!(cfg.validate_sgroup_id("caf\u{e9}").is_err());
    assert!(cfg.validate_sgroup_id("a..b").is_err());
    assert!(cfg.validate_sgroup_id("a b").is_err());
}

#[test]
fn is_stem_of_root_and_trailing_separator() {
    let cfg = stem_config();
    assert!(cfg.is_stem(""));
    assert!(cfg.is_stem("collab."));
    assert!(!cfg.is_stem("collab.DSIUN"));
}

#[test]
fn people_id_to_dn_builds_under_the_people_branch() {
    let cfg = ldap_config();
    assert_eq!(cfg.people_id_to_dn("prigaux").0, "uid=prigaux,ou=people,dc=nodomain");
}

#[test]
fn dn_to_sgroup_id_rejects_foreign_dns() {
    let cfg = ldap_config();
    assert_eq!(cfg.dn_to_sgroup_id("uid=prigaux,ou=people,dc=nodomain"), None);
    assert_eq!(cfg.dn_to_sgroup_id("ou=x,dc=elsewhere"), None);
}
