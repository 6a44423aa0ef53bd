use groupald::remote_query::{parse_sql_url, trim_end, trim_start};

#[test]
fn test_parse_sql_url() {
    let url = "sql: remote=foo : subject=ou=people,dc=nodomain?uid : select username from users";
    let remote = parse_sql_url(url).unwrap().unwrap();
    assert_eq!(remote.remote_cfg_name, "foo");
    assert_eq!(remote.select_query, "select username from users");
    assert_eq!(remote.to_url(), url);

    let url2 = "sql: remote=foo : select concat('uid=', username, ',ou=people,dc=nodomain') from users";
    let remote2 = parse_sql_url(url2).unwrap().unwrap();
    assert!(remote2.to_subject_source.is_none());
    assert_eq!(remote2.to_url(), url2);

    assert!(parse_sql_url("sql: select username from users").is_err());
}

#[test]
fn parse_sql_url_details() {
    let url = "sql: remote=foo : subject=ou=people,dc=nodomain?uid : select username from users";
    let remote = parse_sql_url(url).unwrap().unwrap();
    let tss = remote.to_subject_source.unwrap();
    assert_eq!(tss.ssdn.0, "ou=people,dc=nodomain");
    assert_eq!(tss.id_attr, "uid");

    // a URL of another scheme is no synchronization URL, and no error either
    assert!(parse_sql_url("ldap:///uid=a,dc=x").unwrap().is_none());
}

#[test]
fn trimming() {
    assert_eq!(trim_start("  a b "), "a b ");
    assert_eq!(trim_end("  a b "), "  a b");
    assert_eq!(trim_start(""), "");
    assert_eq!(trim_end("   "), "");
}
