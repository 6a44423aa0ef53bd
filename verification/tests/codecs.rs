use groupald::audit::{sgroup_log_file, tail_full_lines};
use groupald::cas_auth::{cas_validate_url, parse_cas_response};
use groupald::helpers::{
    after, after_last, before, before_and_after, before_and_after_char,
    before_and_between_and_after, generalized_time_to_iso8601, iso8601_to_generalized_time,
    replace_all,
};
use groupald::ldap_filter;
use groupald::types::{DirectOptions, Dn};
use groupald::urls::{dn_opts_to_url, dn_to_url, url_to_dn, urls_to_dns};

#[test]
fn test_before_and_between_and_after() {
    assert_eq!(before_and_between_and_after("", "<", ">"), None);
    assert_eq!(before_and_between_and_after("<>", "<", ">"), Some(("", "", "")));
    assert_eq!(before_and_between_and_after("a<", "<", ">"), None);
    assert_eq!(before_and_between_and_after("a>", "<", ">"), None);
    assert_eq!(before_and_between_and_after("a<b>", "<", ">"), Some(("a", "b", "")));
    assert_eq!(before_and_between_and_after("a<b>c", "<", ">"), Some(("a", "b", "c")));
}

#[test]
fn test_generalized_time_to_iso8601() {
    assert_eq!(
        generalized_time_to_iso8601("20991231235959Z"),
        Some("2099-12-31T23:59:59".to_owned())
    );
    assert_eq!(
        generalized_time_to_iso8601("20991231235959Z "),
        Some("2099-12-31T23:59:59".to_owned())
    );
    assert_eq!(generalized_time_to_iso8601("20991231235959"), None);
    assert_eq!(generalized_time_to_iso8601("20991231235959 "), None);
}

#[test]
fn generalized_time_round_trip() {
    assert_eq!(
        iso8601_to_generalized_time("2099-12-31T23:59:59"),
        Some("20991231235959Z".to_owned())
    );
    assert_eq!(iso8601_to_generalized_time("2099-12-31"), None);
    let iso = generalized_time_to_iso8601("20991231235959Z").unwrap();
    assert_eq!(iso8601_to_generalized_time(&iso), Some("20991231235959Z".to_owned()));
}

#[test]
fn splitting_helpers() {
    assert_eq!(after("a.b.c", "."), Some("b.c"));
    assert_eq!(after_last("Applications:Grouper", ":"), Some("Grouper"));
    assert_eq!(before("a.b.c", "."), Some("a"));
    assert_eq!(before_and_after("host:389", ":"), Some(("host", "389")));
    assert_eq!(before_and_after_char("ou=people,dc=x?uid", '?'), Some(("ou=people,dc=x", "uid")));
    assert_eq!(replace_all("a b c", " ", ""), "abc".to_owned());
    assert_eq!(replace_all("(x=%TERM%)", "%TERM%", "jo"), "(x=jo)".to_owned());
}

#[test]
fn url_codec_round_trip() {
    let dn = Dn("uid=prigaux,ou=people,dc=nodomain".to_owned());
    let url = dn_to_url(&dn);
    assert_eq!(url, "ldap:///uid=prigaux,ou=people,dc=nodomain");
    let (dn2, opts) = url_to_dn(&url).unwrap();
    assert_eq!(dn2, dn.0);
    assert_eq!(opts.enddate, None);

    let dated = dn_opts_to_url(
        &dn,
        &DirectOptions { enddate: Some("2099-12-31T00:00:00".to_owned()) },
    );
    assert_eq!(
        dated,
        "ldap:///uid=prigaux,ou=people,dc=nodomain???(serverTime<20991231000000Z)"
    );
    let (dn3, opts3) = url_to_dn(&dated).unwrap();
    assert_eq!(dn3, dn.0);
    assert_eq!(opts3.enddate, Some("2099-12-31T00:00:00".to_owned()));
}

#[test]
fn url_codec_rejects_other_schemes() {
    assert!(url_to_dn("sql: remote=foo : select x from y").is_none());
    assert!(url_to_dn("ldap:///cn=a,ou=groups?attrs").is_none());
    assert!(urls_to_dns(vec![
        "ldap:///uid=a,dc=x".to_owned(),
        "sql: remote=foo : select x".to_owned(),
    ])
    .is_none());
    let parsed = urls_to_dns(vec!["ldap:///uid=a,dc=x".to_owned()]).unwrap();
    assert_eq!(parsed.len(), 1);
    assert_eq!(parsed[0].0 .0, "uid=a,dc=x");
}

#[test]
fn filters_escape_their_values() {
    // the escaping of the filter value comes from the directory library:
    // a value handed back unchanged would keep its asterisk
    assert_eq!(ldap_filter::eq("cn", "a*b"), "(cn=a\\2ab)");
    assert_eq!(ldap_filter::eq("cn", "a(b)c\\"), "(cn=a\\28b\\29c\\5c)");
    assert_eq!(ldap_filter::eq("cn", "plain"), "(cn=plain)");
    assert_eq!(ldap_filter::true_(), "(objectClass=*)");
    assert_eq!(ldap_filter::presence("memberURL;x-member;x-remote"), "(memberURL;x-member;x-remote=*)");
    assert_eq!(ldap_filter::and2("(a=1)", "(b=2)"), "(&(a=1)(b=2))");
    assert_eq!(ldap_filter::_not("(a=1)"), "(!(a=1))");
    assert_eq!(ldap_filter::or(vec!["(a=1)".to_owned()]), "(a=1)");
    assert_eq!(
        ldap_filter::or(vec!["(a=1)".to_owned(), "(b=2)".to_owned()]),
        "(|(a=1)(b=2))"
    );
    assert_eq!(ldap_filter::sgroup_children(""), "(cn=*)");
    assert_eq!(ldap_filter::sgroup_children("a."), "(&(cn=a.*)(!(cn=a.)))");
    assert_eq!(ldap_filter::sgroup_self_and_children("a."), "(cn=a.*)");
    assert_eq!(ldap_filter::member(&Dn("uid=a,dc=x".to_owned())), "(member=uid=a,dc=x)");
    assert_eq!(ldap_filter::rdn("uid=a"), "(uid=a)");
}

#[test]
fn audit_log_file_name() {
    assert_eq!(sgroup_log_file("/var/log/g", "collab.DSIUN"), "/var/log/g/collab.DSIUN.jsonl");
    assert_eq!(sgroup_log_file("/var/log/g", "a/b"), "/var/log/g/a_b.jsonl");
}

#[test]
fn audit_tail_drops_the_partial_first_line() {
    assert_eq!(tail_full_lines("{\"a\":1}\n{\"b\":2}\n", true), "{\"a\":1}\n{\"b\":2}\n");
    assert_eq!(tail_full_lines("1}\n{\"b\":2}\n", false), "{\"b\":2}\n");
    assert_eq!(tail_full_lines("no newline at all", false), "");
}

#[test]
fn cas_response_parsing() {
    let ok = "<cas:serviceResponse><cas:authenticationSuccess><cas:user>prigaux</cas:user></cas:authenticationSuccess></cas:serviceResponse>";
    assert_eq!(parse_cas_response(ok), Some("prigaux"));
    let bad = "<cas:serviceResponse><cas:authenticationFailure/></cas:serviceResponse>";
    assert_eq!(parse_cas_response(bad), None);
    assert_eq!(
        cas_validate_url("https://cas.example", "https://app/login", "ST-1"),
        "https://cas.example/serviceValidate?service=https://app/login&ticket=ST-1"
    );
}

#[test]
fn calendar_report_parsing() {
    let mut output = String::new();
    output.push_str("  Original form: *-*-* 04:00:00\n");
    output.push_str("    Next elapse: Tue 2023-10-17 04:00:00 CEST\n");
    output.push_str("       (in UTC): Tue 2023-10-17 02:00:00 UTC\n");
    output.push_str("       From now: 11h left\n");
    output.push_str("  Original form: Mon *-*-* 06:30:00\n");
    output.push_str("    Next elapse: Mon 2023-10-23 06:30:00 CEST\n");
    output.push_str("       (in UTC): Mon 2023-10-23 04:30:00 UTC\n");
    output.push_str("       From now: 5 days left\n");
    let parsed = groupald::calendar::parse_analyzer_output(&output).unwrap();
    assert_eq!(parsed.len(), 2);
    assert_eq!(parsed[0].0, "*-*-* 04:00:00");
    assert_eq!(parsed[0].1, "Tue 2023-10-17 02:00:00");
    assert_eq!(parsed[1].0, "Mon *-*-* 06:30:00");
    assert_eq!(parsed[1].1, "Mon 2023-10-23 04:30:00");

    // a block without a readable next elapse is an error
    assert!(groupald::calendar::parse_analyzer_output("Original form: x\nguff\n").is_err());
    // no block at all: an empty report
    assert_eq!(groupald::calendar::parse_analyzer_output("nothing here").unwrap().len(), 0);
}
