use vstd::prelude::*;
use vstd::string::StrSliceExecFns;

use crate::helpers::{
    before_and_after_char, spec_after, spec_before, spec_find, spec_starts_with, strip_prefix,
};
use crate::types::{Dn, MyErr};

verus! {

/// Where the opaque values a synchronization query returns are resolved:
/// a subject branch and the attribute carrying the value.
pub struct ToSubjectSource {
    pub ssdn: Dn,
    pub id_attr: String,
}

/// A parsed synchronization URL: the name of the configured remote, the
/// statement to run there, and, when the statement returns opaque values
/// rather than DNs, where to resolve them.
pub struct RemoteSqlQuery {
    pub remote_cfg_name: String,
    pub select_query: String,
    pub to_subject_source: Option<ToSubjectSource>,
}

/// A character the grammar tolerates around its punctuation.
pub open spec fn is_space(c: char) -> bool {
    c == ' ' || c == '\t' || c == '\n' || c == '\r'
}

/// `s` without its leading spaces.
pub open spec fn spec_trim_start(s: Seq<char>) -> Seq<char>
    decreases s.len(),
{
    if s.len() > 0 && is_space(s[0]) {
        spec_trim_start(s.drop_first())
    } else {
        s
    }
}

/// `s` without its trailing spaces.
pub open spec fn spec_trim_end(s: Seq<char>) -> Seq<char>
    decreases s.len(),
{
    if s.len() > 0 && is_space(s.last()) {
        spec_trim_end(s.drop_last())
    } else {
        s
    }
}

/// `s` without its leading spaces.
pub fn trim_start(s: &str) -> (r: &str)
    ensures
        r@ == spec_trim_start(s@),
{
    let len = s.unicode_len();
    let mut i: usize = 0;
    proof {
        assert(s@.skip(0) =~= s@);
    }
    while i < len
        invariant
            len == s@.len(),
            i <= len,
            spec_trim_start(s@) == spec_trim_start(s@.skip(i as int)),
        decreases len - i,
    {
        let c = s.get_char(i);
        let u = c as u32;
        if !(u == 32 || u == 9 || u == 10 || u == 13) {
            proof {
                assert(s@.skip(i as int)[0] == c);
            }
            return s.substring_char(i, len);
        }
        proof {
            assert(s@.skip(i as int)[0] == c);
            assert(s@.skip(i as int).drop_first() =~= s@.skip(i + 1));
        }
        i += 1;
    }
    proof {
        assert(s@.skip(len as int) =~= Seq::<char>::empty());
    }
    s.substring_char(len, len)
}

/// `s` without its trailing spaces.
pub fn trim_end(s: &str) -> (r: &str)
    ensures
        r@ == spec_trim_end(s@),
{
    let len = s.unicode_len();
    let mut i: usize = len;
    proof {
        assert(s@.take(len as int) =~= s@);
    }
    while i > 0
        invariant
            len == s@.len(),
            i <= len,
            spec_trim_end(s@) == spec_trim_end(s@.take(i as int)),
        decreases i,
    {
        let c = s.get_char(i - 1);
        let u = c as u32;
        if !(u == 32 || u == 9 || u == 10 || u == 13) {
            proof {
                assert(s@.take(i as int).last() == c);
            }
            return s.substring_char(0, i);
        }
        proof {
            assert(s@.take(i as int).last() == c);
            assert(s@.take(i as int).drop_last() =~= s@.take(i - 1));
        }
        i -= 1;
    }
    proof {
        assert(s@.take(0) =~= Seq::<char>::empty());
    }
    s.substring_char(0, 0)
}

/// What follows the prefix, trimmed on the left, if `s` carries the prefix.
pub fn strip_prefix_and_trim<'a>(s: &'a str, prefix: &str) -> (r: Option<&'a str>)
    ensures
        match r {
            Some(t) => spec_starts_with(s@, prefix@) && t@ == spec_trim_start(
                s@.subrange(prefix@.len() as int, s@.len() as int),
            ),
            None => !spec_starts_with(s@, prefix@),
        },
{
    match strip_prefix(s, prefix) {
        Some(t) => Some(trim_start(t)),
        None => None,
    }
}

/// The value of a `name=value :` parameter at the head of `s`, with what
/// follows the separator: the value is trimmed on the right, the rest on
/// the left.
pub open spec fn spec_get_param(name: Seq<char>, s: Seq<char>) -> Option<(Seq<char>, Seq<char>)> {
    if spec_starts_with(s, name + seq!['=']) {
        let after_eq = s.subrange(name.len() as int + 1, s.len() as int);
        match spec_find(after_eq, seq![':']) {
            Some(i) => Some(
                (
                    spec_trim_end(spec_before(after_eq, seq![':'])->0),
                    spec_trim_start(spec_after(after_eq, seq![':'])->0),
                ),
            ),
            None => None,
        }
    } else {
        None
    }
}

/// The value of a `name=value :` parameter at the head of `s`, with what
/// follows the separator.
pub fn get_param<'a>(param_name: &str, s: &'a str) -> (r: Option<(&'a str, &'a str)>)
    ensures
        match r {
            Some((v, rest)) => spec_get_param(param_name@, s@) == Some((v@, rest@)),
            None => spec_get_param(param_name@, s@) is None,
        },
{
    let ghost pat = param_name@ + seq!['='];
    let s1 = match strip_prefix(s, param_name) {
        Some(t) => t,
        None => {
            proof {
                if spec_starts_with(s@, pat) {
                    assert(s@.subrange(0, param_name@.len() as int) =~= param_name@) by {
                        assert forall|m: int|
                            0 <= m < param_name@.len() implies #[trigger] s@.subrange(
                            0,
                            param_name@.len() as int,
                        )[m] == param_name@[m] by {
                            assert(s@.subrange(0, pat.len() as int)[m] == pat[m]);
                        }
                    }
                }
            }
            return None;
        },
    };
    let s2 = match strip_prefix(s1, "=") {
        Some(t) => t,
        None => {
            proof {
                reveal_strlit("=");
                assert("="@ =~= seq!['=']);
                if spec_starts_with(s@, pat) {
                    assert(s1@.subrange(0, 1) =~= seq!['=']) by {
                        assert(s@.subrange(0, pat.len() as int)[param_name@.len() as int] == pat[param_name@.len() as int]);
                        assert(s1@[0] == s@[param_name@.len() as int]);
                    }
                }
            }
            return None;
        },
    };
    proof {
        reveal_strlit("=");
        assert("="@ =~= seq!['=']);
        assert(spec_starts_with(s@, pat)) by {
            assert(s@.subrange(0, pat.len() as int) =~= pat) by {
                assert forall|m: int|
                    0 <= m < pat.len() implies #[trigger] s@.subrange(0, pat.len() as int)[m]
                    == pat[m] by {
                    if m < param_name@.len() {
                        assert(s@.subrange(0, param_name@.len() as int)[m] == param_name@[m]);
                    } else {
                        assert(s1@[m - param_name@.len()] == s@[m]);
                        assert(s1@.subrange(0, 1)[0] == seq!['='][0]);
                    }
                }
            }
        }
        assert(s2@ =~= s@.subrange(pat.len() as int, s@.len() as int));
    }
    match before_and_after_char(s2, ':') {
        Some((param, rest)) => Some((trim_end(param), trim_start(rest))),
        None => None,
    }
}

/// The value of an optional parameter, with what follows it, or `s` itself
/// where the parameter is absent.
pub fn optional_param<'a>(param_name: &str, s: &'a str) -> (r: (Option<&'a str>, &'a str))
    ensures
        match spec_get_param(param_name@, s@) {
            Some((v, rest)) => r.0 matches Some(v2) && v2@ == v && r.1@ == rest,
            None => r.0 is None && r.1@ == s@,
        },
{
    match get_param(param_name, s) {
        Some((param, rest)) => (Some(param), rest),
        None => (None, s),
    }
}

/// Split a subject resolution as `<branch DN>?<attribute>`.
pub fn parse_to_subject_source(s: &str) -> (r: Result<ToSubjectSource, MyErr>)
    ensures
        match r {
            Ok(tss) => spec_find(s@, seq!['?']) is Some && spec_before(s@, seq!['?']) == Some(
                tss.ssdn@,
            ) && spec_after(s@, seq!['?']) == Some(tss.id_attr@),
            Err(e) => spec_find(s@, seq!['?']) is None && e is InvalidMods,
        },
{
    match before_and_after_char(s, '?') {
        Some((ssdn, id_attr)) => Ok(
            ToSubjectSource { ssdn: Dn(ssdn.to_owned()), id_attr: id_attr.to_owned() },
        ),
        None => {
            let mut msg = String::new();
            msg.append("expected ou=xxx,dc=xxx?uid, got ");
            msg.append(s);
            Err(MyErr::InvalidMods(msg))
        },
    }
}

/// What a well-formed synchronization URL parses to.
pub open spec fn spec_parse_sql_url(u: Seq<char>) -> Option<
    Option<(Seq<char>, Seq<char>, Option<(Seq<char>, Seq<char>)>)>,
> {
    let sql_marker = seq!['s', 'q', 'l', ':'];
    if !spec_starts_with(u, sql_marker) {
        Some(None)
    } else {
        let rest = spec_trim_start(u.subrange(4, u.len() as int));
        match spec_get_param(seq!['r', 'e', 'm', 'o', 't', 'e'], rest) {
            Some((name, rest2)) => {
                match spec_get_param(seq!['s', 'u', 'b', 'j', 'e', 'c', 't'], rest2) {
                    Some((subject, select)) => {
                        match spec_find(subject, seq!['?']) {
                            Some(_) => Some(
                                Some(
                                    (
                                        name,
                                        select,
                                        Some(
                                            (
                                                spec_before(subject, seq!['?'])->0,
                                                spec_after(subject, seq!['?'])->0,
                                            ),
                                        ),
                                    ),
                                ),
                            ),
                            None => None,
                        }
                    },
                    None => Some(Some((name, rest2, None::<(Seq<char>, Seq<char>)>))),
                }
            },
            None => None,
        }
    }
}

/// Parse a synchronization URL: `sql: remote=<name> :
/// [subject=<branch>?<attr> :] <select statement>`. A URL without the
/// marker is no synchronization URL; one with the marker but without a
/// readable remote name, or with an unreadable subject resolution, is an
/// error.
pub fn parse_sql_url(url: &str) -> (r: Result<Option<RemoteSqlQuery>, MyErr>)
    ensures
        match r {
            Ok(None) => spec_parse_sql_url(url@) == Some(
                None::<(Seq<char>, Seq<char>, Option<(Seq<char>, Seq<char>)>)>,
            ),
            Ok(Some(q)) => spec_parse_sql_url(url@) matches Some(Some((name, select, tss)))
                && q.remote_cfg_name@ == name && q.select_query@ == select && (match (
                q.to_subject_source,
                tss,
            ) {
                (Some(got), Some(want)) => got.ssdn@ == want.0 && got.id_attr@ == want.1,
                (None, None) => true,
                _ => false,
            }),
            Err(e) => spec_parse_sql_url(url@) is None,
        },
{
    proof {
        reveal_strlit("sql:");
        assert("sql:"@ =~= seq!['s', 'q', 'l', ':']);
        reveal_strlit("remote");
        assert("remote"@ =~= seq!['r', 'e', 'm', 'o', 't', 'e']);
        reveal_strlit("subject");
        assert("subject"@ =~= seq!['s', 'u', 'b', 'j', 'e', 'c', 't']);
    }
    let rest = match strip_prefix_and_trim(url, "sql:") {
        Some(t) => t,
        None => {
            return Ok(None);
        },
    };
    let (remote_cfg_name, rest2) = match get_param("remote", rest) {
        Some(p) => p,
        None => {
            let mut msg = String::new();
            msg.append("remote= is missing in ");
            msg.append(url);
            return Err(MyErr::InvalidMods(msg));
        },
    };
    let (subject, select) = optional_param("subject", rest2);
    match subject {
        Some(subject_str) => {
            match parse_to_subject_source(subject_str) {
                Ok(tss) => Ok(
                    Some(
                        RemoteSqlQuery {
                            remote_cfg_name: remote_cfg_name.to_owned(),
                            select_query: select.to_owned(),
                            to_subject_source: Some(tss),
                        },
                    ),
                ),
                Err(e) => Err(e),
            }
        }
        None => Ok(
            Some(
                RemoteSqlQuery {
                    remote_cfg_name: remote_cfg_name.to_owned(),
                    select_query: select.to_owned(),
                    to_subject_source: None,
                },
            ),
        ),
    }
}

impl ToSubjectSource {
    /// The textual form `<branch DN>?<attribute>`.
    pub fn to_url(&self) -> (r: String)
        ensures
            r@ == self.ssdn@ + seq!['?'] + self.id_attr@,
    {
        proof {
            reveal_strlit("?");
            assert("?"@ =~= seq!['?']);
        }
        let mut r = String::new();
        r.append(self.ssdn.0.as_str());
        r.append("?");
        r.append(self.id_attr.as_str());
        proof {
            assert(r@ =~= self.ssdn@ + seq!['?'] + self.id_attr@);
        }
        r
    }
}

impl RemoteSqlQuery {
    /// The textual form the parser reads back: `sql: remote=<name>
    /// [ : subject=<branch>?<attr>] : <select statement>`.
    pub fn to_url(&self) -> (r: String)
        ensures
            match self.to_subject_source {
                Some(tss) => r@ == "sql: remote="@ + self.remote_cfg_name@ + " : subject="@
                    + tss.ssdn@ + seq!['?'] + tss.id_attr@ + " : "@ + self.select_query@,
                None => r@ == "sql: remote="@ + self.remote_cfg_name@ + " : "@
                    + self.select_query@,
            },
    {
        proof {
            reveal_strlit("?");
            assert("?"@ =~= seq!['?']);
        }
        let mut r = String::new();
        r.append("sql: remote=");
        r.append(self.remote_cfg_name.as_str());
        match &self.to_subject_source {
            Some(tss) => {
                r.append(" : subject=");
                r.append(tss.ssdn.0.as_str());
                r.append("?");
                r.append(tss.id_attr.as_str());
            }
            None => {}
        }
        r.append(" : ");
        r.append(self.select_query.as_str());
        proof {
            match &self.to_subject_source {
                Some(tss) => {
                    assert(r@ =~= "sql: remote="@ + self.remote_cfg_name@ + " : subject="@
                        + tss.ssdn@ + seq!['?'] + tss.id_attr@ + " : "@ + self.select_query@);
                }
                None => {
                    assert(r@ =~= "sql: remote="@ + self.remote_cfg_name@ + " : "@
                        + self.select_query@);
                }
            }
        }
        r
    }
}

} // verus!
