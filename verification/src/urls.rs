use vstd::prelude::*;
use vstd::string::StrSliceExecFns;

use crate::helpers::{
    before_and_after, find_str, generalized_time_to_iso8601, iso8601_to_generalized_time,
    match_at, spec_after, spec_before, spec_find, spec_find_ensures, spec_gtime_to_iso,
    spec_iso_to_gtime, spec_starts_with, strip_prefix,
};
use crate::types::{DirectOptions, Dn, DnsOpts};

verus! {

/// The view of the prefix every subject URL carries.
pub open spec fn ldap_url_prefix() -> Seq<char> {
    seq!['l', 'd', 'a', 'p', ':', '/', '/', '/']
}

/// The view of the marker that opens the end-date option of a URL.
pub open spec fn server_time_marker() -> Seq<char> {
    seq![
        '?',
        '?',
        '?',
        '(',
        's',
        'e',
        'r',
        'v',
        'e',
        'r',
        'T',
        'i',
        'm',
        'e',
        '<',
    ]
}

/// What `url_to_dn` yields on a URL: the DN and the optional end date
/// (already rendered as ISO-8601), or nothing for a URL that does not
/// reference a subject by DN.
pub open spec fn spec_url_to_dn(u: Seq<char>) -> Option<(Seq<char>, Option<Seq<char>>)> {
    if !spec_starts_with(u, ldap_url_prefix()) {
        None
    } else {
        let d = u.subrange(ldap_url_prefix().len() as int, u.len() as int);
        if spec_find(d, server_time_marker()) is Some {
            let dn = spec_before(d, server_time_marker())->0;
            let rest = spec_after(d, server_time_marker())->0;
            let close = spec_find(rest, seq![')']);
            if close is Some && close->0 + 1 == rest.len() {
                Some((dn, spec_gtime_to_iso(rest.subrange(0, close->0))))
            } else {
                None
            }
        } else if spec_find(d, seq!['?']) is Some {
            None
        } else {
            Some((d, None))
        }
    }
}

/// Parse a URL as a subject reference: `ldap:///<DN>` yields the DN alone,
/// `ldap:///<DN>???(serverTime<<gtime>)` yields the DN with its end date,
/// and any other URL yields nothing.
pub fn url_to_dn<'a>(url: &'a str) -> (r: Option<(&'a str, DirectOptions)>)
    ensures
        match r {
            Some((dn, opts)) => spec_url_to_dn(url@) matches Some((sdn, send))
                && dn@ == sdn && (match opts.enddate {
                Some(e) => send == Some(e@),
                None => send is None,
            }),
            None => spec_url_to_dn(url@) is None,
        },
{
    proof {
        reveal_strlit("ldap:///");
        assert("ldap:///"@ =~= ldap_url_prefix());
        reveal_strlit("???(serverTime<");
        assert("???(serverTime<"@ =~= server_time_marker());
        reveal_strlit(")");
        assert(")"@ =~= seq![')']);
        reveal_strlit("?");
        assert("?"@ =~= seq!['?']);
    }
    let dn_part = match strip_prefix(url, "ldap:///") {
        Some(d) => d,
        None => {
            return None;
        },
    };
    if find_str(dn_part, "???(serverTime<").is_some() {
        match before_and_after(dn_part, "???(serverTime<") {
            Some((dn, rest)) => {
                match before_and_after(rest, ")") {
                    Some((enddate_, tail)) => {
                        if tail.unicode_len() == 0 {
                            proof {
                                spec_find_ensures(rest@, seq![')']);
                                let j = spec_find(rest@, seq![')'])->0;
                                assert(rest@.subrange(j + 1, rest@.len() as int) =~= Seq::<
                                    char,
                                >::empty());
                                assert(j + 1 == rest@.len());
                            }
                            Some((dn, DirectOptions { enddate: generalized_time_to_iso8601(enddate_) }))
                        } else {
                            proof {
                                spec_find_ensures(rest@, seq![')']);
                                let j = spec_find(rest@, seq![')'])->0;
                                if j + 1 == rest@.len() {
                                    assert(rest@.subrange(j + 1, rest@.len() as int) =~= Seq::<
                                        char,
                                    >::empty());
                                }
                            }
                            None
                        }
                    }
                    None => None,
                }
            }
            None => None,
        }
    } else if find_str(dn_part, "?").is_some() {
        None
    } else {
        Some((dn_part, DirectOptions { enddate: None }))
    }
}

/// As `url_to_dn`, returning owned values.
pub fn url_to_dn_(url: String) -> (r: Option<(Dn, DirectOptions)>)
    ensures
        match r {
            Some((dn, opts)) => spec_url_to_dn(url@) matches Some((sdn, send))
                && dn@ == sdn && (match opts.enddate {
                Some(e) => send == Some(e@),
                None => send is None,
            }),
            None => spec_url_to_dn(url@) is None,
        },
{
    match url_to_dn(url.as_str()) {
        Some((dn, opts)) => Some((Dn(dn.to_owned()), opts)),
        None => None,
    }
}

/// What `dn_to_url` yields: the URL referencing this DN, without options.
pub open spec fn spec_dn_to_url(dn: Seq<char>) -> Seq<char> {
    ldap_url_prefix() + dn
}

/// The URL referencing a subject by DN, without options.
pub fn dn_to_url(dn: &Dn) -> (r: String)
    ensures
        r@ == spec_dn_to_url(dn@),
{
    proof {
        reveal_strlit("ldap:///");
        assert("ldap:///"@ =~= ldap_url_prefix());
    }
    let mut r = String::new();
    r.append("ldap:///");
    r.append(dn.0.as_str());
    proof {
        assert(r@ =~= spec_dn_to_url(dn@));
    }
    r
}

/// What `dn_opts_to_url` yields: the URL carrying the end date when the
/// options hold a well-formed one, the plain URL otherwise.
pub open spec fn spec_dn_opts_to_url(dn: Seq<char>, enddate: Option<Seq<char>>) -> Seq<char> {
    match enddate {
        Some(e) => match spec_iso_to_gtime(e) {
            Some(g) => spec_dn_to_url(dn) + server_time_marker() + g + seq![')'],
            None => spec_dn_to_url(dn),
        },
        None => spec_dn_to_url(dn),
    }
}

/// The URL referencing a subject by DN, carrying its end date when the
/// options hold a well-formed one.
pub fn dn_opts_to_url(dn: &Dn, opts: &DirectOptions) -> (r: String)
    ensures
        r@ == spec_dn_opts_to_url(dn@, match opts.enddate {
            Some(e) => Some(e@),
            None => None,
        }),
{
    proof {
        reveal_strlit("???(serverTime<");
        assert("???(serverTime<"@ =~= server_time_marker());
        reveal_strlit(")");
        assert(")"@ =~= seq![')']);
    }
    if let Some(enddate) = &opts.enddate {
        if let Some(gtime) = iso8601_to_generalized_time(enddate.as_str()) {
            let mut r = dn_to_url(dn);
            r.append("???(serverTime<");
            r.append(gtime.as_str());
            r.append(")");
            proof {
                assert(r@ =~= spec_dn_opts_to_url(dn@, Some(enddate@)));
            }
            return r;
        }
    }
    dn_to_url(dn)
}

/// Parse every URL of a list; all must reference subjects by DN for the
/// list to parse.
pub fn urls_to_dns(urls: Vec<String>) -> (r: Option<DnsOpts>)
    ensures
        match r {
            Some(l) => l@.len() == urls@.len() && forall|i: int|
                0 <= i < urls@.len() ==> (spec_url_to_dn(#[trigger] urls@[i]@) matches Some(
                    (sdn, send),
                ) && l@[i].0@ == sdn && (match l@[i].1.enddate {
                    Some(e) => send == Some(e@),
                    None => send is None,
                })),
            None => exists|i: int|
                0 <= i < urls@.len() && spec_url_to_dn(#[trigger] urls@[i]@) is None,
        },
{
    let mut r: DnsOpts = Vec::new();
    let mut k: usize = 0;
    while k < urls.len()
        invariant
            k <= urls@.len(),
            r@.len() == k,
            forall|i: int|
                0 <= i < k ==> (spec_url_to_dn(#[trigger] urls@[i]@) matches Some((sdn, send))
                    && r@[i].0@ == sdn && (match r@[i].1.enddate {
                    Some(e) => send == Some(e@),
                    None => send is None,
                })),
        decreases urls@.len() - k,
    {
        let url = &urls[k];
        match url_to_dn(url.as_str()) {
            Some((dn, opts)) => {
                r.push((Dn(dn.to_owned()), opts));
            }
            None => {
                return None;
            }
        }
        k += 1;
    }
    Some(r)
}

/// The first RDN of a DN and the rest, split at the first comma.
pub fn dn_to_rdn_and_parent_dn<'a>(dn: &'a Dn) -> (r: Option<(&'a str, &'a str)>)
    ensures
        match r {
            Some((x, y)) => spec_before(dn@, seq![',']) == Some(x@) && spec_after(dn@, seq![','])
                == Some(y@),
            None => spec_find(dn@, seq![',']) is None,
        },
{
    proof {
        reveal_strlit(",");
        assert(","@ =~= seq![',']);
    }
    before_and_after(dn.0.as_str(), ",")
}

/// A URL without a question mark parses back to its DN with no options.
pub proof fn lemma_url_round_trip(dn: Seq<char>)
    requires
        spec_find(dn, seq!['?']) is None,
    ensures
        spec_url_to_dn(spec_dn_to_url(dn)) == Some((dn, None::<Seq<char>>)),
{
    let u = spec_dn_to_url(dn);
    assert(spec_starts_with(u, ldap_url_prefix())) by {
        assert(u.subrange(0, ldap_url_prefix().len() as int) =~= ldap_url_prefix());
    }
    let d = u.subrange(ldap_url_prefix().len() as int, u.len() as int);
    assert(d =~= dn);
    spec_find_ensures(dn, seq!['?']);
    spec_find_ensures(dn, server_time_marker());
    match spec_find(dn, server_time_marker()) {
        Some(i) => {
            assert(match_at(dn, server_time_marker(), i));
            assert(dn.subrange(i, i + server_time_marker().len() as int)[0] == '?');
            assert(match_at(dn, seq!['?'], i)) by {
                assert(dn.subrange(i, i + 1) =~= seq!['?']);
            }
        }
        None => {}
    }
}


} // verus!
