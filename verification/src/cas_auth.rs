use vstd::prelude::*;
use vstd::string::StrSliceExecFns;

use crate::helpers::{between, spec_after, spec_before, spec_find};

verus! {

/// Whether a ticket-validation response reports success.
pub open spec fn spec_cas_success(body: Seq<char>) -> bool {
    spec_find(body, "<cas:authenticationSuccess>"@) is Some
}

/// The user a successful ticket-validation response names, if the response
/// reports success and carries a user element.
pub open spec fn spec_cas_user(body: Seq<char>) -> Option<Seq<char>> {
    if spec_cas_success(body) {
        match spec_after(body, "<cas:user>"@) {
            Some(t) => spec_before(t, "</"@),
            None => None,
        }
    } else {
        None
    }
}

/// The user named by a ticket-validation response, or nothing for a
/// response that does not report success.
pub fn parse_cas_response<'a>(body: &'a str) -> (r: Option<&'a str>)
    ensures
        match r {
            Some(user) => spec_cas_user(body@) == Some(user@),
            None => spec_cas_user(body@) is None,
        },
{
    if crate::helpers::find_str(body, "<cas:authenticationSuccess>").is_some() {
        between(body, "<cas:user>", "</")
    } else {
        None
    }
}

/// The address at which a service ticket is validated:
/// `<prefix>/serviceValidate?service=<service>&ticket=<ticket>`.
pub fn cas_validate_url(cas_prefix_url: &str, service: &str, ticket: &str) -> (r: String)
    ensures
        r@ == cas_prefix_url@ + "/serviceValidate?service="@ + service@ + "&ticket="@ + ticket@,
{
    let mut r = String::new();
    r.append(cas_prefix_url);
    r.append("/serviceValidate?service=");
    r.append(service);
    r.append("&ticket=");
    r.append(ticket);
    proof {
        assert(r@ =~= cas_prefix_url@ + "/serviceValidate?service="@ + service@ + "&ticket="@
            + ticket@);
    }
    r
}

} // verus!
