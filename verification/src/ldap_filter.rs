use vstd::prelude::*;
use vstd::string::StrSliceExecFns;

use crate::types::Dn;

verus! {

/// The escape sequence a character turns into inside a filter literal:
/// parentheses, the asterisk, the backslash and NUL become `\xx` hex
/// escapes; every other character stands for itself.
pub open spec fn escape_filter_char(c: char) -> Seq<char> {
    if c == '*' {
        seq!['\\', '2', 'a']
    } else if c == '(' {
        seq!['\\', '2', '8']
    } else if c == ')' {
        seq!['\\', '2', '9']
    } else if c == '\\' {
        seq!['\\', '5', 'c']
    } else if c == '\u{0}' {
        seq!['\\', '0', '0']
    } else {
        seq![c]
    }
}

/// A filter literal with every character escaped.
pub open spec fn spec_ldap_escape(s: Seq<char>) -> Seq<char>
    decreases s.len(),
{
    if s.len() == 0 {
        Seq::<char>::empty()
    } else {
        escape_filter_char(s[0]) + spec_ldap_escape(s.drop_first())
    }
}

/// Relies on ldap3::ldap_escape: escapes exactly `\ * ( )` and NUL of a
/// filter literal as lower-case `\xx` hex escapes, leaving every other
/// character unchanged.
#[verifier::external_body]
fn ldap_escape_str(s: &str) -> (r: String)
    ensures
        r@ == spec_ldap_escape(s@),
{
    ldap3::ldap_escape(s).into_owned()
}

/// The filter every entry matches.
pub fn true_() -> (r: &'static str)
    ensures
        r@ == "(objectClass=*)"@,
{
    "(objectClass=*)"
}

/// An equality filter `(attr=val)`, with the value escaped.
pub open spec fn spec_eq(attr: Seq<char>, val: Seq<char>) -> Seq<char> {
    seq!['('] + attr + seq!['='] + spec_ldap_escape(val) + seq![')']
}

/// An equality filter `(attr=val)`, with the value escaped.
pub fn eq(attr: &str, val: &str) -> (r: String)
    ensures
        r@ == spec_eq(attr@, val@),
{
    proof {
        reveal_strlit("(");
        reveal_strlit("=");
        reveal_strlit(")");
        assert("("@ =~= seq!['(']);
        assert("="@ =~= seq!['=']);
        assert(")"@ =~= seq![')']);
    }
    let mut r = String::new();
    r.append("(");
    r.append(attr);
    r.append("=");
    let escaped = ldap_escape_str(val);
    r.append(escaped.as_str());
    r.append(")");
    proof {
        assert(r@ =~= spec_eq(attr@, val@));
    }
    r
}

/// The negation of a filter.
pub fn _not(filter: &str) -> (r: String)
    ensures
        r@ == seq!['(', '!'] + filter@ + seq![')'],
{
    proof {
        reveal_strlit("(!");
        reveal_strlit(")");
        assert("(!"@ =~= seq!['(', '!']);
        assert(")"@ =~= seq![')']);
    }
    let mut r = String::new();
    r.append("(!");
    r.append(filter);
    r.append(")");
    proof {
        assert(r@ =~= seq!['(', '!'] + filter@ + seq![')']);
    }
    r
}

/// The conjunction of two filters.
pub open spec fn spec_and2(f1: Seq<char>, f2: Seq<char>) -> Seq<char> {
    seq!['(', '&'] + f1 + f2 + seq![')']
}

/// The conjunction of two filters.
pub fn and2(filter1: &str, filter2: &str) -> (r: String)
    ensures
        r@ == spec_and2(filter1@, filter2@),
{
    proof {
        reveal_strlit("(&");
        reveal_strlit(")");
        assert("(&"@ =~= seq!['(', '&']);
        assert(")"@ =~= seq![')']);
    }
    let mut r = String::new();
    r.append("(&");
    r.append(filter1);
    r.append(filter2);
    r.append(")");
    proof {
        assert(r@ =~= spec_and2(filter1@, filter2@));
    }
    r
}

/// The conjunction with an optional second filter, or the first one alone.
pub fn and2_if_some(filter1: &str, filter2: &Option<String>) -> (r: String)
    ensures
        match filter2 {
            Some(f2) => r@ == spec_and2(filter1@, f2@),
            None => r@ == filter1@,
        },
{
    match filter2 {
        Some(f2) => and2(filter1, f2.as_str()),
        None => filter1.to_owned(),
    }
}

/// The concatenation of a list of filters.
pub open spec fn spec_concat_filters(l: Seq<Seq<char>>) -> Seq<char>
    decreases l.len(),
{
    if l.len() == 0 {
        Seq::<char>::empty()
    } else {
        l[0] + spec_concat_filters(l.drop_first())
    }
}

/// The disjunction of a list of filters: a single filter stands alone,
/// any other list is wrapped in `(|...)`.
pub open spec fn spec_or(l: Seq<Seq<char>>) -> Seq<char> {
    if l.len() == 1 {
        l[0]
    } else {
        seq!['(', '|'] + spec_concat_filters(l) + seq![')']
    }
}

/// The disjunction of a list of filters.
pub fn or(l: Vec<String>) -> (r: String)
    ensures
        r@ == spec_or(l@.map_values(|s: String| s@)),
{
    proof {
        reveal_strlit("(|");
        reveal_strlit(")");
        assert("(|"@ =~= seq!['(', '|']);
        assert(")"@ =~= seq![')']);
    }
    if l.len() == 1 {
        let r = l[0].clone();
        return r;
    }
    let ghost views = l@.map_values(|s: String| s@);
    let mut r = String::new();
    r.append("(|");
    let mut i: usize = 0;
    while i < l.len()
        invariant
            views == l@.map_values(|s: String| s@),
            i <= l@.len(),
            r@ == seq!['(', '|'] + spec_concat_filters(views.subrange(0, i as int)),
        decreases l@.len() - i,
    {
        let ghost prev = r@;
        r.append(l[i].as_str());
        proof {
            lemma_concat_filters_push(views, i as int);
            assert(prev + views[i as int] =~= r@);
        }
        i += 1;
    }
    r.append(")");
    proof {
        assert(views.subrange(0, views.len() as int) =~= views);
        assert(r@ =~= spec_or(views));
    }
    r
}

/// Appending one more filter extends the concatenation by it.
proof fn lemma_concat_filters_push(l: Seq<Seq<char>>, i: int)
    requires
        0 <= i < l.len(),
    ensures
        spec_concat_filters(l.subrange(0, i + 1)) == spec_concat_filters(l.subrange(0, i)) + l[i],
    decreases i,
{
    if i == 0 {
        assert(l.subrange(0, 1).drop_first() =~= l.subrange(0, 0));
        assert(spec_concat_filters(l.subrange(0, 0)) =~= Seq::<char>::empty());
        assert(spec_concat_filters(l.subrange(0, 1)) =~= l[0]);
        assert(spec_concat_filters(l.subrange(0, 0)) + l[0] =~= l[0]);
    } else {
        lemma_concat_filters_push(l.drop_first(), i - 1);
        let a = l.subrange(0, i + 1);
        let b = l.subrange(0, i);
        assert(a.drop_first() =~= l.drop_first().subrange(0, i));
        assert(b.drop_first() =~= l.drop_first().subrange(0, i - 1));
        assert(l.drop_first()[i - 1] == l[i]);
        assert(b[0] + (spec_concat_filters(b.drop_first()) + l[i]) =~= b[0] + spec_concat_filters(
            b.drop_first(),
        ) + l[i]);
    }
}

/// A filter matching a relative distinguished name.
pub fn rdn(value: &str) -> (r: String)
    ensures
        r@ == seq!['('] + value@ + seq![')'],
{
    proof {
        reveal_strlit("(");
        reveal_strlit(")");
        assert("("@ =~= seq!['(']);
        assert(")"@ =~= seq![')']);
    }
    let mut r = String::new();
    r.append("(");
    r.append(value);
    r.append(")");
    proof {
        assert(r@ =~= seq!['('] + value@ + seq![')']);
    }
    r
}

/// A filter matching the entries whose flattened member set holds this DN.
pub fn member(dn: &Dn) -> (r: String)
    ensures
        r@ == spec_eq("member"@, dn@),
{
    eq("member", dn.0.as_str())
}

/// A presence filter `(attr=*)`.
pub fn presence(attr: &str) -> (r: String)
    ensures
        r@ == seq!['('] + attr@ + seq!['=', '*', ')'],
{
    proof {
        reveal_strlit("(");
        reveal_strlit("=*)");
        assert("("@ =~= seq!['(']);
        assert("=*)"@ =~= seq!['=', '*', ')']);
    }
    let mut r = String::new();
    r.append("(");
    r.append(attr);
    r.append("=*)");
    proof {
        assert(r@ =~= seq!['('] + attr@ + seq!['=', '*', ')']);
    }
    r
}

/// A filter matching a group or stem and all its descendants.
pub open spec fn spec_sgroup_self_and_children(id: Seq<char>) -> Seq<char> {
    seq!['(', 'c', 'n', '='] + spec_ldap_escape(id) + seq!['*', ')']
}

/// A filter matching a group or stem and all its descendants.
pub fn sgroup_self_and_children(id: &str) -> (r: String)
    ensures
        r@ == spec_sgroup_self_and_children(id@),
{
    proof {
        reveal_strlit("(cn=");
        reveal_strlit("*)");
        assert("(cn="@ =~= seq!['(', 'c', 'n', '=']);
        assert("*)"@ =~= seq!['*', ')']);
    }
    let escaped = ldap_escape_str(id);
    let mut r = String::new();
    r.append("(cn=");
    r.append(escaped.as_str());
    r.append("*)");
    proof {
        assert(r@ =~= spec_sgroup_self_and_children(id@));
    }
    r
}

/// A filter matching the strict descendants of a stem: all groups and stems
/// for the root, and otherwise everything under the identifier but itself.
pub open spec fn spec_sgroup_children(id: Seq<char>) -> Seq<char> {
    if id.len() == 0 {
        seq!['(', 'c', 'n', '=', '*', ')']
    } else {
        let e = spec_ldap_escape(id);
        seq!['(', '&', '(', 'c', 'n', '='] + e + seq!['*', ')', '(', '!', '(', 'c', 'n', '='] + e
            + seq![')', ')', ')']
    }
}

/// A filter matching the strict descendants of a stem.
pub fn sgroup_children(id: &str) -> (r: String)
    ensures
        r@ == spec_sgroup_children(id@),
{
    if id.unicode_len() == 0 {
        proof {
            reveal_strlit("(cn=*)");
            assert("(cn=*)"@ =~= seq!['(', 'c', 'n', '=', '*', ')']);
        }
        let r = String::new();
        return r.concat("(cn=*)");
    }
    proof {
        reveal_strlit("(&(cn=");
        reveal_strlit("*)(!(cn=");
        reveal_strlit(")))");
        assert("(&(cn="@ =~= seq!['(', '&', '(', 'c', 'n', '=']);
        assert("*)(!(cn="@ =~= seq!['*', ')', '(', '!', '(', 'c', 'n', '=']);
        assert(")))"@ =~= seq![')', ')', ')']);
    }
    let escaped = ldap_escape_str(id);
    let mut r = String::new();
    r.append("(&(cn=");
    r.append(escaped.as_str());
    r.append("*)(!(cn=");
    r.append(escaped.as_str());
    r.append(")))");
    proof {
        assert(r@ =~= spec_sgroup_children(id@));
    }
    r
}


} // verus!
