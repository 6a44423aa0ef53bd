use vstd::prelude::*;

verus! {

/// The four relation sets stored on an entry: `Member` plus the three rights.
#[derive(Clone, Copy, Debug, PartialEq, Eq, Structural)]
pub enum Mright {
    Member,
    Reader,
    Updater,
    Admin,
}

/// A right on a group or stem; totally ordered `Reader < Updater < Admin`.
#[derive(Clone, Copy, Debug, PartialEq, Eq, Structural)]
pub enum Right {
    Reader,
    Updater,
    Admin,
}

/// A kind of modification of one relation set.
#[derive(Clone, Copy, Debug, PartialEq, Eq, Structural)]
pub enum MyMod {
    Add,
    Delete,
    Replace,
}

/// The SQL driver of a configured remote.
#[derive(Clone, Copy, Debug, PartialEq, Eq, Structural)]
pub enum RemoteDriver {
    Mysql,
    Oracle,
}

/// A distinguished name.
#[derive(Clone, Debug, PartialEq, Eq, Hash, PartialOrd, Ord)]
pub struct Dn(pub String);

impl View for Dn {
    type V = Seq<char>;

    open spec fn view(&self) -> Seq<char> {
        self.0@
    }
}

/// Options attached to one direct relation: an optional end date
/// (ISO-8601, second precision) after which the relation expires.
#[derive(Clone, Debug, PartialEq, Eq, Default)]
pub struct DirectOptions {
    pub enddate: Option<String>,
}

/// The errors surfaced to callers.
#[derive(Clone, Debug, PartialEq, Eq)]
pub enum MyErr {
    /// The identifier does not validate.
    InvalidId(String),
    /// An attribute key is not in the configured vocabulary.
    InvalidAttrs(String),
    /// A forbidden combination of modifications.
    InvalidMods(String),
    /// The group or stem does not exist where it is required to.
    NotFound(String),
    /// The caller lacks the required right.
    Forbidden(String),
    /// A stem with descendants cannot be deleted.
    Conflict(String),
    /// A directory, SQL, audit or ticket-validation failure.
    External(String),
    /// An internal error reported as an opaque message.
    Msg(String),
}

/// The caller on whose behalf a request runs.
#[derive(Clone, Debug, PartialEq, Eq)]
pub enum LoggedUser {
    TrustedAdmin,
    User(String),
}

/// The identity URLs of the caller: either the bypass principal,
/// or the URL set computed for a real user.
#[derive(Clone, Debug, PartialEq, Eq)]
pub enum LoggedUserUrls {
    TrustedAdmin,
    User(Vec<String>),
}

/// Attributes of a group or stem, one value per key, keys unique.
pub type MonoAttrs = Vec<(String, String)>;

/// A set of subject DNs, each with its options; DNs unique.
pub type DnsOpts = Vec<(Dn, DirectOptions)>;

/// Requested modifications: for each role, for each kind of
/// modification, the DNs (with options) it bears on. Keys unique.
pub type MyMods = Vec<(Mright, Vec<(MyMod, DnsOpts)>)>;

impl Mright {
    /// Position of the role in the fixed order `Member, Reader, Updater, Admin`.
    pub open spec fn spec_level(self) -> int {
        match self {
            Mright::Member => 0,
            Mright::Reader => 1,
            Mright::Updater => 2,
            Mright::Admin => 3,
        }
    }

    /// Position of the role in the fixed order `Member, Reader, Updater, Admin`.
    pub fn level(self) -> (r: u8)
        ensures
            r as int == self.spec_level(),
    {
        match self {
            Mright::Member => 0,
            Mright::Reader => 1,
            Mright::Updater => 2,
            Mright::Admin => 3,
        }
    }

    /// The name of the role in requests and attribute names.
    pub open spec fn spec_name(self) -> Seq<char> {
        match self {
            Mright::Member => "member"@,
            Mright::Reader => "reader"@,
            Mright::Updater => "updater"@,
            Mright::Admin => "admin"@,
        }
    }

    /// The role a lower-case name denotes, or a message for any other name.
    pub fn from_string(mright: &str) -> (r: Result<Mright, String>)
        ensures
            match r {
                Ok(m) => mright@ == m.spec_name(),
                Err(_) => mright@ != Mright::Member.spec_name() && mright@
                    != Mright::Reader.spec_name() && mright@ != Mright::Updater.spec_name()
                    && mright@ != Mright::Admin.spec_name(),
            },
    {
        if crate::helpers::str_eq(mright, "member") {
            Ok(Mright::Member)
        } else if crate::helpers::str_eq(mright, "reader") {
            Ok(Mright::Reader)
        } else if crate::helpers::str_eq(mright, "updater") {
            Ok(Mright::Updater)
        } else if crate::helpers::str_eq(mright, "admin") {
            Ok(Mright::Admin)
        } else {
            let mut msg = String::new();
            msg.append("invalid mright ");
            msg.append(mright);
            Err(msg)
        }
    }

    /// The directory attribute holding the role's direct URL values.
    pub open spec fn spec_attr(self) -> Seq<char> {
        "memberURL;x-"@ + self.spec_name()
    }

    /// The directory attribute holding the role's direct URL values.
    pub fn to_attr(self) -> (r: String)
        ensures
            r@ == self.spec_attr(),
    {
        let mut r = String::new();
        r.append("memberURL;x-");
        match self {
            Mright::Member => r.append("member"),
            Mright::Reader => r.append("reader"),
            Mright::Updater => r.append("updater"),
            Mright::Admin => r.append("admin"),
        }
        r
    }

    /// The role's direct attribute carrying the synchronization tag.
    pub fn to_attr_synchronized(self) -> (r: String)
        ensures
            r@ == self.spec_attr() + ";x-remote"@,
    {
        let mut r = self.to_attr();
        r.append(";x-remote");
        r
    }

    /// The four roles, in the fixed order.
    pub fn list() -> (r: Vec<Mright>)
        ensures
            r@ == seq![Mright::Member, Mright::Reader, Mright::Updater, Mright::Admin],
    {
        let mut v: Vec<Mright> = Vec::new();
        v.push(Mright::Member);
        v.push(Mright::Reader);
        v.push(Mright::Updater);
        v.push(Mright::Admin);
        proof {
            assert(v@ =~= seq![Mright::Member, Mright::Reader, Mright::Updater, Mright::Admin]);
        }
        v
    }
}

impl Right {
    /// Position of the right in the lattice `Reader < Updater < Admin`.
    pub open spec fn spec_level(self) -> int {
        match self {
            Right::Reader => 1,
            Right::Updater => 2,
            Right::Admin => 3,
        }
    }

    /// Position of the right in the lattice `Reader < Updater < Admin`.
    pub fn level(self) -> (r: u8)
        ensures
            r as int == self.spec_level(),
    {
        match self {
            Right::Reader => 1,
            Right::Updater => 2,
            Right::Admin => 3,
        }
    }

    /// True iff `self` is at least `other` in the lattice.
    pub fn covers(self, other: Right) -> (r: bool)
        ensures
            r == (self.spec_level() >= other.spec_level()),
    {
        self.level() >= other.level()
    }

    /// The rights that grant `self`, best first.
    pub open spec fn spec_allowed_rights(self) -> Seq<Right> {
        match self {
            Right::Reader => seq![Right::Admin, Right::Updater, Right::Reader],
            Right::Updater => seq![Right::Admin, Right::Updater],
            Right::Admin => seq![Right::Admin],
        }
    }

    /// The rights that grant `self`, best first.
    pub fn to_allowed_rights(self) -> (r: Vec<Right>)
        ensures
            r@ == self.spec_allowed_rights(),
    {
        let mut v: Vec<Right> = Vec::new();
        v.push(Right::Admin);
        match self {
            Right::Reader => {
                v.push(Right::Updater);
                v.push(Right::Reader);
                proof {
                    assert(v@ =~= seq![Right::Admin, Right::Updater, Right::Reader]);
                }
            }
            Right::Updater => {
                v.push(Right::Updater);
                proof {
                    assert(v@ =~= seq![Right::Admin, Right::Updater]);
                }
            }
            Right::Admin => {
                proof {
                    assert(v@ =~= seq![Right::Admin]);
                }
            }
        }
        v
    }

    /// The role under which this right is stored.
    pub fn to_mright(self) -> (r: Mright)
        ensures
            r == self.spec_to_mright(),
    {
        match self {
            Right::Reader => Mright::Reader,
            Right::Updater => Mright::Updater,
            Right::Admin => Mright::Admin,
        }
    }

    /// The role under which this right is stored.
    pub open spec fn spec_to_mright(self) -> Mright {
        match self {
            Right::Reader => Mright::Reader,
            Right::Updater => Mright::Updater,
            Right::Admin => Mright::Admin,
        }
    }

    /// The right a lower-case name denotes, or a message for any other name.
    pub fn from_string(right: &str) -> (r: Result<Right, String>)
        ensures
            match r {
                Ok(x) => right@ == x.spec_to_mright().spec_name(),
                Err(_) => right@ != Mright::Reader.spec_name() && right@
                    != Mright::Updater.spec_name() && right@ != Mright::Admin.spec_name(),
            },
    {
        if crate::helpers::str_eq(right, "reader") {
            Ok(Right::Reader)
        } else if crate::helpers::str_eq(right, "updater") {
            Ok(Right::Updater)
        } else if crate::helpers::str_eq(right, "admin") {
            Ok(Right::Admin)
        } else {
            let mut msg = String::new();
            msg.append("invalid right ");
            msg.append(right);
            Err(msg)
        }
    }

    /// The directory attribute holding this right's direct URL values.
    pub fn to_attr(self) -> (r: String)
        ensures
            r@ == self.spec_to_mright().spec_attr(),
    {
        self.to_mright().to_attr()
    }

    /// The direct attributes of the rights that grant `self`, best first.
    pub fn to_allowed_attrs(self) -> (r: Vec<String>)
        ensures
            r@.len() == self.spec_allowed_rights().len(),
            forall|i: int|
                0 <= i < r@.len() ==> (#[trigger] r@[i])@ == self.spec_allowed_rights()[
                    i
                ].spec_to_mright().spec_attr(),
    {
        let allowed = self.to_allowed_rights();
        let mut r: Vec<String> = Vec::new();
        let mut k: usize = 0;
        while k < allowed.len()
            invariant
                allowed@ == self.spec_allowed_rights(),
                k <= allowed@.len(),
                r@.len() == k,
                forall|i: int|
                    0 <= i < k ==> (#[trigger] r@[i])@ == self.spec_allowed_rights()[
                        i
                    ].spec_to_mright().spec_attr(),
            decreases allowed@.len() - k,
        {
            r.push(allowed[k].to_attr());
            k += 1;
        }
        r
    }
}

/// The best of two optional rights, `None` being least.
pub fn best_of(a: Option<Right>, b: Option<Right>) -> (r: Option<Right>)
    ensures
        r == spec_best_of(a, b),
{
    match (a, b) {
        (None, _) => b,
        (Some(_), None) => a,
        (Some(x), Some(y)) => if x.level() >= y.level() {
            a
        } else {
            b
        },
    }
}

/// The best of two optional rights, `None` being least.
pub open spec fn spec_best_of(a: Option<Right>, b: Option<Right>) -> Option<Right> {
    match (a, b) {
        (None, _) => b,
        (Some(x), None) => a,
        (Some(x), Some(y)) => if x.spec_level() >= y.spec_level() {
            a
        } else {
            b
        },
    }
}

impl LoggedUser {
    /// The name recorded in the audit log for this caller.
    pub fn to_str(&self) -> (r: &str)
        ensures
            match self {
                LoggedUser::TrustedAdmin => r@ == "TrustedAdmin"@,
                LoggedUser::User(user) => r@ == user@,
            },
    {
        match self {
            LoggedUser::TrustedAdmin => "TrustedAdmin",
            LoggedUser::User(user) => user.as_str(),
        }
    }
}

} // verus!
