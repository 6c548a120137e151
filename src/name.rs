//! Clean names: the identifiers that may appear in a file name.
use vstd::prelude::*;
use vstd::string::{StrSliceExecFns, StringExecFns};

verus! {

/// A character allowed in a clean name: `[A-Za-z0-9_.-]`.
pub open spec fn is_clean_char(c: char) -> bool {
    ('A' <= c && c <= 'Z') || ('a' <= c && c <= 'z') || ('0' <= c && c <= '9') || c == '_'
        || c == '.' || c == '-'
}

/// A clean name is a non-empty sequence of clean characters.
pub open spec fn is_clean_name(s: Seq<char>) -> bool {
    s.len() > 0 && forall|i: int| 0 <= i < s.len() ==> is_clean_char(#[trigger] s[i])
}

/// Error returned when a value does not match `[A-Za-z0-9_.-]+`.
#[derive(Debug, Clone, PartialEq, Eq)]
pub struct InvalidName {
    pub value: String,
}

/// A string matching `[A-Za-z0-9_.-]+`.
#[derive(Debug, Clone, PartialEq, Eq, Hash)]
pub struct CleanName {
    name: String,
}

impl View for CleanName {
    type V = Seq<char>;

    closed spec fn view(&self) -> Seq<char> {
        self.name@
    }
}

/// Whether `c` may appear in a clean name.
pub fn char_is_clean(c: char) -> (r: bool)
    ensures
        r == is_clean_char(c),
{
    ('A' <= c && c <= 'Z') || ('a' <= c && c <= 'z') || ('0' <= c && c <= '9') || c == '_'
        || c == '.' || c == '-'
}

/// Tests whether `s` is a clean name.
pub fn str_is_clean(s: &str) -> (r: bool)
    ensures
        r == is_clean_name(s@),
{
    let n = s.unicode_len();
    if n == 0 {
        return false;
    }
    let mut i: usize = 0;
    while i < n
        invariant
            n == s@.len(),
            i <= n,
            forall|j: int| 0 <= j < i ==> is_clean_char(#[trigger] s@[j]),
        decreases n - i,
    {
        let c = s.get_char(i);
        if !char_is_clean(c) {
            return false;
        }
        i += 1;
    }
    true
}

/// Character-wise equality of two strings.
pub fn str_eq(a: &str, b: &str) -> (r: bool)
    ensures
        r == (a@ == b@),
{
    let n = a.unicode_len();
    let m = b.unicode_len();
    if n != m {
        return false;
    }
    let mut i: usize = 0;
    while i < n
        invariant
            n == a@.len(),
            m == b@.len(),
            n == m,
            i <= n,
            forall|j: int| 0 <= j < i ==> a@[j] == b@[j],
        decreases n - i,
    {
        if a.get_char(i) != b.get_char(i) {
            return false;
        }
        i += 1;
    }
    assert(a@ =~= b@);
    true
}

/// The name of a package: `patch_<from>_<to>`, or `complete_<to>` when
/// there is no `from`.
pub open spec fn package_name_of(from: Option<Seq<char>>, to: Seq<char>) -> Seq<char> {
    match from {
        Some(f) => "patch_"@ + f + "_"@ + to,
        None => "complete_"@ + to,
    }
}

impl CleanName {
    /// The name of the package from `from` (complete when `None`) to `to`.
    pub fn package_name(from: Option<&CleanName>, to: &CleanName) -> (r: CleanName)
        requires
            from matches Some(f) ==> f.wf(),
            to.wf(),
        ensures
            r@ == package_name_of(
                match from {
                    Some(f) => Some(f@),
                    None => None,
                },
                to@,
            ),
            r.wf(),
    {
        proof {
            reveal_strlit("patch_");
            reveal_strlit("_");
            reveal_strlit("complete_");
        }
        let mut s = match from {
            Some(f) => {
                let mut s = String::from_str("patch_");
                s.append(f.as_str());
                s.append("_");
                s
            },
            None => String::from_str("complete_"),
        };
        s.append(to.as_str());
        proof {
            let v = s@;
            assert forall|i: int| 0 <= i < v.len() implies is_clean_char(#[trigger] v[i]) by {
                match from {
                    Some(f) => {
                        let a = "patch_"@.len() as int;
                        let b = a + f@.len();
                        if a <= i < b {
                            assert(v[i] == f@[i - a]);
                        } else if b + 1 <= i {
                            assert(v[i] == to@[i - b - 1]);
                        }
                    },
                    None => {
                        let a = "complete_"@.len() as int;
                        if a <= i {
                            assert(v[i] == to@[i - a]);
                        }
                    },
                }
            }
        }
        CleanName { name: s }
    }

    /// The name is clean.
    pub closed spec fn wf(&self) -> bool {
        is_clean_name(self.name@)
    }

    /// Validates `name`.
    pub fn new(name: String) -> (r: Result<CleanName, InvalidName>)
        ensures
            is_clean_name(name@) <==> r is Ok,
            r matches Ok(n) ==> n@ == name@ && n.wf(),
            r matches Err(e) ==> e.value@ == name@,
    {
        if str_is_clean(name.as_str()) {
            Ok(CleanName { name })
        } else {
            Err(InvalidName { value: name })
        }
    }

    /// A copy of this name.
    pub fn clone_name(&self) -> (r: CleanName)
        ensures
            r@ == self@,
            self.wf() ==> r.wf(),
    {
        CleanName { name: self.name.clone() }
    }

    pub fn as_str(&self) -> (r: &str)
        ensures
            r@ == self@,
    {
        self.name.as_str()
    }

    /// Two names are equal when their characters are.
    pub fn same(&self, other: &CleanName) -> (r: bool)
        ensures
            r == (self@ == other@),
    {
        self.name == other.name
    }
}

} // verus!
