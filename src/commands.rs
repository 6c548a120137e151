//! Decisions the command-line front end makes before it calls the
//! library: argument values, which description to register, what a log
//! shows.
use vstd::prelude::*;
use vstd::string::StrSliceExecFns;

use crate::codec::{decimal, is_decimal};
use crate::metadata::PackageMetadata;
use crate::name::{str_eq, CleanName};
use crate::repository::has_package;
use crate::workspace::State;

verus! {

/// A worker count: a decimal number, at least one.
pub open spec fn count_of(s: Seq<char>) -> Option<usize> {
    if is_decimal(s) && 1 <= decimal(s) <= usize::MAX {
        Some(decimal(s) as usize)
    } else {
        None
    }
}

proof fn lemma_decimal_grows(s: Seq<char>, k: int)
    requires
        0 <= k <= s.len(),
        forall|i: int| 0 <= i < s.len() ==> '0' <= #[trigger] s[i] <= '9',
    ensures
        decimal(s.take(k)) <= decimal(s),
        0 <= decimal(s.take(k)),
    decreases s.len() - k,
{
    if k < s.len() {
        lemma_decimal_grows(s, k + 1);
        assert(s.take(k + 1).drop_last() =~= s.take(k));
        assert(s.take(k + 1).last() == s[k]);
    } else {
        assert(s.take(k) =~= s);
    }
    lemma_decimal_nonneg_prefix(s, k);
}

proof fn lemma_decimal_nonneg_prefix(s: Seq<char>, k: int)
    requires
        0 <= k <= s.len(),
        forall|i: int| 0 <= i < s.len() ==> '0' <= #[trigger] s[i] <= '9',
    ensures
        0 <= decimal(s.take(k)),
    decreases k,
{
    if k > 0 {
        lemma_decimal_nonneg_prefix(s, k - 1);
        assert(s.take(k).drop_last() =~= s.take(k - 1));
        assert(s.take(k).last() == s[k - 1]);
    }
}

/// Reads a worker count (`--num-threads`).
pub fn parse_count(s: &str) -> (r: Option<usize>)
    ensures
        r == count_of(s@),
{
    let n = s.unicode_len();
    if n == 0 {
        return None;
    }
    let mut value: usize = 0;
    let mut i: usize = 0;
    while i < n
        invariant
            n == s@.len(),
            i <= n,
            forall|j: int| 0 <= j < i ==> '0' <= #[trigger] s@[j] <= '9',
            value == decimal(s@.take(i as int)),
        decreases n - i,
    {
        let ch = s.get_char(i);
        if !('0' <= ch && ch <= '9') {
            return None;
        }
        let d = ((ch as u32) - ('0' as u32)) as usize;
        proof {
            assert(s@.take(i + 1).drop_last() =~= s@.take(i as int));
            assert(s@.take(i + 1).last() == ch);
        }
        if value > (usize::MAX - d) / 10 {
            proof {
                assert(value * 10 + d > usize::MAX) by (nonlinear_arith)
                    requires
                        value > (usize::MAX - d) / 10,
                        d <= 9,
                ;
                if forall|j: int| 0 <= j < s@.len() ==> '0' <= #[trigger] s@[j] <= '9' {
                    lemma_decimal_grows(s@, i + 1);
                }
            }
            return None;
        }
        proof {
            assert(value * 10 + d <= usize::MAX) by (nonlinear_arith)
                requires
                    value <= (usize::MAX - d) / 10,
                    d <= 9,
            ;
        }
        value = value * 10 + d;
        i += 1;
    }
    assert(s@.take(n as int) =~= s@);
    if value == 0 {
        return None;
    }
    Some(value)
}

/// Where the description of a new version comes from.
#[derive(Debug, Clone, PartialEq, Eq)]
pub enum DescriptionSource {
    /// No description.
    Empty,
    /// The text given on the command line.
    Text(String),
    /// The contents of the named file.
    File(String),
    /// The standard input (the file name `-`).
    Stdin,
}

#[derive(Debug, Clone, Copy, PartialEq, Eq)]
pub enum ArgumentError {
    /// A description and a description file were both given.
    ConflictingDescriptions,
}

/// Chooses the description source from `--description` and
/// `--description-file`, which exclude each other.
pub fn description_source(text: Option<String>, file: Option<String>) -> (r: Result<
    DescriptionSource,
    ArgumentError,
>)
    ensures
        r is Err <==> text is Some && file is Some,
        r is Err ==> r == Err::<DescriptionSource, ArgumentError>(ArgumentError::ConflictingDescriptions),
        (text is None && file is None) ==> r == Ok::<DescriptionSource, ArgumentError>(DescriptionSource::Empty),
        text matches Some(t) ==> (file is None ==> (r matches Ok(DescriptionSource::Text(x)) && x@ == t@)),
        file matches Some(f) ==> (text is None ==> (if f@ == "-"@ {
            r == Ok::<DescriptionSource, ArgumentError>(DescriptionSource::Stdin)
        } else {
            r matches Ok(DescriptionSource::File(x)) && x@ == f@
        })),
{
    match (text, file) {
        (None, None) => Ok(DescriptionSource::Empty),
        (Some(t), None) => Ok(DescriptionSource::Text(t)),
        (None, Some(f)) => if str_eq(f.as_str(), "-") {
            Ok(DescriptionSource::Stdin)
        } else {
            Ok(DescriptionSource::File(f))
        },
        (Some(_), Some(_)) => Err(ArgumentError::ConflictingDescriptions),
    }
}

/// `f` names the metadata of package `stem`: `<stem>.metadata`.
pub open spec fn metadata_stem(f: Seq<char>) -> Option<Seq<char>> {
    let n = ".metadata"@.len();
    if f.len() > n && f.subrange(f.len() - n, f.len() as int) == ".metadata"@ {
        Some(f.subrange(0, f.len() - n))
    } else {
        None
    }
}

/// `f` names the metadata of a package that `ps` does not hold.
pub open spec fn is_available(f: Seq<char>, ps: Seq<PackageMetadata>) -> bool {
    match metadata_stem(f) {
        Some(stem) => !has_package(ps, stem),
        None => false,
    }
}

/// `f` is one of `files`.
pub open spec fn listed(files: Seq<String>, f: Seq<char>) -> bool {
    exists|i: int| 0 <= i < files.len() && files[i]@ == f
}

/// The stem of `f` when it names a package's metadata.
pub fn stem_of(f: &str) -> (r: Option<&str>)
    ensures
        r is None <==> metadata_stem(f@) is None,
        r matches Some(s) ==> metadata_stem(f@) == Some(s@),
{
    proof {
        reveal_strlit(".metadata");
    }
    let n = f.unicode_len();
    if n <= 9 {
        return None;
    }
    let tail = f.substring_char(n - 9, n);
    if str_eq(tail, ".metadata") {
        Some(f.substring_char(0, n - 9))
    } else {
        None
    }
}

/// Of the file names `files` of a build directory, those of package
/// metadata (`<name>.metadata`) whose package is not registered in
/// `packages`, in the order given.
pub fn available_packages(files: &Vec<String>, packages: &Vec<PackageMetadata>) -> (r: Vec<String>)
    ensures
        r@.len() <= files@.len(),
        forall|k: int| 0 <= k < r@.len() ==> #[trigger] listed(files@, r@[k]@),
        forall|k: int|
            0 <= k < r@.len() ==> #[trigger] is_available(r@[k]@, packages@),
        forall|i: int|
            0 <= i < files@.len() && #[trigger] is_available(files@[i]@, packages@) ==> exists|k: int|
                0 <= k < r@.len() && r@[k]@ == files@[i]@,
{
    let mut out: Vec<String> = Vec::new();
    let mut i: usize = 0;
    let ghost mut origin: Seq<int> = Seq::empty();
    while i < files.len()
        invariant
            i <= files@.len(),
            out@.len() <= i,
            origin.len() == out@.len(),
            forall|k: int|
                0 <= k < out@.len() ==> 0 <= #[trigger] origin[k] < i && files@[origin[k]]@
                    == out@[k]@,
            forall|k: int|
                0 <= k < out@.len() ==> #[trigger] is_available(out@[k]@, packages@),
            forall|m: int|
                0 <= m < i && #[trigger] is_available(files@[m]@, packages@) ==> exists|k: int|
                    0 <= k < out@.len() && out@[k]@ == files@[m]@,
        decreases files@.len() - i,
    {
        let f = &files[i];
        let keep = match stem_of(f.as_str()) {
            Some(stem) => !registered(packages, stem),
            None => false,
        };
        let ghost before = out@;
        let ghost before_origin = origin;
        if keep {
            out.push(f.clone());
            proof {
                assert(out@[before.len() as int] == files@[i as int]);
                origin = origin.push(i as int);
            }
        }
        proof {
            assert forall|k: int| 0 <= k < out@.len() implies #[trigger] is_available(out@[k]@, packages@) by {
                if k < before.len() {
                    assert(out@[k] == before[k]);
                }
            }
            assert forall|m: int|
                0 <= m < i + 1 && #[trigger] is_available(files@[m]@, packages@) implies exists|k: int|
                0 <= k < out@.len() && out@[k]@ == files@[m]@ by {
                if m < i {
                    let k = choose|k: int| 0 <= k < before.len() && before[k]@ == files@[m]@;
                    assert(out@[k] == before[k]);
                } else {
                    assert(out@[before.len() as int]@ == files@[m]@);
                }
            }
        }
        i += 1;
    }
    proof {
        assert forall|k: int| 0 <= k < out@.len() implies #[trigger] listed(files@, out@[k]@) by {
            assert(0 <= origin[k] < files@.len() && files@[origin[k]]@ == out@[k]@);
        }
    }
    out
}

/// Whether a package named `stem` is registered.
fn registered(packages: &Vec<PackageMetadata>, stem: &str) -> (r: bool)
    ensures
        r == has_package(packages@, stem@),
{
    let mut i: usize = 0;
    while i < packages.len()
        invariant
            i <= packages@.len(),
            forall|j: int| 0 <= j < i ==> (#[trigger] packages@[j]).package_data_name@ != stem@,
        decreases packages@.len() - i,
    {
        if str_eq(packages[i].package_data_name.as_str(), stem) {
            return true;
        }
        i += 1;
    }
    false
}

/// The revision up to which a workspace log runs.
#[derive(Debug, Clone, PartialEq, Eq)]
pub enum LogTarget {
    /// The revision given on the command line.
    Given(String),
    /// The revision the workspace is stable at.
    Workspace(CleanName),
    /// The repository's current version.
    Latest,
}

/// `--to` wins; else `--latest` asks for the repository's current version;
/// else a stable workspace's own revision; else the current version.
pub fn log_target(state: &State, to: Option<String>, latest: bool) -> (r: LogTarget)
    ensures
        to matches Some(t) ==> (r matches LogTarget::Given(x) && x@ == t@),
        to is None && latest ==> r == LogTarget::Latest,
        to is None && !latest ==> (match state {
            State::Stable { version } => r matches LogTarget::Workspace(v) && v@ == version@,
            _ => r == LogTarget::Latest,
        }),
{
    match to {
        Some(t) => LogTarget::Given(t),
        None => if latest {
            LogTarget::Latest
        } else {
            match state {
                State::Stable { version } => LogTarget::Workspace(version.clone_name()),
                _ => LogTarget::Latest,
            }
        },
    }
}

} // verus!
