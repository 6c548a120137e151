//! The repository index: versions in publication order, packages, and the
//! current version.
use vstd::prelude::*;

use crate::metadata::{Current, PackageMetadata, Version};
use crate::name::{str_eq, CleanName};

verus! {

#[derive(Debug, Clone, Copy, PartialEq, Eq)]
pub enum RepositoryError {
    /// The version or package is absent.
    NotFound,
    /// The version or package is already registered.
    AlreadyExists,
    /// The version is still referenced by a package or is current.
    InUse,
}

/// Whether `vs` holds a version with revision `r`.
pub open spec fn has_revision(vs: Seq<Version>, r: Seq<char>) -> bool {
    exists|i: int| 0 <= i < vs.len() && (#[trigger] vs[i]).revision@ == r
}

/// Whether `ps` holds a package named `n`.
pub open spec fn has_package(ps: Seq<PackageMetadata>, n: Seq<char>) -> bool {
    exists|i: int| 0 <= i < ps.len() && (#[trigger] ps[i]).package_data_name@ == n
}

/// Whether package `p` goes from or to revision `r`.
pub open spec fn references(p: PackageMetadata, r: Seq<char>) -> bool {
    p.to@ == r || p.spec_from() == Some(r)
}

/// Whether some package of `ps` goes from or to `r`.
pub open spec fn referenced(ps: Seq<PackageMetadata>, r: Seq<char>) -> bool {
    exists|i: int| 0 <= i < ps.len() && references(#[trigger] ps[i], r)
}

/// The index of a repository.
#[derive(Debug, Clone)]
pub struct RepositoryIndex {
    pub current: Option<CleanName>,
    pub versions: Vec<Version>,
    pub packages: Vec<PackageMetadata>,
}

impl RepositoryIndex {
    pub open spec fn spec_current(&self) -> Option<Seq<char>> {
        match self.current {
            Some(c) => Some(c@),
            None => None,
        }
    }

    /// Revisions are unique; every package goes between registered
    /// versions; package names are unique; the current version is
    /// registered.
    pub open spec fn wf(&self) -> bool {
        &&& forall|i: int, j: int|
            0 <= i < j < self.versions@.len() ==> (#[trigger] self.versions@[i]).revision@
                != (#[trigger] self.versions@[j]).revision@
        &&& forall|i: int|
            0 <= i < self.packages@.len() ==> {
                let p = #[trigger] self.packages@[i];
                &&& has_revision(self.versions@, p.to@)
                &&& (p.spec_from() matches Some(f) ==> has_revision(self.versions@, f))
            }
        &&& forall|i: int, j: int|
            0 <= i < j < self.packages@.len() ==> (#[trigger] self.packages@[i]).package_data_name@
                != (#[trigger] self.packages@[j]).package_data_name@
        &&& (self.spec_current() matches Some(c) ==> has_revision(self.versions@, c))
    }

    /// An empty repository: no versions, no packages, no current version.
    pub fn new() -> (r: RepositoryIndex)
        ensures
            r.wf(),
            r.current is None,
            r.versions@.len() == 0,
            r.packages@.len() == 0,
    {
        RepositoryIndex { current: None, versions: Vec::new(), packages: Vec::new() }
    }

    /// The position of revision `r` in the versions, if registered.
    pub fn find_version(&self, r: &CleanName) -> (res: Option<usize>)
        ensures
            res is None <==> !has_revision(self.versions@, r@),
            res matches Some(i) ==> i < self.versions@.len() && self.versions@[i as int].revision@
                == r@,
            res matches Some(i) ==> forall|j: int|
                0 <= j < i ==> (#[trigger] self.versions@[j]).revision@ != r@,
    {
        let mut i: usize = 0;
        while i < self.versions.len()
            invariant
                i <= self.versions@.len(),
                forall|j: int| 0 <= j < i ==> (#[trigger] self.versions@[j]).revision@ != r@,
            decreases self.versions@.len() - i,
        {
            if self.versions[i].revision.same(r) {
                return Some(i);
            }
            i += 1;
        }
        None
    }

    /// The position of the package named `name`, if registered.
    pub fn find_package(&self, name: &CleanName) -> (res: Option<usize>)
        ensures
            res is None <==> !has_package(self.packages@, name@),
            res matches Some(i) ==> i < self.packages@.len()
                && self.packages@[i as int].package_data_name@ == name@,
    {
        let mut i: usize = 0;
        while i < self.packages.len()
            invariant
                i <= self.packages@.len(),
                forall|j: int|
                    0 <= j < i ==> (#[trigger] self.packages@[j]).package_data_name@ != name@,
            decreases self.packages@.len() - i,
        {
            if self.packages[i].package_data_name.same(name) {
                return Some(i);
            }
            i += 1;
        }
        None
    }

    /// Whether some package goes from or to `r`.
    pub fn is_referenced(&self, r: &CleanName) -> (res: bool)
        ensures
            res == referenced(self.packages@, r@),
    {
        let mut i: usize = 0;
        while i < self.packages.len()
            invariant
                i <= self.packages@.len(),
                forall|j: int| 0 <= j < i ==> !references(#[trigger] self.packages@[j], r@),
            decreases self.packages@.len() - i,
        {
            let p = &self.packages[i];
            if p.to.same(r) {
                return true;
            }
            match &p.from {
                Some(f) => {
                    if f.same(r) {
                        return true;
                    }
                },
                None => {},
            }
            i += 1;
        }
        false
    }

    /// Appends `v` to the versions; fails if its revision is registered.
    pub fn register_version(&mut self, v: Version) -> (res: Result<(), RepositoryError>)
        requires
            old(self).wf(),
        ensures
            final(self).wf(),
            res is Err <==> has_revision(old(self).versions@, v.revision@),
            res is Err ==> res == Err::<(), RepositoryError>(RepositoryError::AlreadyExists)
                && *final(self) == *old(self),
            res is Ok ==> final(self).versions@ == old(self).versions@.push(v) && final(self).packages
                == old(self).packages && final(self).current == old(self).current,
    {
        if self.find_version(&v.revision).is_some() {
            return Err(RepositoryError::AlreadyExists);
        }
        let ghost old_versions = self.versions@;
        self.versions.push(v);
        proof {
            assert forall|r: Seq<char>| has_revision(old_versions, r) implies has_revision(
                self.versions@,
                r,
            ) by {
                let i = choose|i: int| 0 <= i < old_versions.len() && (#[trigger] old_versions[i]).revision@ == r;
                assert(self.versions@[i] == old_versions[i]);
            }
        }
        Ok(())
    }

    /// Removes revision `r`; fails if it is absent, referenced by a
    /// package, or current.
    pub fn unregister_version(&mut self, r: &CleanName) -> (res: Result<(), RepositoryError>)
        requires
            old(self).wf(),
        ensures
            final(self).wf(),
            res is Ok <==> has_revision(old(self).versions@, r@) && !referenced(
                old(self).packages@,
                r@,
            ) && old(self).spec_current() != Some(r@),
            res == Err::<(), RepositoryError>(RepositoryError::NotFound) <==> !has_revision(
                old(self).versions@,
                r@,
            ),
            res == Err::<(), RepositoryError>(RepositoryError::InUse) <==> has_revision(
                old(self).versions@,
                r@,
            ) && (referenced(old(self).packages@, r@) || old(self).spec_current() == Some(r@)),
            res is Err ==> *final(self) == *old(self),
            res is Ok ==> !has_revision(final(self).versions@, r@) && final(self).packages
                == old(self).packages && final(self).current == old(self).current,
            res is Ok ==> exists|i: int|
                0 <= i < old(self).versions@.len() && final(self).versions@ == old(
                    self,
                ).versions@.remove(i),
    {
        let pos = match self.find_version(r) {
            None => {
                return Err(RepositoryError::NotFound);
            },
            Some(i) => i,
        };
        if self.is_referenced(r) {
            return Err(RepositoryError::InUse);
        }
        let is_current = match &self.current {
            Some(c) => c.same(r),
            None => false,
        };
        if is_current {
            return Err(RepositoryError::InUse);
        }
        let ghost old_versions = self.versions@;
        let ghost old_self = *self;
        self.versions.remove(pos);
        proof {
            let nv = self.versions@;
            assert(nv == old_versions.remove(pos as int));
            assert forall|i: int| 0 <= i < nv.len() implies (#[trigger] nv[i]).revision@ != r@ by {
                if i < pos {
                    assert(nv[i] == old_versions[i]);
                } else {
                    assert(nv[i] == old_versions[i + 1]);
                }
            }
            assert forall|s: Seq<char>| s != r@ && has_revision(old_versions, s) implies has_revision(
                nv,
                s,
            ) by {
                let i = choose|i: int| 0 <= i < old_versions.len() && (#[trigger] old_versions[i]).revision@ == s;
                if i < pos {
                    assert(nv[i] == old_versions[i]);
                } else if i > pos {
                    assert(nv[i - 1] == old_versions[i]);
                }
            }
            assert forall|i: int| 0 <= i < self.packages@.len() implies {
                let p = #[trigger] self.packages@[i];
                &&& has_revision(nv, p.to@)
                &&& (p.spec_from() matches Some(f) ==> has_revision(nv, f))
            } by {
                let p = self.packages@[i];
                assert(!references(p, r@));
            }
            assert forall|i: int, j: int| 0 <= i < j < nv.len() implies (#[trigger] nv[i]).revision@
                != (#[trigger] nv[j]).revision@ by {
                let oi = if i < pos { i } else { i + 1 };
                let oj = if j < pos { j } else { j + 1 };
                assert(nv[i] == old_versions[oi]);
                assert(nv[j] == old_versions[oj]);
            }
        }
        Ok(())
    }

    /// Appends package `p`; fails if a package of that name is registered,
    /// or if `p` goes from or to a revision that is not registered.
    pub fn register_package(&mut self, p: PackageMetadata) -> (res: Result<(), RepositoryError>)
        requires
            old(self).wf(),
        ensures
            final(self).wf(),
            res == Err::<(), RepositoryError>(RepositoryError::AlreadyExists) <==> has_package(
                old(self).packages@,
                p.package_data_name@,
            ),
            res == Err::<(), RepositoryError>(RepositoryError::NotFound) <==> !has_package(
                old(self).packages@,
                p.package_data_name@,
            ) && (!has_revision(old(self).versions@, p.to@) || (p.spec_from() matches Some(f)
                && !has_revision(old(self).versions@, f))),
            res is Err ==> *final(self) == *old(self),
            res is Ok ==> final(self).packages@ == old(self).packages@.push(p) && final(self).versions
                == old(self).versions && final(self).current == old(self).current,
    {
        if self.find_package(&p.package_data_name).is_some() {
            return Err(RepositoryError::AlreadyExists);
        }
        if self.find_version(&p.to).is_none() {
            return Err(RepositoryError::NotFound);
        }
        let from_known = match &p.from {
            Some(f) => self.find_version(f).is_some(),
            None => true,
        };
        if !from_known {
            return Err(RepositoryError::NotFound);
        }
        let ghost old_packages = self.packages@;
        self.packages.push(p);
        proof {
            let np = self.packages@;
            assert forall|i: int| 0 <= i < np.len() implies {
                let q = #[trigger] np[i];
                &&& has_revision(self.versions@, q.to@)
                &&& (q.spec_from() matches Some(f) ==> has_revision(self.versions@, f))
            } by {
                if i < old_packages.len() {
                    assert(np[i] == old_packages[i]);
                }
            }
            assert forall|i: int, j: int| 0 <= i < j < np.len() implies (#[trigger] np[i]).package_data_name@
                != (#[trigger] np[j]).package_data_name@ by {
                assert(np[i] == old_packages[i]);
                if j < old_packages.len() {
                    assert(np[j] == old_packages[j]);
                }
            }
        }
        Ok(())
    }

    /// Removes the package named `name` from the index; fails if absent.
    pub fn unregister_package(&mut self, name: &CleanName) -> (res: Result<(), RepositoryError>)
        requires
            old(self).wf(),
        ensures
            final(self).wf(),
            res is Err <==> !has_package(old(self).packages@, name@),
            res is Err ==> res == Err::<(), RepositoryError>(RepositoryError::NotFound) && *final(self)
                == *old(self),
            res is Ok ==> !has_package(final(self).packages@, name@) && final(self).versions
                == old(self).versions && final(self).current == old(self).current,
            res is Ok ==> exists|i: int|
                0 <= i < old(self).packages@.len() && final(self).packages@ == old(
                    self,
                ).packages@.remove(i),
    {
        let pos = match self.find_package(name) {
            None => {
                return Err(RepositoryError::NotFound);
            },
            Some(i) => i,
        };
        let ghost old_packages = self.packages@;
        self.packages.remove(pos);
        proof {
            let np = self.packages@;
            assert(np == old_packages.remove(pos as int));
            assert forall|i: int| 0 <= i < np.len() implies {
                let q = #[trigger] np[i];
                &&& has_revision(self.versions@, q.to@)
                &&& (q.spec_from() matches Some(f) ==> has_revision(self.versions@, f))
            } by {
                if i < pos {
                    assert(np[i] == old_packages[i]);
                } else {
                    assert(np[i] == old_packages[i + 1]);
                }
            }
            assert forall|i: int, j: int| 0 <= i < j < np.len() implies (#[trigger] np[i]).package_data_name@
                != (#[trigger] np[j]).package_data_name@ by {
                let oi = if i < pos { i } else { i + 1 };
                let oj = if j < pos { j } else { j + 1 };
                assert(np[i] == old_packages[oi]);
                assert(np[j] == old_packages[oj]);
            }
            assert forall|i: int| 0 <= i < np.len() implies (#[trigger] np[i]).package_data_name@
                != name@ by {
                if i < pos {
                    assert(np[i] == old_packages[i]);
                } else {
                    assert(np[i] == old_packages[i + 1]);
                }
            }
        }
        Ok(())
    }

    /// Makes `r` the current version; fails if it is not registered.
    pub fn set_current_version(&mut self, r: &CleanName) -> (res: Result<(), RepositoryError>)
        requires
            old(self).wf(),
        ensures
            final(self).wf(),
            res is Err <==> !has_revision(old(self).versions@, r@),
            res is Err ==> res == Err::<(), RepositoryError>(RepositoryError::NotFound) && *final(self)
                == *old(self),
            res is Ok ==> final(self).spec_current() == Some(r@) && final(self).versions
                == old(self).versions && final(self).packages == old(self).packages,
    {
        if self.find_version(r).is_none() {
            return Err(RepositoryError::NotFound);
        }
        self.current = Some(r.clone_name());
        Ok(())
    }

    /// The current version; fails if none was set.
    pub fn current_version(&self) -> (res: Result<Current, RepositoryError>)
        ensures
            res is Err <==> self.current is None,
            res is Err ==> res == Err::<Current, RepositoryError>(RepositoryError::NotFound),
            res matches Ok(c) ==> self.spec_current() == Some(c.version@),
    {
        match &self.current {
            Some(c) => Ok(Current { version: c.clone_name() }),
            None => Err(RepositoryError::NotFound),
        }
    }

    /// The total byte size of the registered packages.
    pub fn total_size(&self) -> (r: u128)
        ensures
            r == sum_sizes(self.packages@),
    {
        let mut total: u128 = 0;
        let mut i: usize = 0;
        while i < self.packages.len()
            invariant
                i <= self.packages@.len(),
                total == sum_sizes(self.packages@.take(i as int)),
                total <= i * (u64::MAX as int),
            decreases self.packages@.len() - i,
        {
            proof {
                assert(self.packages@.take(i + 1).drop_last() =~= self.packages@.take(i as int));
            }
            total = total + self.packages[i].size as u128;
            i += 1;
        }
        assert(self.packages@.take(self.packages@.len() as int) =~= self.packages@);
        total
    }
}

/// The sum of the sizes of `ps`.
pub open spec fn sum_sizes(ps: Seq<PackageMetadata>) -> int
    decreases ps.len(),
{
    if ps.len() == 0 {
        0
    } else {
        sum_sizes(ps.drop_last()) + ps.last().size
    }
}

/// In a well-formed index every registered package goes between
/// registered versions: there is a version equal to its `to`, and one
/// equal to its `from` when it is set.
pub proof fn lemma_packages_have_versions(idx: RepositoryIndex, i: int)
    requires
        idx.wf(),
        0 <= i < idx.packages@.len(),
    ensures
        exists|j: int|
            0 <= j < idx.versions@.len() && (#[trigger] idx.versions@[j]).revision@
                == idx.packages@[i].to@,
        idx.packages@[i].spec_from() matches Some(f) ==> exists|j: int|
            0 <= j < idx.versions@.len() && (#[trigger] idx.versions@[j]).revision@ == f,
{
    let p = idx.packages@[i];
    assert(has_revision(idx.versions@, p.to@));
}

/// The first position at or after `start` whose revision is `r`.
pub open spec fn first_at_or_after(vs: Seq<Version>, start: int, r: Seq<char>) -> Option<int> {
    if exists|k: int| start <= k < vs.len() && (#[trigger] vs[k]).revision@ == r {
        Some(
            choose|k: int|
                start <= k < vs.len() && (#[trigger] vs[k]).revision@ == r && forall|m: int|
                    start <= m < k ==> (#[trigger] vs[m]).revision@ != r,
        )
    } else {
        None
    }
}

/// The first position of revision `r` in `versions`, if any.
pub fn position_of(versions: &Vec<Version>, r: &str) -> (res: Option<usize>)
    ensures
        res is None <==> !has_revision(versions@, r@),
        res matches Some(i) ==> i < versions@.len() && versions@[i as int].revision@ == r@,
        res matches Some(i) ==> forall|j: int|
            0 <= j < i ==> (#[trigger] versions@[j]).revision@ != r@,
{
    let mut i: usize = 0;
    while i < versions.len()
        invariant
            i <= versions@.len(),
            forall|j: int| 0 <= j < i ==> (#[trigger] versions@[j]).revision@ != r@,
        decreases versions@.len() - i,
    {
        if str_eq(versions[i].revision.as_str(), r) {
            return Some(i);
        }
        i += 1;
    }
    None
}

/// The slice from `start` to `end` (excluded) of the version log that runs from revision
/// `from` (the oldest when `None`) up to and including the first later
/// `to`, or to the newest when `to` does not follow. Fails when `from` is
/// not registered.
pub fn log_range(versions: &Vec<Version>, from: Option<&str>, to: &str) -> (res: Result<
    (usize, usize),
    RepositoryError,
>)
    ensures
        res is Err <==> (from matches Some(f) && !has_revision(versions@, f@)),
        res is Err ==> res == Err::<(usize, usize), RepositoryError>(RepositoryError::NotFound),
        res matches Ok((start, end)) ==> {
            &&& start <= end <= versions@.len()
            &&& (from matches Some(f) ==> versions@[start as int].revision@ == f@ && forall|m: int|
                0 <= m < start ==> (#[trigger] versions@[m]).revision@ != f@)
            &&& (from is None ==> start == 0)
            &&& (forall|m: int| start <= m < end - 1 ==> (#[trigger] versions@[m]).revision@ != to@)
            &&& (end < versions@.len() ==> end > start && versions@[end - 1].revision@ == to@)
            &&& (end == versions@.len() && end > start ==> (versions@[end - 1].revision@ == to@
                || forall|m: int| start <= m < end ==> (#[trigger] versions@[m]).revision@ != to@))
        },
{
    let n = versions.len();
    let start: usize = match from {
        Some(f) => match position_of(versions, f) {
            Some(i) => i,
            None => {
                return Err(RepositoryError::NotFound);
            },
        },
        None => 0,
    };
    let mut end: usize = start;
    while end < n
        invariant
            n == versions@.len(),
            start <= end <= n,
            from matches Some(f) ==> start < n && versions@[start as int].revision@ == f@
                && forall|m: int| 0 <= m < start ==> (#[trigger] versions@[m]).revision@ != f@,
            from is None ==> start == 0,
            forall|m: int| start <= m < end ==> (#[trigger] versions@[m]).revision@ != to@,
        decreases n - end,
    {
        if str_eq(versions[end].revision.as_str(), to) {
            return Ok((start, end + 1));
        }
        end += 1;
    }
    Ok((start, end))
}

} // verus!
