//! The persisted state of a workspace and its transitions.
use vstd::prelude::*;

use crate::name::CleanName;

verus! {

/// A transition in progress, from `from` (`None` for an empty workspace)
/// to `to`, through the packages `available` of which the first ones,
/// `completed`, are applied.
#[derive(Debug, Clone)]
pub struct UpdatingState {
    pub from: Option<CleanName>,
    pub to: CleanName,
    pub available: Vec<CleanName>,
    pub completed: Vec<CleanName>,
    pub failures: Vec<String>,
}

/// The state of a workspace.
#[derive(Debug, Clone)]
pub enum State {
    /// An empty workspace.
    New,
    /// The workspace mirrors `version` exactly.
    Stable { version: CleanName },
    /// The workspace mirrors `version`, except the files in `failures`.
    Corrupted { version: CleanName, failures: Vec<String> },
    /// A transition in progress.
    Updating(UpdatingState),
}

#[derive(Debug, Clone, Copy, PartialEq, Eq)]
pub enum TransitionError {
    /// A corrupted workspace is only updated with a full check.
    NeedsCheck,
    /// The event does not apply to the workspace's state.
    WrongState,
    /// The package is not the next one of the plan.
    UnexpectedPackage,
}

/// The characters of each name.
pub open spec fn names(v: Seq<CleanName>) -> Seq<Seq<char>> {
    v.map_values(|n: CleanName| n@)
}

/// The characters of an optional name.
pub open spec fn opt_name(n: Option<CleanName>) -> Option<Seq<char>> {
    match n {
        Some(x) => Some(x@),
        None => None,
    }
}

/// The packages of a plan that remain once `done` of them are applied.
pub open spec fn remaining(available: Seq<Seq<char>>, done: int) -> Seq<Seq<char>> {
    available.subrange(done, available.len() as int)
}

impl UpdatingState {
    /// The completed packages are the first ones of the plan.
    pub open spec fn wf(&self) -> bool {
        &&& self.completed@.len() <= self.available@.len()
        &&& forall|i: int|
            0 <= i < self.completed@.len() ==> (#[trigger] self.completed@[i])@
                == self.available@[i]@
    }

    /// Whether every package of the plan is applied.
    pub fn is_done(&self) -> (r: bool)
        requires
            self.wf(),
        ensures
            r == (self.completed@.len() == self.available@.len()),
    {
        self.completed.len() == self.available.len()
    }

    /// The package to apply next, if any.
    pub fn next_package(&self) -> (r: Option<&CleanName>)
        requires
            self.wf(),
        ensures
            r is None <==> self.completed@.len() == self.available@.len(),
            r matches Some(n) ==> n@ == self.available@[self.completed@.len() as int]@,
    {
        if self.completed.len() < self.available.len() {
            Some(&self.available[self.completed.len()])
        } else {
            None
        }
    }

    /// Records that package `name` is applied; it must be the next one.
    pub fn complete_package(&mut self, name: &CleanName) -> (r: Result<(), TransitionError>)
        requires
            old(self).wf(),
        ensures
            final(self).wf(),
            r is Ok <==> old(self).completed@.len() < old(self).available@.len()
                && old(self).available@[old(self).completed@.len() as int]@ == name@,
            r is Err ==> r == Err::<(), TransitionError>(TransitionError::UnexpectedPackage),
            r is Err ==> *final(self) == *old(self),
            r is Ok ==> names(final(self).completed@) == names(old(self).completed@).push(name@),
            final(self).available == old(self).available,
            final(self).from == old(self).from,
            final(self).to == old(self).to,
            final(self).failures == old(self).failures,
    {
        let k = self.completed.len();
        if k < self.available.len() && self.available[k].same(name) {
            let ghost before = self.completed@;
            self.completed.push(name.clone_name());
            proof {
                assert(names(self.completed@) =~= names(before).push(name@));
            }
            Ok(())
        } else {
            Err(TransitionError::UnexpectedPackage)
        }
    }
}

/// Resuming is safe: whatever number of packages was applied before an
/// interruption, those packages followed by the ones that remain are the
/// whole plan, in order, each once.
pub proof fn lemma_resume_completes_plan(u: UpdatingState)
    requires
        u.wf(),
    ensures
        names(u.completed@) + remaining(names(u.available@), u.completed@.len() as int) == names(
            u.available@,
        ),
{
    let a = names(u.available@);
    let c = names(u.completed@);
    let k = u.completed@.len() as int;
    assert(c =~= a.subrange(0, k)) by {
        assert forall|i: int| 0 <= i < k implies c[i] == a[i] by {
            assert(u.completed@[i]@ == u.available@[i]@);
        }
    }
    assert(a.subrange(0, k) + a.subrange(k, a.len() as int) =~= a);
}

impl State {
    /// The revision the workspace holds, or comes from while updating.
    pub open spec fn spec_revision(&self) -> Option<Seq<char>> {
        match self {
            State::New => None,
            State::Stable { version } => Some(version@),
            State::Corrupted { version, .. } => Some(version@),
            State::Updating(u) => opt_name(u.from),
        }
    }

    pub open spec fn wf(&self) -> bool {
        match self {
            State::Updating(u) => u.wf(),
            _ => true,
        }
    }

    pub fn revision(&self) -> (r: Option<&CleanName>)
        ensures
            r is None <==> self.spec_revision() is None,
            r matches Some(n) ==> self.spec_revision() == Some(n@),
    {
        match self {
            State::New => None,
            State::Stable { version } => Some(version),
            State::Corrupted { version, .. } => Some(version),
            State::Updating(u) => match &u.from {
                Some(f) => Some(f),
                None => None,
            },
        }
    }

    /// Whether an update to `goal` has work to do: anything but a stable
    /// workspace already at `goal` (and not asked to check) needs one.
    pub fn needs_update(&self, goal: &CleanName, check: bool) -> (r: bool)
        ensures
            r == !(self matches State::Stable { version } && version@ == goal@ && !check),
    {
        match self {
            State::Stable { version } => check || !version.same(goal),
            _ => true,
        }
    }

    /// Starts an update to `to` along the packages `plan`. A corrupted
    /// workspace is only updated with `check`. A workspace that is already
    /// updating resumes its own transition.
    pub fn start_update(self, to: CleanName, plan: Vec<CleanName>, check: bool) -> (r: Result<
        State,
        TransitionError,
    >)
        requires
            self.wf(),
        ensures
            r is Err <==> (self is Corrupted && !check),
            r is Err ==> r == Err::<State, TransitionError>(TransitionError::NeedsCheck),
            r matches Ok(s) ==> s.wf() && s is Updating,
            r matches Ok(s) ==> (self is Updating ==> s == self),
            r matches Ok(State::Updating(u)) ==> !(self is Updating) ==> {
                &&& opt_name(u.from) == self.spec_revision()
                &&& u.to@ == to@
                &&& names(u.available@) == names(plan@)
                &&& u.completed@.len() == 0
                &&& u.failures@.len() == 0
            },
    {
        match self {
            State::Corrupted { version, failures } => {
                if !check {
                    return Err(TransitionError::NeedsCheck);
                }
                Ok(
                    State::Updating(
                        UpdatingState {
                            from: Some(version),
                            to,
                            available: plan,
                            completed: Vec::new(),
                            failures: Vec::new(),
                        },
                    ),
                )
            },
            State::New => Ok(
                State::Updating(
                    UpdatingState {
                        from: None,
                        to,
                        available: plan,
                        completed: Vec::new(),
                        failures: Vec::new(),
                    },
                ),
            ),
            State::Stable { version } => Ok(
                State::Updating(
                    UpdatingState {
                        from: Some(version),
                        to,
                        available: plan,
                        completed: Vec::new(),
                        failures: Vec::new(),
                    },
                ),
            ),
            State::Updating(u) => Ok(State::Updating(u)),
        }
    }

    /// Ends an update whose packages are all applied: stable at its target
    /// when no file failed, corrupted otherwise.
    pub fn finish_update(self, failures: Vec<String>) -> (r: Result<State, TransitionError>)
        requires
            self.wf(),
        ensures
            r is Err <==> !(self matches State::Updating(u) && u.completed@.len()
                == u.available@.len()),
            r is Err ==> r == Err::<State, TransitionError>(TransitionError::WrongState),
            r matches Ok(s) ==> (self matches State::Updating(u) && (if failures@.len() == 0 {
                s matches State::Stable { version } && version@ == u.to@
            } else {
                s matches State::Corrupted { version, failures: f } && version@ == u.to@ && f
                    == failures
            })),
    {
        match self {
            State::Updating(u) => {
                if !u.is_done() {
                    return Err(TransitionError::WrongState);
                }
                if failures.len() == 0 {
                    Ok(State::Stable { version: u.to })
                } else {
                    Ok(State::Corrupted { version: u.to, failures })
                }
            },
            _ => Err(TransitionError::WrongState),
        }
    }

    /// The state after an integrity check of a workspace at a known
    /// version found `failures`: stable when none, corrupted otherwise.
    pub fn after_check(self, failures: Vec<String>) -> (r: Result<State, TransitionError>)
        ensures
            r is Err <==> self is New || self is Updating,
            r is Err ==> r == Err::<State, TransitionError>(TransitionError::WrongState),
            r matches Ok(s) ==> (if failures@.len() == 0 {
                s matches State::Stable { version } && Some(version@) == self.spec_revision()
            } else {
                s matches State::Corrupted { version, failures: f } && Some(version@)
                    == self.spec_revision() && f == failures
            }),
    {
        let version = match self {
            State::Stable { version } => version,
            State::Corrupted { version, .. } => version,
            _ => {
                return Err(TransitionError::WrongState);
            },
        };
        if failures.len() == 0 {
            Ok(State::Stable { version })
        } else {
            Ok(State::Corrupted { version, failures })
        }
    }
}

/// How a stable workspace compares with the repository's current version.
#[derive(Debug, Clone, Copy, PartialEq, Eq)]
pub enum RemoteStatus {
    /// The current version is not known.
    Unknown,
    UpToDate,
    Outdated,
}

pub fn remote_status(version: &CleanName, latest: Option<&CleanName>) -> (r: RemoteStatus)
    ensures
        latest is None ==> r == RemoteStatus::Unknown,
        latest matches Some(l) ==> (r == RemoteStatus::UpToDate <==> l@ == version@),
        latest matches Some(l) ==> (r == RemoteStatus::Outdated <==> l@ != version@),
{
    match latest {
        None => RemoteStatus::Unknown,
        Some(l) => if l.same(version) {
            RemoteStatus::UpToDate
        } else {
            RemoteStatus::Outdated
        },
    }
}

} // verus!
