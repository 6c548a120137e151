//! Progress of a package build and of an update.
use vstd::prelude::*;

use std::sync::{Arc, Mutex, MutexGuard};

use crate::metadata::{Operation, PackageMetadata};

verus! {

#[verifier::external_type_specification]
#[verifier::external_body]
#[verifier::reject_recursive_types(T)]
pub struct ExMutex<T: ?Sized>(Mutex<T>);

#[verifier::external_type_specification]
#[verifier::external_body]
#[verifier::reject_recursive_types(T)]
pub struct ExMutexGuard<'a, T: ?Sized + 'a>(MutexGuard<'a, T>);

/// Relies on `std::sync::Mutex::new`: a lock that owns `state`.
#[verifier::external_body]
fn new_lock(state: BuildProgress) -> Mutex<BuildProgress> {
    Mutex::new(state)
}

/// Relies on `std::sync::Mutex::lock`: blocks until the lock is held. A
/// lock poisoned by a panicking holder is taken over as it stands.
#[verifier::external_body]
fn acquire(m: &Mutex<BuildProgress>) -> MutexGuard<'_, BuildProgress> {
    match m.lock() {
        Ok(guard) => guard,
        Err(poisoned) => poisoned.into_inner(),
    }
}

/// Build progress shared between the build's workers and its observers.
#[derive(Clone)]
pub struct SharedBuildProgress {
    state: Arc<Mutex<BuildProgress>>,
}

impl SharedBuildProgress {
    pub fn new(state: BuildProgress) -> Self {
        SharedBuildProgress { state: Arc::new(new_lock(state)) }
    }

    /// Takes the lock; the progress can be read and updated through the
    /// guard until it is dropped.
    pub fn lock(&self) -> MutexGuard<'_, BuildProgress> {
        acquire(&self.state)
    }
}

/// The coarse stage of a build, in the order the build goes through them.
#[derive(Debug, Copy, Clone, Eq, PartialEq, Ord, PartialOrd)]
pub enum BuildStage {
    BuildingTaskList,
    BuildingOperations,
    BuildingPackage,
}

#[derive(Debug, Copy, Clone, Eq, PartialEq, Ord, PartialOrd)]
pub enum BuildTaskStage {
    Init,
}

/// The progress of one build worker.
#[derive(Debug, Clone)]
pub struct BuildWorkerProgress {
    /// Current task name
    pub task_name: String,
    /// Current number of bytes processed
    pub processed_bytes: u64,
    /// Number of bytes to process
    pub process_bytes: u64,
}

#[derive(Debug)]
pub struct BuildProgress {
    /// Per worker progression (not empty and len is stable)
    pub workers: Vec<BuildWorkerProgress>,
    pub stage: BuildStage,
    /// Current number of bytes processed
    pub processed_bytes: u64,
    /// Number of bytes to process
    pub process_bytes: u64,
}

impl BuildProgress {
    /// At least one worker, and no counter ahead of its total.
    pub open spec fn wf(&self) -> bool {
        &&& self.workers@.len() > 0
        &&& self.processed_bytes <= self.process_bytes
        &&& forall|i: int|
            0 <= i < self.workers@.len() ==> (#[trigger] self.workers@[i]).processed_bytes
                <= self.workers@[i].process_bytes
    }

    /// The progress of a build with `num_workers` idle workers.
    pub fn new(num_workers: usize) -> (r: BuildProgress)
        requires
            num_workers > 0,
        ensures
            r.wf(),
            r.workers@.len() == num_workers,
            r.stage == BuildStage::BuildingTaskList,
            r.processed_bytes == 0,
            r.process_bytes == 0,
            forall|i: int|
                0 <= i < num_workers ==> (#[trigger] r.workers@[i]).processed_bytes == 0
                    && r.workers@[i].process_bytes == 0 && r.workers@[i].task_name@.len() == 0,
    {
        let mut workers: Vec<BuildWorkerProgress> = Vec::new();
        let mut i: usize = 0;
        while i < num_workers
            invariant
                i <= num_workers,
                workers@.len() == i,
                forall|k: int|
                    0 <= k < i ==> (#[trigger] workers@[k]).processed_bytes == 0
                        && workers@[k].process_bytes == 0 && workers@[k].task_name@.len() == 0,
            decreases num_workers - i,
        {
            workers.push(
                BuildWorkerProgress { task_name: String::new(), processed_bytes: 0, process_bytes: 0 },
            );
            i += 1;
        }
        BuildProgress {
            workers,
            stage: BuildStage::BuildingTaskList,
            processed_bytes: 0,
            process_bytes: 0,
        }
    }

    /// Moves the build to `stage`.
    pub fn set_stage(&mut self, stage: BuildStage)
        ensures
            final(self).stage == stage,
            final(self).workers == old(self).workers,
            final(self).processed_bytes == old(self).processed_bytes,
            final(self).process_bytes == old(self).process_bytes,
    {
        self.stage = stage;
    }

    /// Sets the number of bytes the whole stage has to process, and restarts
    /// its counter.
    pub fn start_stage_work(&mut self, process_bytes: u64)
        requires
            old(self).wf(),
        ensures
            final(self).wf(),
            final(self).process_bytes == process_bytes,
            final(self).processed_bytes == 0,
            final(self).workers == old(self).workers,
            final(self).stage == old(self).stage,
    {
        self.process_bytes = process_bytes;
        self.processed_bytes = 0;
    }

    /// Worker `worker` starts task `name` of `bytes` bytes.
    pub fn start_task(&mut self, worker: usize, name: String, bytes: u64)
        requires
            old(self).wf(),
            worker < old(self).workers@.len(),
        ensures
            final(self).wf(),
            final(self).workers@ == old(self).workers@.update(
                worker as int,
                BuildWorkerProgress { task_name: name, processed_bytes: 0, process_bytes: bytes },
            ),
            final(self).processed_bytes == old(self).processed_bytes,
            final(self).process_bytes == old(self).process_bytes,
            final(self).stage == old(self).stage,
    {
        self.workers.set(
            worker,
            BuildWorkerProgress { task_name: name, processed_bytes: 0, process_bytes: bytes },
        );
    }

    /// Worker `worker` processed `bytes` more bytes. Each counter grows by
    /// that amount, but stops at its total.
    pub fn advance(&mut self, worker: usize, bytes: u64)
        requires
            old(self).wf(),
            worker < old(self).workers@.len(),
        ensures
            final(self).wf(),
            final(self).workers@.len() == old(self).workers@.len(),
            final(self).processed_bytes == capped(
                old(self).processed_bytes,
                bytes,
                old(self).process_bytes,
            ),
            final(self).workers@[worker as int].processed_bytes == capped(
                old(self).workers@[worker as int].processed_bytes,
                bytes,
                old(self).workers@[worker as int].process_bytes,
            ),
            final(self).workers@[worker as int].process_bytes == old(
                self,
            ).workers@[worker as int].process_bytes,
            final(self).workers@[worker as int].task_name == old(
                self,
            ).workers@[worker as int].task_name,
            forall|i: int|
                0 <= i < old(self).workers@.len() && i != worker ==> #[trigger] final(self).workers@[i]
                    == old(self).workers@[i],
            final(self).process_bytes == old(self).process_bytes,
            final(self).stage == old(self).stage,
    {
        self.processed_bytes = add_capped(self.processed_bytes, bytes, self.process_bytes);
        let w = &self.workers[worker];
        let updated = BuildWorkerProgress {
            task_name: w.task_name.clone(),
            processed_bytes: add_capped(w.processed_bytes, bytes, w.process_bytes),
            process_bytes: w.process_bytes,
        };
        self.workers.set(worker, updated);
    }
}

/// `a + b`, but no more than `cap` (and no less than `a`).
pub open spec fn capped(a: u64, b: u64, cap: u64) -> u64 {
    if a >= cap {
        a
    } else if b >= cap - a {
        cap
    } else {
        (a + b) as u64
    }
}

pub fn add_capped(a: u64, b: u64, cap: u64) -> (r: u64)
    ensures
        r == capped(a, b, cap),
        a <= r,
        a <= cap ==> r <= cap,
{
    if a >= cap {
        a
    } else if b >= cap - a {
        cap
    } else {
        a + b
    }
}

/// The byte counters of an update: downloaded, decoded (applied input),
/// installed (applied output) and checked.
#[derive(Debug, Clone, Copy, PartialEq, Eq, Default)]
pub struct Histogram {
    pub downloaded_bytes: u64,
    pub applied_input_bytes: u64,
    pub applied_output_bytes: u64,
    pub checked_bytes: u64,
}

/// Every axis of `a` is at most the same axis of `b`.
pub open spec fn histogram_le(a: Histogram, b: Histogram) -> bool {
    &&& a.downloaded_bytes <= b.downloaded_bytes
    &&& a.applied_input_bytes <= b.applied_input_bytes
    &&& a.applied_output_bytes <= b.applied_output_bytes
    &&& a.checked_bytes <= b.checked_bytes
}

/// The axes of a histogram.
#[derive(Debug, Clone, Copy, PartialEq, Eq)]
pub enum Axis {
    Downloaded,
    AppliedInput,
    AppliedOutput,
    Checked,
}

/// `h` after `bytes` more bytes on `axis` (saturating at the largest count).
pub open spec fn recorded(h: Histogram, axis: Axis, bytes: u64) -> Histogram {
    match axis {
        Axis::Downloaded => Histogram {
            downloaded_bytes: capped(h.downloaded_bytes, bytes, u64::MAX),
            ..h
        },
        Axis::AppliedInput => Histogram {
            applied_input_bytes: capped(h.applied_input_bytes, bytes, u64::MAX),
            ..h
        },
        Axis::AppliedOutput => Histogram {
            applied_output_bytes: capped(h.applied_output_bytes, bytes, u64::MAX),
            ..h
        },
        Axis::Checked => Histogram { checked_bytes: capped(h.checked_bytes, bytes, u64::MAX), ..h },
    }
}

impl Histogram {
    pub fn new() -> (r: Histogram)
        ensures
            r.downloaded_bytes == 0,
            r.applied_input_bytes == 0,
            r.applied_output_bytes == 0,
            r.checked_bytes == 0,
    {
        Histogram { downloaded_bytes: 0, applied_input_bytes: 0, applied_output_bytes: 0, checked_bytes: 0 }
    }

    /// Counts `bytes` more bytes on `axis`.
    pub fn record(&mut self, axis: Axis, bytes: u64)
        ensures
            *final(self) == recorded(*old(self), axis, bytes),
            histogram_le(*old(self), *final(self)),
    {
        match axis {
            Axis::Downloaded => {
                self.downloaded_bytes = add_capped(self.downloaded_bytes, bytes, u64::MAX);
            },
            Axis::AppliedInput => {
                self.applied_input_bytes = add_capped(self.applied_input_bytes, bytes, u64::MAX);
            },
            Axis::AppliedOutput => {
                self.applied_output_bytes = add_capped(self.applied_output_bytes, bytes, u64::MAX);
            },
            Axis::Checked => {
                self.checked_bytes = add_capped(self.checked_bytes, bytes, u64::MAX);
            },
        }
    }

    /// A snapshot of the counters.
    pub fn progress(&self) -> (r: Histogram)
        ensures
            r == *self,
    {
        *self
    }
}

/// Progress never goes back: across the snapshots of one stream, where each
/// snapshot is the previous one after one more `record`, every axis of an
/// earlier snapshot is at most the same axis of any later one.
pub proof fn lemma_progress_monotonic(
    snaps: Seq<Histogram>,
    axes: Seq<Axis>,
    bytes: Seq<u64>,
    i: int,
    j: int,
)
    requires
        axes.len() == bytes.len(),
        snaps.len() == axes.len() + 1,
        forall|k: int| 0 <= k < axes.len() ==> #[trigger] snaps[k + 1] == recorded(snaps[k], axes[k], bytes[k]),
        0 <= i <= j < snaps.len(),
    ensures
        histogram_le(snaps[i], snaps[j]),
    decreases j - i,
{
    if i < j {
        lemma_progress_monotonic(snaps, axes, bytes, i, j - 1);
        let k = j - 1;
        assert(snaps[k + 1] == recorded(snaps[k], axes[k], bytes[k]));
    }
}

/// The amounts an update plan moves, which size its progress: bytes to
/// download, to decode, to install and to check. Each stops at the largest
/// count.
#[derive(Debug, Clone, Copy, PartialEq, Eq)]
pub struct UpdateTotals {
    pub download_bytes: u64,
    pub apply_input_bytes: u64,
    pub apply_output_bytes: u64,
    pub check_bytes: u64,
}

/// What operation `op` adds to the totals.
pub open spec fn op_totals(t: UpdateTotals, op: Operation) -> UpdateTotals {
    match op {
        Operation::Add { final_size, data_range, .. } => UpdateTotals {
            apply_input_bytes: capped(
                t.apply_input_bytes,
                if data_range.end >= data_range.start {
                    (data_range.end - data_range.start) as u64
                } else {
                    0
                },
                u64::MAX,
            ),
            apply_output_bytes: capped(t.apply_output_bytes, final_size, u64::MAX),
            ..t
        },
        Operation::Patch { final_size, data_range, .. } => UpdateTotals {
            apply_input_bytes: capped(
                t.apply_input_bytes,
                if data_range.end >= data_range.start {
                    (data_range.end - data_range.start) as u64
                } else {
                    0
                },
                u64::MAX,
            ),
            apply_output_bytes: capped(t.apply_output_bytes, final_size, u64::MAX),
            ..t
        },
        Operation::Check { final_size, .. } => UpdateTotals {
            check_bytes: capped(t.check_bytes, final_size, u64::MAX),
            ..t
        },
        _ => t,
    }
}

/// The totals after the operations `ops`, in order.
pub open spec fn ops_totals(t: UpdateTotals, ops: Seq<Operation>) -> UpdateTotals
    decreases ops.len(),
{
    if ops.len() == 0 {
        t
    } else {
        op_totals(ops_totals(t, ops.drop_last()), ops.last())
    }
}

/// The totals after package `p`: its size to download, then its
/// operations.
pub open spec fn package_totals(t: UpdateTotals, p: PackageMetadata) -> UpdateTotals {
    ops_totals(
        UpdateTotals { download_bytes: capped(t.download_bytes, p.size, u64::MAX), ..t },
        p.operations@,
    )
}

/// The totals of the packages of `ps` at the positions `plan`, in order.
pub open spec fn plan_totals_of(ps: Seq<PackageMetadata>, plan: Seq<usize>) -> UpdateTotals
    decreases plan.len(),
{
    if plan.len() == 0 {
        UpdateTotals { download_bytes: 0, apply_input_bytes: 0, apply_output_bytes: 0, check_bytes: 0 }
    } else {
        package_totals(plan_totals_of(ps, plan.drop_last()), ps[plan.last() as int])
    }
}

fn add_op(t: UpdateTotals, op: &Operation) -> (r: UpdateTotals)
    ensures
        r == op_totals(t, *op),
{
    match op {
        Operation::Add { final_size, data_range, .. } | Operation::Patch {
            final_size,
            data_range,
            ..
        } => {
            let input = if data_range.end >= data_range.start {
                data_range.end - data_range.start
            } else {
                0
            };
            UpdateTotals {
                apply_input_bytes: add_capped(t.apply_input_bytes, input, u64::MAX),
                apply_output_bytes: add_capped(t.apply_output_bytes, *final_size, u64::MAX),
                ..t
            }
        },
        Operation::Check { final_size, .. } => UpdateTotals {
            check_bytes: add_capped(t.check_bytes, *final_size, u64::MAX),
            ..t
        },
        _ => t,
    }
}

/// The totals of an update along `plan` (positions in `ps`).
pub fn plan_totals(ps: &Vec<PackageMetadata>, plan: &Vec<usize>) -> (r: UpdateTotals)
    requires
        forall|k: int| 0 <= k < plan@.len() ==> #[trigger] plan@[k] < ps@.len(),
    ensures
        r == plan_totals_of(ps@, plan@),
{
    let mut t = UpdateTotals { download_bytes: 0, apply_input_bytes: 0, apply_output_bytes: 0, check_bytes: 0 };
    let mut k: usize = 0;
    assert(plan@.take(0) =~= Seq::<usize>::empty());
    while k < plan.len()
        invariant
            k <= plan@.len(),
            forall|m: int| 0 <= m < plan@.len() ==> #[trigger] plan@[m] < ps@.len(),
            t == plan_totals_of(ps@, plan@.take(k as int)),
        decreases plan@.len() - k,
    {
        let p = &ps[plan[k]];
        proof {
            assert(plan@.take(k + 1).drop_last() =~= plan@.take(k as int));
            assert(plan@.take(k + 1).last() == plan@[k as int]);
        }
        let ghost before = t;
        t = UpdateTotals { download_bytes: add_capped(t.download_bytes, p.size, u64::MAX), ..t };
        let ghost start = t;
        let mut i: usize = 0;
        assert(p.operations@.take(0) =~= Seq::<Operation>::empty());
        while i < p.operations.len()
            invariant
                i <= p.operations@.len(),
                t == ops_totals(start, p.operations@.take(i as int)),
            decreases p.operations@.len() - i,
        {
            proof {
                assert(p.operations@.take(i + 1).drop_last() =~= p.operations@.take(i as int));
                assert(p.operations@.take(i + 1).last() == p.operations@[i as int]);
            }
            t = add_op(t, &p.operations[i]);
            i += 1;
        }
        assert(p.operations@.take(p.operations@.len() as int) =~= p.operations@);
        k += 1;
    }
    assert(plan@.take(plan@.len() as int) =~= plan@);
    t
}

} // verus!
