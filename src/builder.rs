//! The package builder's task list: what each path needs to go from the
//! previous tree to the source tree.
use vstd::prelude::*;

use crate::codec::{bytes_equal, copy_bytes};
use crate::name::str_eq;

verus! {

/// One entry of a directory walk: a directory, or a file with its size,
/// SHA-256 hash and mode.
#[derive(Debug, Clone)]
pub struct FileEntry {
    pub path: String,
    pub is_dir: bool,
    pub mode: u32,
    pub size: u64,
    pub hash: Vec<u8>,
}

/// What the builder decided for one path.
#[derive(Debug, Clone)]
pub enum Task {
    MkDir { path: String },
    RmDir { path: String },
    /// A new file, or one that replaces a directory.
    Add { path: String, mode: u32, size: u64, hash: Vec<u8> },
    /// A file whose bytes changed: patched from the previous bytes.
    Patch { path: String, mode: u32, size: u64, hash: Vec<u8>, local_size: u64, local_hash: Vec<u8> },
    /// A file whose bytes are the same: only checked.
    Check { path: String, mode: u32, size: u64, hash: Vec<u8> },
    Rm { path: String },
}

/// The kinds of tasks.
#[derive(Debug, Clone, Copy, PartialEq, Eq)]
pub enum TaskKind {
    MkDir,
    RmDir,
    Add,
    Patch,
    Check,
    Rm,
}

pub open spec fn kind_of(t: Task) -> TaskKind {
    match t {
        Task::MkDir { .. } => TaskKind::MkDir,
        Task::RmDir { .. } => TaskKind::RmDir,
        Task::Add { .. } => TaskKind::Add,
        Task::Patch { .. } => TaskKind::Patch,
        Task::Check { .. } => TaskKind::Check,
        Task::Rm { .. } => TaskKind::Rm,
    }
}

pub open spec fn task_path(t: Task) -> Seq<char> {
    match t {
        Task::MkDir { path } => path@,
        Task::RmDir { path } => path@,
        Task::Add { path, .. } => path@,
        Task::Patch { path, .. } => path@,
        Task::Check { path, .. } => path@,
        Task::Rm { path } => path@,
    }
}

/// The size, hash and mode the task's file must end with.
pub open spec fn task_final(t: Task) -> Option<(u64, Seq<u8>, u32)> {
    match t {
        Task::Add { size, hash, mode, .. } => Some((size, hash@, mode)),
        Task::Patch { size, hash, mode, .. } => Some((size, hash@, mode)),
        Task::Check { size, hash, mode, .. } => Some((size, hash@, mode)),
        _ => None,
    }
}

/// The first entry of `es` with path `p`.
pub open spec fn lookup(es: Seq<FileEntry>, p: Seq<char>) -> Option<int> {
    if exists|j: int| 0 <= j < es.len() && (#[trigger] es[j]).path@ == p {
        Some(
            choose|j: int|
                0 <= j < es.len() && (#[trigger] es[j]).path@ == p && forall|m: int|
                    0 <= m < j ==> (#[trigger] es[m]).path@ != p,
        )
    } else {
        None
    }
}

/// The kind of task for source entry `s`, given the previous entry at the
/// same path.
pub open spec fn decision(s: FileEntry, prev: Option<FileEntry>) -> TaskKind {
    if s.is_dir {
        TaskKind::MkDir
    } else {
        match prev {
            Some(p) => if p.is_dir {
                TaskKind::Add
            } else if p.size == s.size && p.hash@ == s.hash@ {
                TaskKind::Check
            } else {
                TaskKind::Patch
            },
            None => TaskKind::Add,
        }
    }
}

/// Task `t` is what source entry `s` needs, given the previous entry at
/// the same path.
pub open spec fn creates(t: Task, s: FileEntry, prev: Option<FileEntry>) -> bool {
    &&& kind_of(t) == decision(s, prev)
    &&& task_path(t) == s.path@
    &&& (!s.is_dir ==> task_final(t) == Some((s.size, s.hash@, s.mode)))
    &&& (t matches Task::Patch { local_size, local_hash, .. } ==> prev matches Some(p)
        && local_size == p.size && local_hash@ == p.hash@)
}

/// Task `t` removes previous entry `p`.
pub open spec fn removes(t: Task, p: FileEntry) -> bool {
    &&& kind_of(t) == (if p.is_dir {
        TaskKind::RmDir
    } else {
        TaskKind::Rm
    })
    &&& task_path(t) == p.path@
}

/// The positions, from `j` on and latest first, of the previous entries
/// whose path the source does not have.
pub open spec fn gone(src: Seq<FileEntry>, prev: Seq<FileEntry>, j: int) -> Seq<int>
    decreases prev.len() - j,
{
    if j < 0 || j >= prev.len() {
        Seq::empty()
    } else {
        let rest = gone(src, prev, j + 1);
        if lookup(src, prev[j].path@) is None {
            rest.push(j)
        } else {
            rest
        }
    }
}

fn removal(p: &FileEntry) -> (t: Task)
    ensures
        removes(t, *p),
{
    if p.is_dir {
        Task::RmDir { path: p.path.clone() }
    } else {
        Task::Rm { path: p.path.clone() }
    }
}

fn find_entry(es: &Vec<FileEntry>, p: &String) -> (r: Option<usize>)
    ensures
        r is None <==> lookup(es@, p@) is None,
        r matches Some(j) ==> lookup(es@, p@) == Some(j as int) && j < es@.len(),
{
    let mut j: usize = 0;
    while j < es.len()
        invariant
            j <= es@.len(),
            forall|m: int| 0 <= m < j ==> (#[trigger] es@[m]).path@ != p@,
        decreases es@.len() - j,
    {
        if str_eq(es[j].path.as_str(), p.as_str()) {
            proof {
                let c = choose|k: int|
                    0 <= k < es@.len() && (#[trigger] es@[k]).path@ == p@ && forall|m: int|
                        0 <= m < k ==> (#[trigger] es@[m]).path@ != p@;
                assert(es@[j as int].path@ == p@);
                if c < j {
                } else if c > j {
                    assert(es@[j as int].path@ != p@);
                }
            }
            return Some(j);
        }
        j += 1;
    }
    None
}

fn create_task(s: &FileEntry, prev: Option<&FileEntry>) -> (t: Task)
    ensures
        creates(
            t,
            *s,
            match prev {
                Some(p) => Some(*p),
                None => None,
            },
        ),
{
    if s.is_dir {
        return Task::MkDir { path: s.path.clone() };
    }
    match prev {
        Some(p) => {
            if p.is_dir {
                Task::Add { path: s.path.clone(), mode: s.mode, size: s.size, hash: copy_bytes(&s.hash) }
            } else if p.size == s.size && bytes_equal(&p.hash, &s.hash) {
                Task::Check { path: s.path.clone(), mode: s.mode, size: s.size, hash: copy_bytes(&s.hash) }
            } else {
                Task::Patch {
                    path: s.path.clone(),
                    mode: s.mode,
                    size: s.size,
                    hash: copy_bytes(&s.hash),
                    local_size: p.size,
                    local_hash: copy_bytes(&p.hash),
                }
            }
        },
        None => Task::Add { path: s.path.clone(), mode: s.mode, size: s.size, hash: copy_bytes(&s.hash) },
    }
}

/// The task list that takes a tree walked as `prev` to one walked as
/// `src` (`prev` is empty for a complete package): first one task per
/// source entry, in walk order, so that directories come before what they
/// hold; then one removal per previous entry whose path the source lacks,
/// in reverse walk order, so that what a directory holds goes before it.
pub fn task_list(src: &Vec<FileEntry>, prev: &Vec<FileEntry>) -> (r: Vec<Task>)
    ensures
        r@.len() == src@.len() + gone(src@, prev@, 0).len(),
        forall|i: int|
            0 <= i < src@.len() ==> creates(
                #[trigger] r@[i],
                src@[i],
                match lookup(prev@, src@[i].path@) {
                    Some(j) => Some(prev@[j]),
                    None => None,
                },
            ),
        forall|k: int|
            0 <= k < gone(src@, prev@, 0).len() ==> removes(
                #[trigger] r@[src@.len() + k],
                prev@[gone(src@, prev@, 0)[k]],
            ),
{
    let mut out: Vec<Task> = Vec::new();
    let mut i: usize = 0;
    while i < src.len()
        invariant
            i <= src@.len(),
            out@.len() == i,
            forall|m: int|
                0 <= m < i ==> creates(
                    #[trigger] out@[m],
                    src@[m],
                    match lookup(prev@, src@[m].path@) {
                        Some(j) => Some(prev@[j]),
                        None => None,
                    },
                ),
        decreases src@.len() - i,
    {
        let t = match find_entry(prev, &src[i].path) {
            Some(j) => create_task(&src[i], Some(&prev[j])),
            None => create_task(&src[i], None),
        };
        out.push(t);
        i += 1;
    }
    let mut j: usize = prev.len();
    while j > 0
        invariant
            j <= prev@.len(),
            out@.len() == src@.len() + gone(src@, prev@, j as int).len(),
            forall|m: int|
                0 <= m < src@.len() ==> creates(
                    #[trigger] out@[m],
                    src@[m],
                    match lookup(prev@, src@[m].path@) {
                        Some(j) => Some(prev@[j]),
                        None => None,
                    },
                ),
            forall|k: int|
                0 <= k < gone(src@, prev@, j as int).len() ==> removes(
                    #[trigger] out@[src@.len() + k],
                    prev@[gone(src@, prev@, j as int)[k]],
                ),
        decreases j,
    {
        j -= 1;
        let ghost before = out@;
        if find_entry(src, &prev[j].path).is_none() {
            out.push(removal(&prev[j]));
            proof {
                let g = gone(src@, prev@, j as int);
                assert(g == gone(src@, prev@, j + 1).push(j as int));
                assert forall|k: int| 0 <= k < g.len() implies removes(
                    #[trigger] out@[src@.len() + k],
                    prev@[g[k]],
                ) by {
                    if k < g.len() - 1 {
                        assert(out@[src@.len() + k] == before[src@.len() + k]);
                    }
                }
            }
        }
        assert forall|m: int| 0 <= m < src@.len() implies #[trigger] out@[m] == before[m] by {}
    }
    out
}

} // verus!
