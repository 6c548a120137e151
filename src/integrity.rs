//! Integrity of installed files: staged outputs are installed only when
//! they hash to what the operation recorded.
use vstd::prelude::*;

use crate::codec::{bytes_equal, copy_bytes, sha256, sha256_of};
use crate::builder::{creates, gone, lookup, removes, task_final, task_path, FileEntry, Task};
use crate::metadata::{op_final, op_path, Operation, PackageMetadata};
use crate::name::str_eq;

verus! {

/// A file whose bytes do not hash to what the operation recorded.
#[derive(Debug, Clone)]
pub struct IntegrityMismatch {
    pub path: String,
    pub expected_hash: Vec<u8>,
    pub expected_size: u64,
    pub actual_hash: Vec<u8>,
    pub actual_size: u64,
}

/// Bytes `content` satisfy `op`: when `op` records a final hash and size,
/// `content` has that size and that SHA-256 hash.
pub open spec fn accepted(op: Operation, content: Seq<u8>) -> bool {
    op_final(op) matches Some((h, s)) ==> sha256_of(content) == h && content.len() == s
}

/// Compares a file's digest and size with what `op` records: `Ok` when
/// `op` records nothing or both match, else the mismatch.
pub fn check_digest(op: &Operation, actual_hash: &Vec<u8>, actual_size: u64) -> (r: Result<
    (),
    IntegrityMismatch,
>)
    ensures
        r is Ok <==> (op_final(*op) matches Some((h, s)) ==> actual_hash@ == h && actual_size == s),
        r matches Err(e) ==> e.path@ == op_path(*op) && e.actual_hash@ == actual_hash@
            && e.actual_size == actual_size && op_final(*op) == Some((e.expected_hash@, e.expected_size)),
{
    let (path, hash, size) = match op {
        Operation::Add { path, final_hash, final_size, .. } => (path, final_hash, *final_size),
        Operation::Patch { path, final_hash, final_size, .. } => (path, final_hash, *final_size),
        Operation::Check { path, final_hash, final_size, .. } => (path, final_hash, *final_size),
        _ => {
            return Ok(());
        },
    };
    if size == actual_size && bytes_equal(hash, actual_hash) {
        Ok(())
    } else {
        Err(
            IntegrityMismatch {
                path: path.clone(),
                expected_hash: copy_bytes(hash),
                expected_size: size,
                actual_hash: copy_bytes(actual_hash),
                actual_size,
            },
        )
    }
}

/// Verifies the bytes staged for `op` (or read back for a check): `Ok`
/// exactly when they satisfy `op`.
pub fn verify_content(op: &Operation, content: &Vec<u8>) -> (r: Result<(), IntegrityMismatch>)
    ensures
        r is Ok <==> accepted(*op, content@),
{
    let digest = sha256(content.as_slice());
    check_digest(op, &digest, content.len() as u64)
}

/// One applied operation with the bytes it installed (`Add`, `Patch`) or
/// read back (`Check`); other operations carry no bytes.
pub open spec fn apply_one(tree: Map<Seq<char>, Seq<u8>>, op: Operation, content: Seq<u8>) -> Map<
    Seq<char>,
    Seq<u8>,
> {
    match op {
        Operation::Add { path, .. } => tree.insert(path@, content),
        Operation::Patch { path, .. } => tree.insert(path@, content),
        Operation::Rm { path } => tree.remove(path@),
        _ => tree,
    }
}

/// The files of a workspace after the operations `ops`, with `contents[i]`
/// the bytes of operation `i`.
pub open spec fn apply_all(
    tree: Map<Seq<char>, Seq<u8>>,
    ops: Seq<Operation>,
    contents: Seq<Seq<u8>>,
) -> Map<Seq<char>, Seq<u8>>
    decreases ops.len(),
{
    if ops.len() == 0 || contents.len() != ops.len() {
        tree
    } else {
        apply_one(
            apply_all(tree, ops.drop_last(), contents.drop_last()),
            ops.last(),
            contents.last(),
        )
    }
}

/// An update run in which every operation's bytes were accepted, and each
/// check read the file as it stood.
pub open spec fn completed_run(
    tree: Map<Seq<char>, Seq<u8>>,
    ops: Seq<Operation>,
    contents: Seq<Seq<u8>>,
) -> bool {
    &&& contents.len() == ops.len()
    &&& forall|i: int| 0 <= i < ops.len() ==> accepted(#[trigger] ops[i], contents[i])
    &&& forall|i: int|
        0 <= i < ops.len() && (#[trigger] ops[i]) is Check ==> apply_all(
            tree,
            ops.take(i),
            contents.take(i),
        ).contains_key(op_path(ops[i])) && apply_all(tree, ops.take(i), contents.take(i))[op_path(
            ops[i],
        )] == contents[i]
}

/// Whether `op` writes, removes or checks the file at `p`.
pub open spec fn touches(op: Operation, p: Seq<char>) -> bool {
    (op is Add || op is Patch || op is Rm || op is Check) && op_path(op) == p
}

proof fn lemma_take_push(ops: Seq<Operation>, contents: Seq<Seq<u8>>, i: int)
    requires
        0 <= i < ops.len(),
        contents.len() == ops.len(),
    ensures
        ops.take(i + 1).drop_last() == ops.take(i),
        contents.take(i + 1).drop_last() == contents.take(i),
        ops.take(i + 1).last() == ops[i],
        contents.take(i + 1).last() == contents[i],
{
    assert(ops.take(i + 1).drop_last() =~= ops.take(i));
    assert(contents.take(i + 1).drop_last() =~= contents.take(i));
}

proof fn lemma_untouched_stays(
    tree: Map<Seq<char>, Seq<u8>>,
    ops: Seq<Operation>,
    contents: Seq<Seq<u8>>,
    p: Seq<char>,
    v: Seq<u8>,
    k: int,
)
    requires
        0 <= k <= ops.len(),
        contents.len() == ops.len(),
        forall|m: int| k <= m < ops.len() ==> !touches(#[trigger] ops[m], p),
        apply_all(tree, ops.take(k), contents.take(k)).contains_key(p),
        apply_all(tree, ops.take(k), contents.take(k))[p] == v,
    ensures
        apply_all(tree, ops.take(ops.len() as int), contents.take(ops.len() as int)).contains_key(p),
        apply_all(tree, ops.take(ops.len() as int), contents.take(ops.len() as int))[p] == v,
    decreases ops.len() - k,
{
    if k < ops.len() {
        lemma_take_push(ops, contents, k);
        assert(!touches(ops[k], p));
        lemma_untouched_stays(tree, ops, contents, p, v, k + 1);
    }
}

/// After a completed run, every file that an operation with a final hash
/// last touched hashes to exactly that hash, and has that size.
pub proof fn lemma_completed_files_match(
    tree: Map<Seq<char>, Seq<u8>>,
    ops: Seq<Operation>,
    contents: Seq<Seq<u8>>,
    i: int,
)
    requires
        completed_run(tree, ops, contents),
        0 <= i < ops.len(),
        op_final(ops[i]) is Some,
        forall|k: int| i < k < ops.len() ==> !touches(#[trigger] ops[k], op_path(ops[i])),
    ensures
        apply_all(tree, ops, contents).contains_key(op_path(ops[i])),
        sha256_of(apply_all(tree, ops, contents)[op_path(ops[i])]) == op_final(ops[i])->Some_0.0,
        apply_all(tree, ops, contents)[op_path(ops[i])].len() == op_final(ops[i])->Some_0.1,
{
    let p = op_path(ops[i]);
    assert(accepted(ops[i], contents[i]));
    lemma_take_push(ops, contents, i);
    let after = apply_all(tree, ops.take(i + 1), contents.take(i + 1));
    if ops[i] is Check {
        assert(apply_all(tree, ops.take(i), contents.take(i)).contains_key(p));
    }
    assert(after.contains_key(p) && after[p] == contents[i]);
    lemma_untouched_stays(tree, ops, contents, p, contents[i], i + 1);
    assert(ops.take(ops.len() as int) =~= ops);
    assert(contents.take(contents.len() as int) =~= contents);
}

/// Operation `op` targets the path of task `t`, and records the final
/// hash and size that `t` has.
pub open spec fn carries_task(op: Operation, t: Task) -> bool {
    &&& op_path(op) == task_path(t)
    &&& (task_final(t) matches Some((size, hash, _)) ==> op_final(op) == Some((hash, size)))
}

/// Paths of a walk are unique.
pub open spec fn unique_paths(es: Seq<FileEntry>) -> bool {
    forall|i: int, j: int| 0 <= i < j < es.len() ==> (#[trigger] es[i]).path@ != (#[trigger] es[j]).path@
}

proof fn lemma_gone_not_in_source(src: Seq<FileEntry>, prev: Seq<FileEntry>, j: int, k: int)
    requires
        0 <= k < gone(src, prev, j).len(),
    ensures
        0 <= gone(src, prev, j)[k] < prev.len(),
        lookup(src, prev[gone(src, prev, j)[k]].path@) is None,
    decreases prev.len() - j,
{
    if 0 <= j < prev.len() {
        let rest = gone(src, prev, j + 1);
        if k < rest.len() {
            lemma_gone_not_in_source(src, prev, j + 1, k);
            if lookup(src, prev[j].path@) is None {
                assert(gone(src, prev, j)[k] == rest[k]);
            }
        }
    }
}

/// Round trip: take a package built from the walk `src` of revision B
/// against the walk `prev` of revision A (its tasks as the task list gives
/// them, its operations carrying those tasks). Applying it to a workspace
/// in one completed run leaves each file of B with exactly the size and
/// SHA-256 hash that B's walk recorded, which is what a complete package
/// of B records too.
pub proof fn lemma_round_trip(
    src: Seq<FileEntry>,
    prev: Seq<FileEntry>,
    tasks: Seq<Task>,
    ops: Seq<Operation>,
    tree: Map<Seq<char>, Seq<u8>>,
    contents: Seq<Seq<u8>>,
    i: int,
)
    requires
        unique_paths(src),
        tasks.len() == src.len() + gone(src, prev, 0).len(),
        forall|m: int|
            0 <= m < src.len() ==> creates(
                #[trigger] tasks[m],
                src[m],
                match lookup(prev, src[m].path@) {
                    Some(j) => Some(prev[j]),
                    None => None,
                },
            ),
        forall|k: int|
            0 <= k < gone(src, prev, 0).len() ==> removes(
                #[trigger] tasks[src.len() + k],
                prev[gone(src, prev, 0)[k]],
            ),
        ops.len() == tasks.len(),
        forall|m: int| 0 <= m < ops.len() ==> carries_task(#[trigger] ops[m], tasks[m]),
        completed_run(tree, ops, contents),
        0 <= i < src.len(),
        !src[i].is_dir,
    ensures
        apply_all(tree, ops, contents).contains_key(src[i].path@),
        sha256_of(apply_all(tree, ops, contents)[src[i].path@]) == src[i].hash@,
        apply_all(tree, ops, contents)[src[i].path@].len() == src[i].size,
{
    let p = src[i].path@;
    assert(creates(
        tasks[i],
        src[i],
        match lookup(prev, src[i].path@) {
            Some(j) => Some(prev[j]),
            None => None,
        },
    ));
    assert(carries_task(ops[i], tasks[i]));
    assert(op_path(ops[i]) == p);
    assert forall|k: int| i < k < ops.len() implies !touches(#[trigger] ops[k], op_path(ops[i])) by {
        assert(carries_task(ops[k], tasks[k]));
        if k < src.len() {
            assert(creates(
                tasks[k],
                src[k],
                match lookup(prev, src[k].path@) {
                    Some(j) => Some(prev[j]),
                    None => None,
                },
            ));
            assert(src[i].path@ != src[k].path@);
        } else {
            let g = k - src.len();
            assert(tasks[src.len() + g] == tasks[k]);
            assert(removes(tasks[src.len() + g], prev[gone(src, prev, 0)[g]]));
            lemma_gone_not_in_source(src, prev, 0, g);
            if op_path(ops[k]) == p {
                assert(src[i].path@ == prev[gone(src, prev, 0)[g]].path@);
                assert(exists|j: int| 0 <= j < src.len() && (#[trigger] src[j]).path@ == p);
            }
        }
    }
    lemma_completed_files_match(tree, ops, contents, i);
}

/// Whether `op` writes or removes the file at `p`.
pub open spec fn writes(op: Operation, p: Seq<char>) -> bool {
    (op is Add || op is Patch || op is Rm) && op_path(op) == p
}

/// Two trees agree on path `p`.
pub open spec fn same_at(a: Map<Seq<char>, Seq<u8>>, b: Map<Seq<char>, Seq<u8>>, p: Seq<char>) -> bool {
    &&& a.contains_key(p) == b.contains_key(p)
    &&& a.contains_key(p) ==> a[p] == b[p]
}

proof fn lemma_untouched_unchanged(
    tree: Map<Seq<char>, Seq<u8>>,
    ops: Seq<Operation>,
    contents: Seq<Seq<u8>>,
    p: Seq<char>,
)
    requires
        contents.len() == ops.len(),
        forall|m: int| 0 <= m < ops.len() ==> !writes(#[trigger] ops[m], p),
    ensures
        same_at(apply_all(tree, ops, contents), tree, p),
    decreases ops.len(),
{
    if ops.len() > 0 {
        let q = ops.drop_last();
        assert forall|m: int| 0 <= m < q.len() implies !writes(#[trigger] q[m], p) by {
            assert(q[m] == ops[m]);
        }
        lemma_untouched_unchanged(tree, q, contents.drop_last(), p);
        assert(!writes(ops[ops.len() - 1], p));
    }
}

proof fn lemma_written_decided(
    t1: Map<Seq<char>, Seq<u8>>,
    t2: Map<Seq<char>, Seq<u8>>,
    ops: Seq<Operation>,
    contents: Seq<Seq<u8>>,
    p: Seq<char>,
)
    requires
        contents.len() == ops.len(),
        exists|m: int| 0 <= m < ops.len() && writes(#[trigger] ops[m], p),
    ensures
        same_at(apply_all(t1, ops, contents), apply_all(t2, ops, contents), p),
    decreases ops.len(),
{
    let last = ops.len() - 1;
    if !writes(ops[last], p) {
        let q = ops.drop_last();
        let m = choose|m: int| 0 <= m < ops.len() && writes(#[trigger] ops[m], p);
        assert(m < last);
        assert(q[m] == ops[m]);
        lemma_written_decided(t1, t2, q, contents.drop_last(), p);
    }
}

/// Crash safety: stopping an update after any number of the operations
/// of a package and applying the package again from its first operation
/// leaves the same files as applying it once without stopping.
pub proof fn lemma_restart_same_tree(
    tree: Map<Seq<char>, Seq<u8>>,
    ops: Seq<Operation>,
    contents: Seq<Seq<u8>>,
    done: int,
)
    requires
        contents.len() == ops.len(),
        0 <= done <= ops.len(),
    ensures
        apply_all(apply_all(tree, ops.take(done), contents.take(done)), ops, contents) == apply_all(
            tree,
            ops,
            contents,
        ),
{
    let mid = apply_all(tree, ops.take(done), contents.take(done));
    let a = apply_all(mid, ops, contents);
    let b = apply_all(tree, ops, contents);
    assert forall|p: Seq<char>| same_at(a, b, p) by {
        if exists|m: int| 0 <= m < ops.len() && writes(#[trigger] ops[m], p) {
            lemma_written_decided(mid, tree, ops, contents, p);
        } else {
            let pre = ops.take(done);
            assert forall|m: int| 0 <= m < pre.len() implies !writes(#[trigger] pre[m], p) by {
                assert(pre[m] == ops[m]);
            }
            lemma_untouched_unchanged(tree, pre, contents.take(done), p);
            lemma_untouched_unchanged(mid, ops, contents, p);
            lemma_untouched_unchanged(tree, ops, contents, p);
        }
    }
    assert(a.dom() =~= b.dom()) by {
        assert forall|p: Seq<char>| a.dom().contains(p) == b.dom().contains(p) by {
            assert(same_at(a, b, p));
        }
    }
    assert forall|p: Seq<char>| #[trigger] a.contains_key(p) implies a[p] == b[p] by {
        assert(same_at(a, b, p));
    }
    assert(a =~= b);
}

/// Operation `i` of the `k`-th package of `chain`.
pub open spec fn op_at(ps: Seq<PackageMetadata>, chain: Seq<usize>, k: int, i: int) -> Operation {
    ps[chain[k] as int].operations@[i]
}

/// `(k, i)` names an operation of the chain.
pub open spec fn valid_at(ps: Seq<PackageMetadata>, chain: Seq<usize>, k: int, i: int) -> bool {
    0 <= k < chain.len() && chain[k] < ps.len() && 0 <= i < ps[chain[k] as int].operations@.len()
}

/// `(k2, i2)` comes after `(k, i)`: in a later package, or later in the
/// same one.
pub open spec fn after(k: int, i: int, k2: int, i2: int) -> bool {
    k < k2 || (k == k2 && i < i2)
}

/// No operation after `(k, i)` touches its path.
pub open spec fn last_touch(ps: Seq<PackageMetadata>, chain: Seq<usize>, k: int, i: int) -> bool {
    forall|k2: int, i2: int|
        valid_at(ps, chain, k2, i2) && after(k, i, k2, i2) ==> !touches(
            #[trigger] op_at(ps, chain, k2, i2),
            op_path(op_at(ps, chain, k, i)),
        )
}

/// The path an operation targets.
pub fn path_of(op: &Operation) -> (r: &String)
    ensures
        r@ == op_path(*op),
{
    match op {
        Operation::MkDir { path } => path,
        Operation::RmDir { path } => path,
        Operation::Add { path, .. } => path,
        Operation::Patch { path, .. } => path,
        Operation::Check { path, .. } => path,
        Operation::Rm { path } => path,
    }
}

fn touches_path(op: &Operation, p: &String) -> (r: bool)
    ensures
        r == touches(*op, p@),
{
    match op {
        Operation::MkDir { .. } | Operation::RmDir { .. } => false,
        _ => str_eq(path_of(op).as_str(), p.as_str()),
    }
}

fn is_last_touch(ps: &Vec<PackageMetadata>, chain: &Vec<usize>, k: usize, i: usize) -> (r: bool)
    requires
        valid_at(ps@, chain@, k as int, i as int),
        forall|m: int| 0 <= m < chain@.len() ==> #[trigger] chain@[m] < ps@.len(),
    ensures
        r == last_touch(ps@, chain@, k as int, i as int),
{
    let p = path_of(&ps[chain[k]].operations[i]);
    let mut k2 = k;
    while k2 < chain.len()
        invariant
            valid_at(ps@, chain@, k as int, i as int),
            forall|m: int| 0 <= m < chain@.len() ==> #[trigger] chain@[m] < ps@.len(),
            p@ == op_path(op_at(ps@, chain@, k as int, i as int)),
            k <= k2 <= chain@.len(),
            forall|a: int, b: int|
                valid_at(ps@, chain@, a, b) && after(k as int, i as int, a, b) && a < k2 ==> !touches(
                    #[trigger] op_at(ps@, chain@, a, b),
                    p@,
                ),
        decreases chain@.len() - k2,
    {
        let ops = &ps[chain[k2]].operations;
        let n_ops = ops.len();
        assert(k2 == k ==> i < n_ops);
        let mut i2: usize = if k2 == k { i + 1 } else { 0 };
        while i2 < ops.len()
            invariant
                valid_at(ps@, chain@, k as int, i as int),
                p@ == op_path(op_at(ps@, chain@, k as int, i as int)),
                forall|m: int| 0 <= m < chain@.len() ==> #[trigger] chain@[m] < ps@.len(),
                k <= k2 < chain@.len(),
                ops@ == ps@[chain@[k2 as int] as int].operations@,
                k2 == k ==> i < i2 || i2 == i + 1,
                i2 <= ops@.len() || (k2 == k && i2 == i + 1),
                forall|a: int, b: int|
                    valid_at(ps@, chain@, a, b) && after(k as int, i as int, a, b) && (a < k2 || (a
                        == k2 && b < i2)) ==> !touches(#[trigger] op_at(ps@, chain@, a, b), p@),
            decreases ops@.len() - i2,
        {
            if touches_path(&ops[i2], p) {
                proof {
                    assert(op_at(ps@, chain@, k2 as int, i2 as int) == ops@[i2 as int]);
                    assert(valid_at(ps@, chain@, k2 as int, i2 as int));
                    assert(after(k as int, i as int, k2 as int, i2 as int));
                }
                return false;
            }
            i2 += 1;
        }
        k2 += 1;
    }
    true
}

/// The files a version declares: of the operations of its packages, in
/// order, those that record a final hash and size and are the last to
/// touch their path, as `(k, i)` for operation `i` of the `k`-th package.
pub fn declared_files(ps: &Vec<PackageMetadata>, chain: &Vec<usize>) -> (r: Vec<(usize, usize)>)
    requires
        forall|m: int| 0 <= m < chain@.len() ==> #[trigger] chain@[m] < ps@.len(),
    ensures
        forall|j: int|
            0 <= j < r@.len() ==> {
                let (k, i) = #[trigger] r@[j];
                &&& valid_at(ps@, chain@, k as int, i as int)
                &&& op_final(op_at(ps@, chain@, k as int, i as int)) is Some
                &&& last_touch(ps@, chain@, k as int, i as int)
            },
        forall|k: int, i: int|
            valid_at(ps@, chain@, k, i) && op_final(#[trigger] op_at(ps@, chain@, k, i)) is Some
                && last_touch(ps@, chain@, k, i) ==> r@.contains((k as usize, i as usize)),
{
    let mut out: Vec<(usize, usize)> = Vec::new();
    let mut k: usize = 0;
    while k < chain.len()
        invariant
            forall|m: int| 0 <= m < chain@.len() ==> #[trigger] chain@[m] < ps@.len(),
            k <= chain@.len(),
            forall|j: int|
                0 <= j < out@.len() ==> {
                    let (a, b) = #[trigger] out@[j];
                    &&& valid_at(ps@, chain@, a as int, b as int)
                    &&& op_final(op_at(ps@, chain@, a as int, b as int)) is Some
                    &&& last_touch(ps@, chain@, a as int, b as int)
                },
            forall|a: int, b: int|
                valid_at(ps@, chain@, a, b) && a < k && op_final(#[trigger] op_at(ps@, chain@, a, b))
                    is Some && last_touch(ps@, chain@, a, b) ==> out@.contains((a as usize, b as usize)),
        decreases chain@.len() - k,
    {
        let ops = &ps[chain[k]].operations;
        let mut i: usize = 0;
        while i < ops.len()
            invariant
                forall|m: int| 0 <= m < chain@.len() ==> #[trigger] chain@[m] < ps@.len(),
                k < chain@.len(),
                ops@ == ps@[chain@[k as int] as int].operations@,
                i <= ops@.len(),
                forall|j: int|
                    0 <= j < out@.len() ==> {
                        let (a, b) = #[trigger] out@[j];
                        &&& valid_at(ps@, chain@, a as int, b as int)
                        &&& op_final(op_at(ps@, chain@, a as int, b as int)) is Some
                        &&& last_touch(ps@, chain@, a as int, b as int)
                    },
                forall|a: int, b: int|
                    valid_at(ps@, chain@, a, b) && (a < k || (a == k && b < i)) && op_final(
                        #[trigger] op_at(ps@, chain@, a, b),
                    ) is Some && last_touch(ps@, chain@, a, b) ==> out@.contains(
                        (a as usize, b as usize),
                    ),
            decreases ops@.len() - i,
        {
            let has_final = match &ops[i] {
                Operation::Add { .. } | Operation::Patch { .. } | Operation::Check { .. } => true,
                _ => false,
            };
            assert(op_at(ps@, chain@, k as int, i as int) == ops@[i as int]);
            if has_final && is_last_touch(ps, chain, k, i) {
                let ghost before = out@;
                out.push((k, i));
                proof {
                    assert(out@[before.len() as int] == (k, i));
                    assert forall|j: int| 0 <= j < before.len() implies #[trigger] out@[j] == before[j] by {}
                    assert forall|a: int, b: int|
                        valid_at(ps@, chain@, a, b) && (a < k || (a == k && b < i)) && op_final(
                            #[trigger] op_at(ps@, chain@, a, b),
                        ) is Some && last_touch(ps@, chain@, a, b) implies out@.contains(
                            (a as usize, b as usize),
                        ) by {
                        let j = choose|j: int| 0 <= j < before.len() && before[j] == (a as usize, b as usize);
                        assert(out@[j] == before[j]);
                    }
                }
            }
            i += 1;
        }
        k += 1;
    }
    out
}

} // verus!
