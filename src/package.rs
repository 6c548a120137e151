//! Package assembly: the operations of a package with their encoded data,
//! concatenated in operation order.
use vstd::prelude::*;
use vstd::string::StringExecFns;

use crate::builder::{kind_of, task_final, task_path, Task, TaskKind};
use crate::codec::{best_of, encode_best, sha256, sha256_of, Codec, CoderOptions};
use crate::metadata::{layout_ok, op_final, op_path, op_range, ranges_of, ByteRange, Operation, PackageMetadata};
use crate::name::{package_name_of, CleanName};
use crate::codec::copy_bytes;
use crate::layout::{lemma_contiguous_push, lemma_ranges_of_push};
use crate::metadata::{contiguous, stream_len};

verus! {

#[derive(Debug, Clone, Copy, PartialEq, Eq)]
pub enum BuildError {
    /// There is not one content per task.
    LengthMismatch,
    /// The package data would not fit in 64 bits.
    TooLarge,
}

/// The name a package records for a codec.
pub open spec fn codec_name(c: Codec) -> Seq<char> {
    match c {
        Codec::Raw => "raw"@,
        Codec::Brotli => "brotli"@,
        Codec::Zstd => "zstd"@,
        Codec::Xz => "xz"@,
        Codec::Lzma => "lzma"@,
        Codec::Vcdiff => "vcdiff"@,
    }
}

impl Codec {
    pub fn name(&self) -> (r: String)
        ensures
            r@ == codec_name(*self),
    {
        match self {
            Codec::Raw => String::from_str("raw"),
            Codec::Brotli => String::from_str("brotli"),
            Codec::Zstd => String::from_str("zstd"),
            Codec::Xz => String::from_str("xz"),
            Codec::Lzma => String::from_str("lzma"),
            Codec::Vcdiff => String::from_str("vcdiff"),
        }
    }
}

/// Whether task `t` carries data.
pub open spec fn has_data(t: Task) -> bool {
    kind_of(t) == TaskKind::Add || kind_of(t) == TaskKind::Patch
}

/// The encoded data of task `t` whose new bytes are `content`.
pub open spec fn blob(t: Task, content: Seq<u8>, cands: Seq<CoderOptions>) -> Seq<u8> {
    if has_data(t) {
        best_of(content, cands).1
    } else {
        Seq::empty()
    }
}

/// The package data: the blobs of the tasks, in task order.
pub open spec fn stream(tasks: Seq<Task>, contents: Seq<Seq<u8>>, cands: Seq<CoderOptions>) -> Seq<u8>
    decreases tasks.len(),
{
    if tasks.len() == 0 || contents.len() != tasks.len() {
        Seq::empty()
    } else {
        stream(tasks.drop_last(), contents.drop_last(), cands) + blob(
            tasks.last(),
            contents.last(),
            cands,
        )
    }
}

/// Operation `op` records task `t` with its data at `r`, encoded with
/// codec `c`.
pub open spec fn records(op: Operation, t: Task, c: Codec, r: ByteRange) -> bool {
    &&& op_path(op) == task_path(t)
    &&& (match task_final(t) {
        Some((size, hash, _)) => op_final(op) == Some((hash, size)),
        None => op_final(op) is None,
    })
    &&& match t {
        Task::MkDir { .. } => op is MkDir,
        Task::RmDir { .. } => op is RmDir,
        Task::Rm { .. } => op is Rm,
        Task::Check { mode, .. } => op matches Operation::Check { mode: m, .. } && m == mode,
        Task::Add { mode, .. } => op matches Operation::Add { mode: m, data_range, data_codec, .. }
            && m == mode && data_range == r && data_codec@ == codec_name(c),
        Task::Patch { mode, local_size, local_hash, .. } => op matches Operation::Patch {
            mode: m,
            data_range,
            data_codec,
            patcher,
            local_size: ls,
            local_hash: lh,
            ..
        } && m == mode && data_range == r && data_codec@ == codec_name(c) && patcher@ == "raw"@
            && ls == local_size && lh@ == local_hash@,
    }
}

/// What an assembly of `tasks` with `contents` and candidate codecs
/// `cands` produced: package `m` and its data `data`.
pub open spec fn assembled(
    tasks: Seq<Task>,
    contents: Seq<Seq<u8>>,
    cands: Seq<CoderOptions>,
    from: Option<Seq<char>>,
    to: Seq<char>,
    m: PackageMetadata,
    data: Seq<u8>,
) -> bool {
    &&& data == stream(tasks, contents, cands)
    &&& m.operations@.len() == tasks.len()
    &&& forall|i: int|
        0 <= i < tasks.len() ==> records(
            #[trigger] m.operations@[i],
            tasks[i],
            best_of(contents[i], cands).0,
            ByteRange {
                start: stream(tasks.take(i), contents.take(i), cands).len() as u64,
                end: stream(tasks.take(i + 1), contents.take(i + 1), cands).len() as u64,
            },
        )
    &&& m.size == data.len()
    &&& m.hash@ == sha256_of(data)
    &&& layout_ok(m.operations@, m.size)
    &&& m.package_data_name@ == package_name_of(from, to)
    &&& m.spec_from() == from
    &&& m.to@ == to
}

/// The operation that records task `t` with its data at `r`, encoded with
/// codec `c`.
fn op_of(t: &Task, c: Codec, r: ByteRange) -> (op: Operation)
    ensures
        records(op, *t, c, r),
        op_range(op) is Some <==> has_data(*t),
        op_range(op) is Some ==> op_range(op) == Some(r),
{
    proof {
        reveal_strlit("raw");
    }
    match t {
        Task::MkDir { path } => Operation::MkDir { path: path.clone() },
        Task::RmDir { path } => Operation::RmDir { path: path.clone() },
        Task::Rm { path } => Operation::Rm { path: path.clone() },
        Task::Check { path, mode, size, hash } => Operation::Check {
            path: path.clone(),
            final_hash: copy_bytes(hash),
            final_size: *size,
            mode: *mode,
        },
        Task::Add { path, mode, size, hash } => Operation::Add {
            path: path.clone(),
            mode: *mode,
            final_size: *size,
            final_hash: copy_bytes(hash),
            data_range: r,
            data_codec: c.name(),
        },
        Task::Patch { path, mode, size, hash, local_size, local_hash } => Operation::Patch {
            path: path.clone(),
            mode: *mode,
            final_size: *size,
            final_hash: copy_bytes(hash),
            local_hash: copy_bytes(local_hash),
            local_size: *local_size,
            data_range: r,
            data_codec: c.name(),
            patcher: String::from_str("raw"),
        },
    }
}

fn append_bytes(data: &mut Vec<u8>, b: &Vec<u8>)
    ensures
        final(data)@ == old(data)@ + b@,
{
    let ghost start = data@;
    let mut i: usize = 0;
    while i < b.len()
        invariant
            i <= b@.len(),
            data@ == start + b@.take(i as int),
        decreases b@.len() - i,
    {
        data.push(b[i]);
        i += 1;
        assert(data@ =~= start + b@.take(i as int));
    }
    assert(b@.take(b@.len() as int) =~= b@);
}

proof fn lemma_stream_step(tasks: Seq<Task>, contents: Seq<Seq<u8>>, cands: Seq<CoderOptions>, i: int)
    requires
        0 <= i < tasks.len(),
        contents.len() == tasks.len(),
    ensures
        stream(tasks.take(i + 1), contents.take(i + 1), cands) == stream(
            tasks.take(i),
            contents.take(i),
            cands,
        ) + blob(tasks[i], contents[i], cands),
{
    assert(tasks.take(i + 1).drop_last() =~= tasks.take(i));
    assert(contents.take(i + 1).drop_last() =~= contents.take(i));
    assert(tasks.take(i + 1).last() == tasks[i]);
    assert(contents.take(i + 1).last() == contents[i]);
}

/// Assembles a package from its tasks: each task that carries data is
/// encoded with the shortest of `raw` and `compressors`, the blobs are
/// concatenated in task order into the package data, each operation
/// records its range in it, and the package records the data's size and
/// SHA-256 hash. Fails when there is not one content per task, or when
/// the data would not fit in 64 bits.
pub fn assemble(
    tasks: &Vec<Task>,
    contents: &Vec<Vec<u8>>,
    compressors: &Vec<CoderOptions>,
    from: Option<&CleanName>,
    to: &CleanName,
) -> (r: Result<(PackageMetadata, Vec<u8>), BuildError>)
    requires
        from matches Some(f) ==> f.wf(),
        to.wf(),
    ensures
        r is Err && r->Err_0 == BuildError::LengthMismatch <==> contents@.len() != tasks@.len(),
        r is Err && r->Err_0 == BuildError::TooLarge <==> contents@.len() == tasks@.len()
            && stream(tasks@, contents@.map_values(|c: Vec<u8>| c@), compressors@).len() > u64::MAX,
        r matches Ok((m, data)) ==> assembled(
            tasks@,
            contents@.map_values(|c: Vec<u8>| c@),
            compressors@,
            match from {
                Some(f) => Some(f@),
                None => None,
            },
            to@,
            m,
            data@,
        ),
{
    if contents.len() != tasks.len() {
        return Err(BuildError::LengthMismatch);
    }
    let ghost cs = contents@.map_values(|c: Vec<u8>| c@);
    let ghost cands = compressors@;
    let n = tasks.len();
    let mut data: Vec<u8> = Vec::new();
    let mut ops: Vec<Operation> = Vec::new();
    let mut i: usize = 0;
    proof {
        assert(tasks@.take(0) =~= Seq::<Task>::empty());
        assert(cs.take(0) =~= Seq::<Seq<u8>>::empty());
        assert(ranges_of(ops@) =~= Seq::<ByteRange>::empty());
    }
    while i < n
        invariant
            n == tasks@.len(),
            n == contents@.len(),
            cs == contents@.map_values(|c: Vec<u8>| c@),
            cands == compressors@,
            i <= n,
            data@ == stream(tasks@.take(i as int), cs.take(i as int), cands),
            data@.len() <= u64::MAX,
            ops@.len() == i,
            forall|k: int|
                0 <= k < i ==> records(
                    #[trigger] ops@[k],
                    tasks@[k],
                    best_of(cs[k], cands).0,
                    ByteRange {
                        start: stream(tasks@.take(k), cs.take(k), cands).len() as u64,
                        end: stream(tasks@.take(k + 1), cs.take(k + 1), cands).len() as u64,
                    },
                ),
            contiguous(ranges_of(ops@)),
            stream_len(ranges_of(ops@)) == data@.len(),
        decreases n - i,
    {
        proof {
            lemma_stream_step(tasks@, cs, cands, i as int);
            assert(cs[i as int] == contents@[i as int]@);
        }
        let t = &tasks[i];
        let carries = match t {
            Task::Add { .. } => true,
            Task::Patch { .. } => true,
            _ => false,
        };
        let start = data.len() as u64;
        let enc = encode_best(&contents[i], compressors);
        let codec = enc.codec;
        if carries {
            if enc.bytes.len() as u64 > u64::MAX - start {
                proof {
                    lemma_stream_prefix_len(tasks@, cs, cands, i as int + 1);
                }
                return Err(BuildError::TooLarge);
            }
            append_bytes(&mut data, &enc.bytes);
        }
        let end = data.len() as u64;
        let range = ByteRange { start, end };
        let op = op_of(t, codec, range);
        let ghost before = ops@;
        proof {
            lemma_ranges_of_push(before, op);
            if carries {
                lemma_contiguous_push(ranges_of(before), range);
            }
        }
        ops.push(op);
        proof {
            assert(ops@ == before.push(op));
            assert forall|k: int| 0 <= k < i + 1 implies records(
                #[trigger] ops@[k],
                tasks@[k],
                best_of(cs[k], cands).0,
                ByteRange {
                    start: stream(tasks@.take(k), cs.take(k), cands).len() as u64,
                    end: stream(tasks@.take(k + 1), cs.take(k + 1), cands).len() as u64,
                },
            ) by {
                if k < i {
                    assert(ops@[k] == before[k]);
                }
            }
        }
        i += 1;
    }
    proof {
        assert(tasks@.take(n as int) =~= tasks@);
        assert(cs.take(n as int) =~= cs);
    }
    let size = data.len() as u64;
    let hash = sha256(data.as_slice());
    let name = CleanName::package_name(from, to);
    let from_name = match from {
        Some(f) => Some(f.clone_name()),
        None => None,
    };
    let m = PackageMetadata {
        package_data_name: name,
        from: from_name,
        to: to.clone_name(),
        size,
        operations: ops,
        hash,
    };
    Ok((m, data))
}

/// The stream of the first tasks is no longer than the whole stream.
proof fn lemma_stream_prefix_len(tasks: Seq<Task>, contents: Seq<Seq<u8>>, cands: Seq<CoderOptions>, k: int)
    requires
        0 <= k <= tasks.len(),
        contents.len() == tasks.len(),
    ensures
        stream(tasks.take(k), contents.take(k), cands).len() <= stream(tasks, contents, cands).len(),
    decreases tasks.len() - k,
{
    if k < tasks.len() {
        lemma_stream_step(tasks, contents, cands, k);
        lemma_stream_prefix_len(tasks, contents, cands, k + 1);
    } else {
        assert(tasks.take(k) =~= tasks);
        assert(contents.take(k) =~= contents);
    }
}

/// Builds are deterministic: two assemblies of the same tasks, contents and
/// candidate codecs give the same package data and operations that record
/// the same paths, final hashes and sizes, data ranges and codecs.
pub proof fn lemma_assembly_deterministic(
    tasks: Seq<Task>,
    contents: Seq<Seq<u8>>,
    cands: Seq<CoderOptions>,
    from: Option<Seq<char>>,
    to: Seq<char>,
    m1: PackageMetadata,
    d1: Seq<u8>,
    m2: PackageMetadata,
    d2: Seq<u8>,
)
    requires
        assembled(tasks, contents, cands, from, to, m1, d1),
        assembled(tasks, contents, cands, from, to, m2, d2),
    ensures
        d1 == d2,
        m1.size == m2.size,
        m1.hash@ == m2.hash@,
        m1.package_data_name@ == m2.package_data_name@,
        m1.operations@.len() == m2.operations@.len(),
        forall|i: int|
            0 <= i < m1.operations@.len() ==> op_path(#[trigger] m1.operations@[i]) == op_path(
                m2.operations@[i],
            ) && op_final(m1.operations@[i]) == op_final(m2.operations@[i]) && op_range(
                m1.operations@[i],
            ) == op_range(m2.operations@[i]),
{
    assert forall|i: int| 0 <= i < m1.operations@.len() implies op_path(
        #[trigger] m1.operations@[i],
    ) == op_path(m2.operations@[i]) && op_final(m1.operations@[i]) == op_final(m2.operations@[i])
        && op_range(m1.operations@[i]) == op_range(m2.operations@[i]) by {
        assert(records(
            m2.operations@[i],
            tasks[i],
            best_of(contents[i], cands).0,
            ByteRange {
                start: stream(tasks.take(i), contents.take(i), cands).len() as u64,
                end: stream(tasks.take(i + 1), contents.take(i + 1), cands).len() as u64,
            },
        ));
    }
}

} // verus!
