//! Layout of a package data stream: the operations' data ranges.
use vstd::prelude::*;

use crate::metadata::{
    contiguous, layout_ok, op_range, ranges_of, stream_len, sum_len, with_range, ByteRange,
    Operation,
};

verus! {

/// Error of [`assign_ranges`]: the data stream would not fit in 64 bits,
/// or the lengths do not match the operations one for one.
#[derive(Debug, Clone, Copy, PartialEq, Eq)]
pub enum LayoutError {
    TooLarge,
    LengthMismatch,
}

/// The offset at which the data of operation `i` starts when the encoded
/// blobs of the operations before it are concatenated in order.
pub open spec fn data_offset(ops: Seq<Operation>, lens: Seq<u64>, i: int) -> int
    decreases i,
{
    if i <= 0 {
        0
    } else {
        data_offset(ops, lens, i - 1) + (if op_range(ops[i - 1]) is Some {
            lens[i - 1] as int
        } else {
            0
        })
    }
}

/// Operation `i` with its range resolved against the accumulating offset.
pub open spec fn placed(ops: Seq<Operation>, lens: Seq<u64>, i: int) -> Operation {
    if op_range(ops[i]) is Some {
        with_range(
            ops[i],
            ByteRange {
                start: data_offset(ops, lens, i) as u64,
                end: (data_offset(ops, lens, i) + lens[i]) as u64,
            },
        )
    } else {
        ops[i]
    }
}

pub proof fn lemma_ranges_of_push(s: Seq<Operation>, op: Operation)
    ensures
        ranges_of(s.push(op)) == (match op_range(op) {
            Some(r) => ranges_of(s).push(r),
            None => ranges_of(s),
        }),
{
    assert(s.push(op).drop_last() =~= s);
}

proof fn lemma_op_range_with_range(op: Operation, r: ByteRange)
    ensures
        op_range(op) is Some ==> op_range(with_range(op, r)) == Some(r),
        op_range(op) is None ==> with_range(op, r) == op,
{
}

proof fn lemma_data_offset_mono(ops: Seq<Operation>, lens: Seq<u64>, i: int, j: int)
    requires
        0 <= i <= j,
    ensures
        data_offset(ops, lens, i) <= data_offset(ops, lens, j),
    decreases j - i,
{
    if i < j {
        lemma_data_offset_mono(ops, lens, i, j - 1);
    }
}

/// Ranges that tile the stream: their lengths add up to the stream's
/// length, and each lies wholly before every later one.
pub proof fn lemma_contiguous_sum(rs: Seq<ByteRange>)
    requires
        contiguous(rs),
    ensures
        sum_len(rs) == stream_len(rs),
        forall|i: int, j: int| 0 <= i < j < rs.len() ==> #[trigger] rs[i].end <= #[trigger] rs[j].start,
    decreases rs.len(),
{
    if rs.len() > 0 {
        let p = rs.drop_last();
        assert(contiguous(p)) by {
            assert forall|i: int| 0 <= i < p.len() implies (#[trigger] p[i]).start <= p[i].end && (
            if i == 0 {
                p[i].start == 0
            } else {
                p[i].start == p[i - 1].end
            }) by {
                assert(p[i] == rs[i]);
                if i > 0 {
                    assert(p[i - 1] == rs[i - 1]);
                }
            }
        }
        lemma_contiguous_sum(p);
        assert forall|i: int, j: int| 0 <= i < j < rs.len() implies #[trigger] rs[i].end
            <= #[trigger] rs[j].start by {
            if j < rs.len() - 1 {
                assert(p[i] == rs[i] && p[j] == rs[j]);
            } else if i < j - 1 {
                assert(p[i] == rs[i] && p[j - 1] == rs[j - 1]);
                assert(rs[j - 1].start <= rs[j - 1].end);
            }
        }
        let last = rs.len() - 1;
        assert(rs[last] == rs.last());
        if last > 0 {
            assert(p.last() == rs[last - 1]);
        }
    }
}

/// The package data stream of a well laid-out package is exactly as long
/// as the sum of its operations' range lengths, and the ranges are
/// disjoint and sorted.
pub proof fn lemma_stream_len_is_sum(ops: Seq<Operation>, size: u64)
    requires
        layout_ok(ops, size),
    ensures
        sum_len(ranges_of(ops)) == size,
        forall|i: int, j: int|
            0 <= i < j < ranges_of(ops).len() ==> #[trigger] ranges_of(ops)[i].end
                <= #[trigger] ranges_of(ops)[j].start,
{
    lemma_contiguous_sum(ranges_of(ops));
}

/// Tests whether the ranges of `ops` tile a data stream of `size` bytes.
pub fn check_layout(ops: &Vec<Operation>, size: u64) -> (r: bool)
    ensures
        r == layout_ok(ops@, size),
{
    let mut end: u64 = 0;
    let mut i: usize = 0;
    while i < ops.len()
        invariant
            i <= ops@.len(),
            contiguous(ranges_of(ops@.take(i as int))),
            stream_len(ranges_of(ops@.take(i as int))) == end,
        decreases ops@.len() - i,
    {
        let ghost prev = ops@.take(i as int);
        proof {
            assert(ops@.take(i + 1) =~= prev.push(ops@[i as int]));
            lemma_ranges_of_push(prev, ops@[i as int]);
        }
        let range = match &ops[i] {
            Operation::Add { data_range, .. } => Some(*data_range),
            Operation::Patch { data_range, .. } => Some(*data_range),
            _ => None,
        };
        if let Some(r) = range {
            if r.start != end || r.end < r.start {
                proof {
                    let rs = ranges_of(ops@.take(i + 1));
                    let k = rs.len() - 1;
                    assert(rs[k] == r);
                    lemma_prefix_breaks(ops@, i as int + 1, rs);
                }
                return false;
            }
            end = r.end;
        }
        i += 1;
    }
    assert(ops@.take(ops@.len() as int) =~= ops@);
    end == size
}

/// A prefix whose ranges do not tile the stream keeps the whole sequence
/// from tiling it.
proof fn lemma_prefix_breaks(ops: Seq<Operation>, k: int, pre: Seq<ByteRange>)
    requires
        0 <= k <= ops.len(),
        pre == ranges_of(ops.take(k)),
        !contiguous(pre),
    ensures
        !contiguous(ranges_of(ops)),
    decreases ops.len() - k,
{
    if k < ops.len() {
        let next = ranges_of(ops.take(k + 1));
        assert(ops.take(k + 1) =~= ops.take(k).push(ops[k]));
        lemma_ranges_of_push(ops.take(k), ops[k]);
        assert(!contiguous(next)) by {
            let i = choose|i: int|
                0 <= i < pre.len() && !((#[trigger] pre[i]).start <= pre[i].end && (if i == 0 {
                    pre[i].start == 0
                } else {
                    pre[i].start == pre[i - 1].end
                }));
            assert(next[i] == pre[i]);
            if i > 0 {
                assert(next[i - 1] == pre[i - 1]);
            }
        }
        lemma_prefix_breaks(ops, k + 1, next);
    } else {
        assert(ops.take(k) =~= ops);
    }
}

/// Whether `op` carries data in the package stream.
pub fn carries_data(op: &Operation) -> (r: bool)
    ensures
        r == op_range(*op) is Some,
{
    match op {
        Operation::Add { .. } => true,
        Operation::Patch { .. } => true,
        _ => false,
    }
}

/// `op` with its data placed at the `len` bytes from `start`.
fn place(op: Operation, start: u64, len: u64) -> (r: Operation)
    requires
        start + len <= u64::MAX,
    ensures
        r == (if op_range(op) is Some {
            with_range(op, ByteRange { start, end: (start + len) as u64 })
        } else {
            op
        }),
{
    match op {
        Operation::Add { path, mode, final_size, final_hash, data_range, data_codec } => {
            Operation::Add {
                path,
                mode,
                final_size,
                final_hash,
                data_range: ByteRange { start, end: start + len },
                data_codec,
            }
        },
        Operation::Patch {
            path,
            mode,
            final_size,
            final_hash,
            local_hash,
            local_size,
            data_range,
            data_codec,
            patcher,
        } => Operation::Patch {
            path,
            mode,
            final_size,
            final_hash,
            local_hash,
            local_size,
            data_range: ByteRange { start, end: start + len },
            data_codec,
            patcher,
        },
        other => other,
    }
}

/// Appending a range that starts where a tiled stream ends keeps it tiled.
pub proof fn lemma_contiguous_push(ps: Seq<ByteRange>, r: ByteRange)
    requires
        contiguous(ps),
        r.start == stream_len(ps),
        r.start <= r.end,
    ensures
        contiguous(ps.push(r)),
        stream_len(ps.push(r)) == r.end,
{
    let rs = ps.push(r);
    assert forall|k: int| 0 <= k < rs.len() implies (#[trigger] rs[k]).start <= rs[k].end && (
    if k == 0 {
        rs[k].start == 0
    } else {
        rs[k].start == rs[k - 1].end
    }) by {
        if k < ps.len() {
            assert(rs[k] == ps[k]);
            if k > 0 {
                assert(rs[k - 1] == ps[k - 1]);
            }
        } else if k > 0 {
            assert(rs[k - 1] == ps[k - 1]);
        }
    }
}

/// Appending an operation placed at the end of a tiled stream keeps it
/// tiled.
proof fn lemma_push_placed(prev: Seq<Operation>, op: Operation, len: u64)
    requires
        contiguous(ranges_of(prev)),
        op_range(op) is Some ==> stream_len(ranges_of(prev)) + len <= u64::MAX,
    ensures
        ({
            let end = stream_len(ranges_of(prev));
            let next = if op_range(op) is Some {
                with_range(op, ByteRange { start: end as u64, end: (end + len) as u64 })
            } else {
                op
            };
            &&& contiguous(ranges_of(prev.push(next)))
            &&& stream_len(ranges_of(prev.push(next))) == end + (if op_range(op) is Some {
                len as int
            } else {
                0
            })
        }),
{
    let end = stream_len(ranges_of(prev));
    let r = ByteRange { start: end as u64, end: (end + len) as u64 };
    if op_range(op) is Some {
        let next = with_range(op, r);
        lemma_op_range_with_range(op, r);
        lemma_ranges_of_push(prev, next);
        lemma_contiguous_push(ranges_of(prev), r);
    } else {
        lemma_ranges_of_push(prev, op);
    }
}

/// Places each operation's data at the accumulating offset of the
/// concatenated encoded blobs: `lens[i]` is the encoded length of
/// operation `i` (ignored for operations that carry no data). Returns the
/// placed operations and the total stream length.
pub fn assign_ranges(ops: Vec<Operation>, lens: &Vec<u64>) -> (r: Result<
    (Vec<Operation>, u64),
    LayoutError,
>)
    ensures
        (r is Err && r->Err_0 == LayoutError::LengthMismatch) <==> ops@.len() != lens@.len(),
        (r is Err && r->Err_0 == LayoutError::TooLarge) <==> ops@.len() == lens@.len() && data_offset(
            ops@,
            lens@,
            ops@.len() as int,
        ) > u64::MAX,
        r matches Ok((placed_ops, total)) ==> {
            &&& placed_ops@.len() == ops@.len()
            &&& forall|i: int|
                0 <= i < ops@.len() ==> #[trigger] placed_ops@[i] == placed(ops@, lens@, i)
            &&& total == data_offset(ops@, lens@, ops@.len() as int)
            &&& layout_ok(placed_ops@, total)
        },
{
    if ops.len() != lens.len() {
        return Err(LayoutError::LengthMismatch);
    }
    let ghost orig = ops@;
    let n = ops.len();
    let mut rest = ops;
    let mut out: Vec<Operation> = Vec::new();
    let mut offset: u64 = 0;
    let mut i: usize = 0;
    let mut too_large = false;
    while i < n
        invariant_except_break
            !too_large,
            rest@ == orig.subrange(i as int, n as int),
        invariant
            n == orig.len(),
            n == lens@.len(),
            i <= n,
            out@.len() == i,
            offset == data_offset(orig, lens@, i as int),
            forall|k: int| 0 <= k < i ==> #[trigger] out@[k] == placed(orig, lens@, k),
            contiguous(ranges_of(out@)),
            stream_len(ranges_of(out@)) == offset,
        ensures
            too_large ==> data_offset(orig, lens@, n as int) > u64::MAX,
            !too_large ==> i == n,
            !too_large ==> out@.len() == n,
            !too_large ==> offset == data_offset(orig, lens@, n as int),
            !too_large ==> forall|k: int| 0 <= k < n ==> #[trigger] out@[k] == placed(orig, lens@, k),
            !too_large ==> contiguous(ranges_of(out@)),
            !too_large ==> stream_len(ranges_of(out@)) == offset,
        decreases n - i,
    {
        assert(rest@[0] == orig[i as int]);
        let op = rest.remove(0);
        assert(rest@ =~= orig.subrange(i + 1, n as int));
        let len = lens[i];
        let has = carries_data(&op);
        if has && offset > u64::MAX - len {
            proof {
                lemma_data_offset_mono(orig, lens@, i + 1, n as int);
            }
            too_large = true;
            break;
        }
        let ghost prev = out@;
        proof {
            lemma_push_placed(prev, op, len);
        }
        let new_op = if has {
            place(op, offset, len)
        } else {
            op
        };
        if has {
            offset = offset + len;
        }
        out.push(new_op);
        assert(out@ == prev.push(new_op));
        i += 1;
    }
    if too_large {
        return Err(LayoutError::TooLarge);
    }
    Ok((out, offset))
}

} // verus!
