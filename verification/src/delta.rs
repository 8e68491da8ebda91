//! Deltas: an object written as copies from a base and literal inserts.

use vstd::prelude::*;
use crate::frame::{append, copy_range};
use crate::varint::{read_varint, varint_at, PackError};

verus! {

/// What one instruction says.
pub enum DeltaOpView {
    /// Copy `len` bytes of the base, from `offset` on.
    Copy { offset: int, len: int },
    /// Insert the given bytes.
    Insert(Seq<u8>),
}

/// One instruction of a delta.
#[derive(Debug, Clone)]
pub enum DeltaOp {
    /// Copy `len` bytes of the base, from `offset` on.
    Copy { offset: u64, len: u64 },
    /// Insert the given bytes.
    Insert(Vec<u8>),
}

impl View for DeltaOp {
    type V = DeltaOpView;

    open spec fn view(&self) -> DeltaOpView {
        match self {
            DeltaOp::Copy { offset, len } => DeltaOpView::Copy {
                offset: *offset as int,
                len: *len as int,
            },
            DeltaOp::Insert(data) => DeltaOpView::Insert(data@),
        }
    }
}

/// The views of a run of instructions.
pub open spec fn op_views(s: Seq<DeltaOp>) -> Seq<DeltaOpView> {
    s.map_values(|op: DeltaOp| op@)
}

/// What a delta says: the size of the base it applies to, the size of
/// what it makes, and its instructions.
pub struct DeltaView {
    pub base_size: int,
    pub result_size: int,
    pub ops: Seq<DeltaOpView>,
}

/// A delta, parsed.
#[derive(Debug, Clone)]
pub struct Delta {
    pub base_size: u64,
    pub result_size: u64,
    pub ops: Vec<DeltaOp>,
}

impl View for Delta {
    type V = DeltaView;

    open spec fn view(&self) -> DeltaView {
        DeltaView {
            base_size: self.base_size as int,
            result_size: self.result_size as int,
            ops: op_views(self.ops@),
        }
    }
}

/// What the instructions make of a base: the copied ranges and inserted
/// bytes, one after the other. `None` where a copy reaches outside the
/// base.
pub open spec fn apply_ops(base: Seq<u8>, ops: Seq<DeltaOpView>) -> Option<Seq<u8>>
    decreases ops.len(),
{
    if ops.len() == 0 {
        Some(Seq::empty())
    } else {
        match apply_ops(base, ops.drop_last()) {
            None => None,
            Some(head) => match ops.last() {
                DeltaOpView::Copy { offset, len } => if 0 <= offset && 0 <= len && offset + len
                    <= base.len() {
                    Some(head + base.subrange(offset, offset + len))
                } else {
                    None
                },
                DeltaOpView::Insert(data) => Some(head + data),
            },
        }
    }
}

/// What a delta makes of a base: its instructions applied, provided the
/// base and the result have the sizes that the delta announces.
pub open spec fn apply_delta_view(base: Seq<u8>, delta: DeltaView) -> Option<Seq<u8>> {
    if base.len() != delta.base_size {
        None
    } else {
        match apply_ops(base, delta.ops) {
            Some(out) => if out.len() == delta.result_size {
                Some(out)
            } else {
                None
            },
            None => None,
        }
    }
}

/// One optional byte of a copy instruction: its value, the index after
/// it, and whether the input held it. An absent byte counts as zero.
pub open spec fn field_at(bytes: Seq<u8>, pos: int, present: bool) -> (int, int, bool) {
    if !present {
        (0, pos, true)
    } else if 0 <= pos < bytes.len() {
        (bytes[pos] as int, pos + 1, true)
    } else {
        (0, pos, false)
    }
}

/// The copy instruction whose command byte is `cmd` and whose fields start
/// at `pos`: the low four bits of `cmd` say which of the four offset bytes
/// are there, the next three which of the three length bytes, low bytes
/// first; a length of zero stands for 65536.
#[verifier::opaque]
pub open spec fn copy_at(bytes: Seq<u8>, pos: int, cmd: int) -> Option<(DeltaOpView, int)> {
    let (o0, at1, k0) = field_at(bytes, pos, cmd % 2 == 1);
    let (o1, at2, k1) = field_at(bytes, at1, cmd / 2 % 2 == 1);
    let (o2, at3, k2) = field_at(bytes, at2, cmd / 4 % 2 == 1);
    let (o3, at4, k3) = field_at(bytes, at3, cmd / 8 % 2 == 1);
    let (s0, at5, k4) = field_at(bytes, at4, cmd / 16 % 2 == 1);
    let (s1, at6, k5) = field_at(bytes, at5, cmd / 32 % 2 == 1);
    let (s2, at7, k6) = field_at(bytes, at6, cmd / 64 % 2 == 1);
    let size = s0 + s1 * 256 + s2 * 65536;
    if k0 && k1 && k2 && k3 && k4 && k5 && k6 {
        Some(
            (
                DeltaOpView::Copy {
                    offset: o0 + o1 * 256 + o2 * 65536 + o3 * 16777216,
                    len: if size == 0 {
                        65536
                    } else {
                        size
                    },
                },
                at7,
            ),
        )
    } else {
        None
    }
}

/// The instruction that starts at `pos`, and the index after it. A command
/// byte of 128 or more is a copy; one from 1 to 127 inserts that many of
/// the bytes that follow it; zero is no instruction.
pub open spec fn op_at(bytes: Seq<u8>, pos: int) -> Option<(DeltaOpView, int)> {
    if pos < 0 || pos >= bytes.len() {
        None
    } else {
        let cmd = bytes[pos] as int;
        if cmd >= 128 {
            copy_at(bytes, pos + 1, cmd)
        } else if cmd > 0 && pos + 1 + cmd <= bytes.len() {
            Some((DeltaOpView::Insert(bytes.subrange(pos + 1, pos + 1 + cmd)), pos + 1 + cmd))
        } else {
            None
        }
    }
}

/// The instructions from `pos` to the end of the input.
pub open spec fn ops_at(bytes: Seq<u8>, pos: int) -> Option<Seq<DeltaOpView>>
    decreases bytes.len() - pos,
{
    if pos >= bytes.len() {
        Some(Seq::empty())
    } else {
        match op_at(bytes, pos) {
            None => None,
            Some((op, next)) => if pos < next <= bytes.len() {
                match ops_at(bytes, next) {
                    None => None,
                    Some(rest) => Some(seq![op] + rest),
                }
            } else {
                None
            },
        }
    }
}

/// The delta that a byte string spells: the two sizes as variable-length
/// integers, then the instructions.
pub open spec fn delta_of(bytes: Seq<u8>) -> Option<DeltaView> {
    match varint_at(bytes, 0) {
        None => None,
        Some((base_size, at1)) => match varint_at(bytes, at1) {
            None => None,
            Some((result_size, at2)) => match ops_at(bytes, at2) {
                None => None,
                Some(ops) => if base_size <= u64::MAX && result_size <= u64::MAX {
                    Some(DeltaView { base_size, result_size, ops })
                } else {
                    None
                },
            },
        },
    }
}

/// What the delta spelled by `bytes` makes of `base`.
pub open spec fn delta_result(base: Seq<u8>, bytes: Seq<u8>) -> Option<Seq<u8>> {
    match delta_of(bytes) {
        None => None,
        Some(delta) => apply_delta_view(base, delta),
    }
}

/// Reads one optional byte of a copy instruction.
fn read_field(bytes: &[u8], pos: usize, present: bool) -> (r: Option<(u64, usize)>)
    requires
        pos <= bytes@.len(),
    ensures
        match r {
            Some((v, next)) => field_at(bytes@, pos as int, present) == (
                v as int,
                next as int,
                true,
            ) && v < 256 && pos <= next <= bytes@.len(),
            None => !field_at(bytes@, pos as int, present).2,
        },
{
    if !present {
        Some((0, pos))
    } else if pos < bytes.len() {
        Some((bytes[pos] as u64, pos + 1))
    } else {
        None
    }
}

/// Reads the fields of a copy instruction.
fn read_copy(bytes: &[u8], pos: usize, cmd: u8) -> (r: Option<(DeltaOp, usize)>)
    requires
        pos <= bytes@.len(),
    ensures
        match copy_at(bytes@, pos as int, cmd as int) {
            Some((op, next)) => r matches Some((x, n)) && x@ == op && n == next && pos <= n
                <= bytes@.len(),
            None => r.is_none(),
        },
{
    reveal(copy_at);
    let (o0, at1) = match read_field(bytes, pos, cmd % 2 == 1) {
        Some(f) => f,
        None => {
            return None;
        },
    };
    let (o1, at2) = match read_field(bytes, at1, cmd / 2 % 2 == 1) {
        Some(f) => f,
        None => {
            return None;
        },
    };
    let (o2, at3) = match read_field(bytes, at2, cmd / 4 % 2 == 1) {
        Some(f) => f,
        None => {
            return None;
        },
    };
    let (o3, at4) = match read_field(bytes, at3, cmd / 8 % 2 == 1) {
        Some(f) => f,
        None => {
            return None;
        },
    };
    let (s0, at5) = match read_field(bytes, at4, cmd / 16 % 2 == 1) {
        Some(f) => f,
        None => {
            return None;
        },
    };
    let (s1, at6) = match read_field(bytes, at5, cmd / 32 % 2 == 1) {
        Some(f) => f,
        None => {
            return None;
        },
    };
    let (s2, at7) = match read_field(bytes, at6, cmd / 64 % 2 == 1) {
        Some(f) => f,
        None => {
            return None;
        },
    };
    let size: u64 = s0 + s1 * 256 + s2 * 65536;
    let len: u64 = if size == 0 {
        65536
    } else {
        size
    };
    Some((DeltaOp::Copy { offset: o0 + o1 * 256 + o2 * 65536 + o3 * 16777216, len }, at7))
}

/// Reads the instruction that starts at `pos`.
fn read_op(bytes: &[u8], pos: usize) -> (r: Option<(DeltaOp, usize)>)
    requires
        pos < bytes@.len(),
    ensures
        match op_at(bytes@, pos as int) {
            Some((op, next)) => r matches Some((x, n)) && x@ == op && n == next && pos < n
                <= bytes@.len(),
            None => r.is_none(),
        },
{
    let n = bytes.len();
    let cmd = bytes[pos];
    if cmd >= 128 {
        read_copy(bytes, pos + 1, cmd)
    } else if cmd > 0 && (cmd as usize) <= n - pos - 1 {
        let end = pos + 1 + cmd as usize;
        Some((DeltaOp::Insert(copy_range(bytes, pos + 1, end)), end))
    } else {
        None
    }
}

/// Reads a delta from its bytes.
pub fn parse_delta(bytes: &[u8]) -> (r: Result<Delta, PackError>)
    ensures
        match delta_of(bytes@) {
            Some(delta) => r matches Ok(d) && d@ == delta,
            None => r matches Err(e) && e == PackError::BadDelta,
        },
{
    let n = bytes.len();
    let head = read_varint(bytes, 0);
    let (base_size, at1) = match head {
        Ok(found) => found,
        Err(_e) => {
            return Err(PackError::BadDelta);
        },
    };
    let (result_size, at2) = match read_varint(bytes, at1) {
        Ok(found) => found,
        Err(_e) => {
            return Err(PackError::BadDelta);
        },
    };
    let mut ops: Vec<DeltaOp> = Vec::new();
    let mut pos: usize = at2;
    proof {
        assert(op_views(ops@) =~= Seq::<DeltaOpView>::empty());
        match ops_at(bytes@, at2 as int) {
            Some(rest) => {
                assert(op_views(ops@) + rest =~= rest);
            },
            None => {},
        }
    }
    while pos < n
        invariant
            at2 <= pos <= n == bytes@.len(),
            varint_at(bytes@, 0) == Some((base_size as int, at1 as int)),
            varint_at(bytes@, at1 as int) == Some((result_size as int, at2 as int)),
            ops_at(bytes@, at2 as int) == match ops_at(bytes@, pos as int) {
                Some(rest) => Some(op_views(ops@) + rest),
                None => None,
            },
        decreases n - pos,
    {
        let (op, next) = match read_op(bytes, pos) {
            Some(found) => found,
            None => {
                proof {
                    assert(ops_at(bytes@, pos as int).is_none());
                }
                return Err(PackError::BadDelta);
            },
        };
        let ghost before = op_views(ops@);
        let ghost view = op@;
        ops.push(op);
        proof {
            assert(op_views(ops@) =~= before.push(view));
            match ops_at(bytes@, next as int) {
                Some(rest) => {
                    assert(before + (seq![view] + rest) =~= before.push(view) + rest);
                },
                None => {},
            }
        }
        pos = next;
    }
    proof {
        assert(op_views(ops@) + Seq::<DeltaOpView>::empty() =~= op_views(ops@));
    }
    Ok(Delta { base_size, result_size, ops })
}

/// Applies instructions to a base.
pub fn apply(base: &[u8], ops: &Vec<DeltaOp>) -> (r: Result<Vec<u8>, PackError>)
    ensures
        match apply_ops(base@, op_views(ops@)) {
            Some(out) => r matches Ok(o) && o@ == out,
            None => r matches Err(e) && e == PackError::BadDelta,
        },
{
    let ghost all = op_views(ops@);
    let n = base.len();
    let mut out: Vec<u8> = Vec::new();
    let mut i: usize = 0;
    proof {
        assert(all.subrange(0, 0) =~= Seq::<DeltaOpView>::empty());
    }
    while i < ops.len()
        invariant
            i <= ops@.len(),
            n == base@.len(),
            all == op_views(ops@),
            apply_ops(base@, all.subrange(0, i as int)) == Some(out@),
        decreases ops@.len() - i,
    {
        let ghost prefix = all.subrange(0, i + 1);
        proof {
            assert(prefix.drop_last() =~= all.subrange(0, i as int));
            assert(prefix.last() == ops@[i as int]@);
        }
        match &ops[i] {
            DeltaOp::Copy { offset, len } => {
                if *offset > n as u64 || *len > n as u64 - *offset {
                    proof {
                        lemma_apply_fails(base@, all, i + 1);
                    }
                    return Err(PackError::BadDelta);
                }
                let start = *offset as usize;
                let end = start + *len as usize;
                let piece = copy_range(base, start, end);
                append(&mut out, piece.as_slice());
            },
            DeltaOp::Insert(data) => {
                append(&mut out, data.as_slice());
            },
        }
        i = i + 1;
    }
    proof {
        assert(all.subrange(0, i as int) =~= all);
    }
    Ok(out)
}

/// Once a prefix of the instructions fails, so does the whole run.
pub proof fn lemma_apply_fails(base: Seq<u8>, ops: Seq<DeltaOpView>, k: int)
    requires
        0 <= k <= ops.len(),
        apply_ops(base, ops.subrange(0, k)).is_none(),
    ensures
        apply_ops(base, ops).is_none(),
    decreases ops.len() - k,
{
    if k < ops.len() {
        assert(ops.subrange(0, k + 1).drop_last() =~= ops.subrange(0, k));
        lemma_apply_fails(base, ops, k + 1);
    } else {
        assert(ops.subrange(0, k) =~= ops);
    }
}

/// Applies a delta to a base.
pub fn apply_delta(base: &[u8], delta: &Delta) -> (r: Result<Vec<u8>, PackError>)
    ensures
        match apply_delta_view(base@, delta@) {
            Some(out) => r matches Ok(o) && o@ == out,
            None => r matches Err(e) && e == PackError::BadDelta,
        },
{
    if base.len() as u64 != delta.base_size {
        return Err(PackError::BadDelta);
    }
    match apply(base, &delta.ops) {
        Ok(out) => {
            if out.len() as u64 != delta.result_size {
                Err(PackError::BadDelta)
            } else {
                Ok(out)
            }
        },
        Err(e) => Err(e),
    }
}

/// Applies the delta spelled by `bytes` to a base.
pub fn resolve_delta(base: &[u8], bytes: &[u8]) -> (r: Result<Vec<u8>, PackError>)
    ensures
        match delta_result(base@, bytes@) {
            Some(out) => r matches Ok(o) && o@ == out,
            None => r matches Err(e) && e == PackError::BadDelta,
        },
{
    match parse_delta(bytes) {
        Ok(delta) => apply_delta(base, &delta),
        Err(e) => Err(e),
    }
}

} // verus!
