//! The edict codec: after the body tag the remaining integers are runs of
//! three — a packed identifier delta, an amount, and an output index. The
//! identifier of each edict is the previous edict's identifier plus the
//! delta; the first delta counts from (0, 0). A delta packs the block part
//! above bit 32: when the block part is zero the low part moves the index
//! relative to the previous edict, otherwise the low part is an absolute
//! index in the new block.

use vstd::prelude::*;

use crate::model::{Edict, Flaw, RuneId};

verus! {

/// 2^32, the packing base of (block, index) pairs.
pub const ID_BASE: u128 = 0x100000000;

/// Applies one packed delta to the previous identifier; `None` when the
/// block or index sum leaves its 64- or 32-bit range.
pub open spec fn delta_id(prev: RuneId, d: u128) -> Option<RuneId> {
    let bd = (d as nat) / (ID_BASE as nat);
    let lo = (d as nat) % (ID_BASE as nat);
    if bd == 0 {
        if prev.tx + lo <= u32::MAX {
            Some(RuneId { block: prev.block, tx: (prev.tx + lo) as u32 })
        } else {
            None
        }
    } else {
        if prev.block + bd <= u64::MAX {
            Some(RuneId { block: (prev.block + bd) as u64, tx: lo as u32 })
        } else {
            None
        }
    }
}

/// Reads the edict runs from `i` to the end of the stream. The result is
/// the decoded edicts together with the first edict-level flaw, if any:
/// a run count that is not a multiple of three, an identifier overflow, or
/// an output index beyond the transaction's `n_out` outputs (the index
/// equal to `n_out` is the reserved "all remaining outputs" sentinel).
pub open spec fn edicts_read(ints: Seq<u128>, i: nat, prev: RuneId, n_out: nat) -> (
    Seq<Edict>,
    Option<Flaw>,
)
    decreases ints.len() - i,
{
    if i >= ints.len() {
        (Seq::<Edict>::empty(), None::<Flaw>)
    } else if i + 3 > ints.len() {
        (Seq::<Edict>::empty(), Some(Flaw::TruncatedEdict))
    } else {
        let d = ints[i as int];
        let amt = ints[i + 1int];
        let out = ints[i + 2int];
        match delta_id(prev, d) {
            None => (Seq::<Edict>::empty(), Some(Flaw::Overflow)),
            Some(id) => {
                if out > u32::MAX || (out as nat) > n_out {
                    (Seq::<Edict>::empty(), Some(Flaw::EdictOutput))
                } else {
                    let e = Edict { id, amount: amt, output: out as u32 };
                    let (rest, f) = edicts_read(ints, (i + 3) as nat, id, n_out);
                    (seq![e] + rest, f)
                }
            },
        }
    }
}

/// Executable twin of `delta_id`.
pub fn apply_delta(prev: RuneId, d: u128) -> (r: Option<RuneId>)
    ensures
        r == delta_id(prev, d),
{
    let bd = d / ID_BASE;
    let lo = d % ID_BASE;
    if bd == 0 {
        let sum = prev.tx as u64 + lo as u64;
        if sum <= u32::MAX as u64 {
            Some(RuneId { block: prev.block, tx: sum as u32 })
        } else {
            None
        }
    } else {
        if bd <= (u64::MAX as u128) - (prev.block as u128) {
            Some(RuneId { block: prev.block + bd as u64, tx: lo as u32 })
        } else {
            None
        }
    }
}

/// Executable twin of `edicts_read`.
pub fn decode_edicts(ints: &Vec<u128>, i: usize, prev: RuneId, n_out: usize) -> (r: (
    Vec<Edict>,
    Option<Flaw>,
))
    requires
        i <= ints@.len(),
    ensures
        ({
            let (es, f) = edicts_read(ints@, i as nat, prev, n_out as nat);
            r.0@ == es && r.1 == f
        }),
    decreases ints@.len() - i,
{
    let len = ints.len();
    if i >= len {
        (Vec::new(), None)
    } else if len - i < 3 {
        (Vec::new(), Some(Flaw::TruncatedEdict))
    } else {
        let d = ints[i];
        let amt = ints[i + 1];
        let out = ints[i + 2];
        match apply_delta(prev, d) {
            None => (Vec::new(), Some(Flaw::Overflow)),
            Some(id) => {
                if out > u32::MAX as u128 || out > n_out as u128 {
                    (Vec::new(), Some(Flaw::EdictOutput))
                } else {
                    let e = Edict { id, amount: amt, output: out as u32 };
                    let (mut rest, f) = decode_edicts(ints, i + 3, id, n_out);
                    let ghost r0 = rest@;
                    rest.insert(0, e);
                    proof {
                        assert(rest@ == r0.insert(0, e));
                        assert(r0.insert(0, e) =~= seq![e] + r0);
                    }
                    (rest, f)
                }
            },
        }
    }
}

} // verus!
