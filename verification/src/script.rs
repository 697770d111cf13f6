//! The payload locator: finds the first output script that begins with the
//! protocol's marker opcodes and concatenates its data pushes into one
//! payload buffer.

use vstd::prelude::*;

verus! {

/// The opcode that makes an output unspendable and opens a data script.
pub const OP_RETURN: u8 = 0x6a;

/// The push-number opcode reserved as the protocol marker.
pub const OP_MARKER: u8 = 0x5d;

pub const OP_PUSHDATA1: u8 = 0x4c;

pub const OP_PUSHDATA2: u8 = 0x4d;

pub const OP_PUSHDATA4: u8 = 0x4e;

/// Whether a script carries the protocol marker: it begins with the
/// data-script opcode followed by the marker opcode.
pub open spec fn has_marker(s: Seq<u8>) -> bool {
    s.len() >= 2 && s[0] == OP_RETURN && s[1] == OP_MARKER
}

/// The data pushes of `s` from index `i` on, concatenated, and whether a
/// push header announced more bytes than the script holds (an invalid
/// script structure). A non-push opcode ends collection there; the bytes
/// gathered so far still count.
pub open spec fn payload_from(s: Seq<u8>, i: int) -> (Seq<u8>, bool)
    decreases s.len() - i,
{
    if i >= s.len() {
        (Seq::<u8>::empty(), false)
    } else {
        let op = s[i];
        if op == 0 {
            payload_from(s, i + 1)
        } else if op <= 75 {
            if i + 1 + op > s.len() {
                (Seq::<u8>::empty(), true)
            } else {
                let r = payload_from(s, i + 1 + op);
                (s.subrange(i + 1, i + 1 + op) + r.0, r.1)
            }
        } else if op == OP_PUSHDATA1 {
            if i + 2 > s.len() {
                (Seq::<u8>::empty(), true)
            } else {
                let n = s[i + 1] as int;
                if i + 2 + n > s.len() {
                    (Seq::<u8>::empty(), true)
                } else {
                    let r = payload_from(s, i + 2 + n);
                    (s.subrange(i + 2, i + 2 + n) + r.0, r.1)
                }
            }
        } else if op == OP_PUSHDATA2 {
            if i + 3 > s.len() {
                (Seq::<u8>::empty(), true)
            } else {
                let n = s[i + 1] as int + 256 * (s[i + 2] as int);
                if i + 3 + n > s.len() {
                    (Seq::<u8>::empty(), true)
                } else {
                    let r = payload_from(s, i + 3 + n);
                    (s.subrange(i + 3, i + 3 + n) + r.0, r.1)
                }
            }
        } else if op == OP_PUSHDATA4 {
            if i + 5 > s.len() {
                (Seq::<u8>::empty(), true)
            } else {
                let n = s[i + 1] as int + 256 * (s[i + 2] as int) + 65536 * (s[i + 3] as int)
                    + 16777216 * (s[i + 4] as int);
                if i + 5 + n > s.len() {
                    (Seq::<u8>::empty(), true)
                } else {
                    let r = payload_from(s, i + 5 + n);
                    (s.subrange(i + 5, i + 5 + n) + r.0, r.1)
                }
            }
        } else {
            (Seq::<u8>::empty(), false)
        }
    }
}

/// The index of the first output script carrying the marker, from `i` on.
pub open spec fn first_marker_index(outs: Seq<Seq<u8>>, i: nat) -> Option<nat>
    decreases outs.len() - i,
{
    if i >= outs.len() {
        None::<nat>
    } else if has_marker(outs[i as int]) {
        Some(i)
    } else {
        first_marker_index(outs, (i + 1) as nat)
    }
}

/// Executable twin of `has_marker`.
pub fn marker_check(s: &Vec<u8>) -> (r: bool)
    ensures
        r == has_marker(s@),
{
    s.len() >= 2 && s[0] == OP_RETURN && s[1] == OP_MARKER
}

/// Copies `n` bytes of `s` starting at `from` onto the end of `out`.
fn push_chunk(s: &Vec<u8>, from: usize, n: usize, out: &mut Vec<u8>)
    requires
        from + n <= s@.len(),
    ensures
        final(out)@ == old(out)@ + s@.subrange(from as int, from + n),
{
    let len = s.len();
    let mut j: usize = 0;
    while j < n
        invariant
            j <= n,
            len == s@.len(),
            from + n <= len,
            out@ == old(out)@ + s@.subrange(from as int, from + j),
        decreases n - j,
    {
        out.push(s[from + j]);
        proof {
            assert(s@.subrange(from as int, from + (j + 1)) =~= s@.subrange(
                from as int,
                from + j,
            ).push(s@[from + j]));
        }
        j = j + 1;
    }
}

/// Executable twin of `payload_from`: gathers the data pushes of `s` from
/// `i` into `out` and reports whether a push ran past the script's end.
pub fn collect_payload(s: &Vec<u8>, i: usize, out: &mut Vec<u8>) -> (bad: bool)
    requires
        i <= s@.len(),
    ensures
        ({
            let r = payload_from(s@, i as int);
            final(out)@ == old(out)@ + r.0 && bad == r.1
        }),
    decreases s@.len() - i,
{
    let len = s.len();
    if i >= len {
        return false;
    }
    let op = s[i];
    if op == 0 {
        collect_payload(s, i + 1, out)
    } else if op <= 75 {
        let n = op as usize;
        if n > len - (i + 1) {
            return true;
        }
        push_chunk(s, i + 1, n, out);
        collect_payload(s, i + 1 + n, out)
    } else if op == OP_PUSHDATA1 {
        if len - i < 2 {
            return true;
        }
        let n = s[i + 1] as usize;
        if n > len - (i + 2) {
            return true;
        }
        push_chunk(s, i + 2, n, out);
        collect_payload(s, i + 2 + n, out)
    } else if op == OP_PUSHDATA2 {
        if len - i < 3 {
            return true;
        }
        let n = s[i + 1] as usize + 256 * (s[i + 2] as usize);
        if n > len - (i + 3) {
            return true;
        }
        push_chunk(s, i + 3, n, out);
        collect_payload(s, i + 3 + n, out)
    } else if op == OP_PUSHDATA4 {
        if len - i < 5 {
            return true;
        }
        let n64 = s[i + 1] as u64 + 256 * (s[i + 2] as u64) + 65536 * (s[i + 3] as u64)
            + 16777216 * (s[i + 4] as u64);
        if n64 > (len - (i + 5)) as u64 {
            return true;
        }
        let n = n64 as usize;
        push_chunk(s, i + 5, n, out);
        collect_payload(s, i + 5 + n, out)
    } else {
        false
    }
}

} // verus!
