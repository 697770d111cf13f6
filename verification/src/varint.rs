//! The integer codec: non-negative integers of up to 128 bits as
//! little-endian base-128 variable-length byte sequences. Each byte holds
//! seven value bits; the high bit is set on every byte but the last.

use vstd::prelude::*;

use crate::model::Flaw;

verus! {

/// The minimal encoding of `v`: low seven bits first, continuation bit on
/// every byte except the terminator.
pub open spec fn varint_encoding(v: nat) -> Seq<u8>
    decreases v,
{
    if v < 128 {
        seq![v as u8]
    } else {
        seq![(v % 128 + 128) as u8] + varint_encoding(v / 128)
    }
}

/// The largest value (exclusive) that the bytes of one varint from its
/// byte position `k` onward may still contribute: the decoder admits at
/// most 19 bytes, and of the 19th only two value bits, so that a decoded
/// value always fits in 128 bits.
pub open spec fn varint_bound(k: nat) -> nat
    decreases 19 - k,
{
    if k >= 19 {
        1
    } else if k == 18 {
        4
    } else {
        128 * varint_bound((k + 1) as nat)
    }
}

/// The outcome of reading one varint.
pub enum VarintRead {
    /// `v` is the value contributed from the current position onward and
    /// `n` the number of bytes of the whole varint, terminator included.
    Value { v: nat, n: nat },
    /// The stream ended before a byte without the continuation bit.
    Truncated,
    /// The accumulated value would exceed 128 bits before termination.
    Overflow,
}

/// Reads the varint that starts at `start` in `s`, seen from its byte
/// position `k`: the value of the remaining bytes (unscaled) and the byte
/// count of the whole varint. Overflow is judged byte by byte, before
/// termination, so it takes precedence over a later truncation.
pub open spec fn varint_read_at(s: Seq<u8>, start: nat, k: nat) -> VarintRead
    decreases s.len() - (start + k),
{
    if start + k >= s.len() {
        VarintRead::Truncated
    } else {
        let b = s[(start + k) as int];
        let low = (b % 128) as nat;
        if low >= varint_bound(k) {
            VarintRead::Overflow
        } else if b < 128 {
            VarintRead::Value { v: low, n: (k + 1) as nat }
        } else {
            match varint_read_at(s, start, (k + 1) as nat) {
                VarintRead::Value { v, n } => VarintRead::Value { v: (low + 128 * v) as nat, n },
                VarintRead::Truncated => VarintRead::Truncated,
                VarintRead::Overflow => VarintRead::Overflow,
            }
        }
    }
}

/// The capacity bounds never grow with the position.
pub proof fn lemma_varint_bound_step(k: nat)
    ensures
        varint_bound((k + 1) as nat) <= varint_bound(k),
        varint_bound(k) >= 1,
    decreases 19 - k,
{
    if k >= 19 {
    } else if k == 18 {
    } else {
        lemma_varint_bound_step((k + 1) as nat);
    }
}

/// Every position's capacity is at most the first one's, 2^128.
pub proof fn lemma_varint_bound_le(k: nat)
    ensures
        varint_bound(k) <= varint_bound(0),
        varint_bound(0) == 0x100000000000000000000000000000000,
    decreases k,
{
    assert(varint_bound(0) == 0x100000000000000000000000000000000) by {
        reveal_with_fuel(varint_bound, 20);
    }
    if k > 0 {
        lemma_varint_bound_le((k - 1) as nat);
        lemma_varint_bound_step((k - 1) as nat);
    }
}

/// Before the last two admitted positions the capacity is at least 512, so
/// no single byte's seven bits can reach it.
pub proof fn lemma_varint_bound_lower(k: nat)
    requires
        k < 18,
    ensures
        varint_bound(k) >= 512,
    decreases 18 - k,
{
    if k == 17 {
        assert(varint_bound(17) == 512) by {
            reveal_with_fuel(varint_bound, 3);
        }
    } else {
        lemma_varint_bound_lower((k + 1) as nat);
    }
}

/// A byte's seven low bits and the remaining bytes' contribution together
/// stay below the current position's capacity.
pub proof fn lemma_varint_accumulate(k: nat, low: nat, v: nat)
    requires
        low < varint_bound(k),
        low < 128,
        v < varint_bound((k + 1) as nat),
    ensures
        low + 128 * v < varint_bound(k),
{
    if k < 18 {
        assert(varint_bound(k) == 128 * varint_bound((k + 1) as nat));
        assert(128 * v <= 128 * (varint_bound((k + 1) as nat) - 1)) by (nonlinear_arith)
            requires v <= varint_bound((k + 1) as nat) - 1;
    } else if k == 18 {
        assert(varint_bound(19) == 1);
        assert(v == 0);
    } else {
        assert(varint_bound((k + 1) as nat) == 1);
        assert(v == 0);
    }
}

/// A successful read stays below the position's capacity and consumes at
/// least one and at most the remaining bytes.
pub proof fn lemma_varint_read_props(s: Seq<u8>, start: nat, k: nat)
    ensures
        match varint_read_at(s, start, k) {
            VarintRead::Value { v, n } => v < varint_bound(k) && k < n && start + n <= s.len(),
            _ => true,
        },
    decreases s.len() - (start + k),
{
    if start + k >= s.len() {
    } else {
        let b = s[(start + k) as int];
        let low = (b % 128) as nat;
        if low >= varint_bound(k) {
        } else if b < 128 {
        } else {
            lemma_varint_read_props(s, start, (k + 1) as nat);
            match varint_read_at(s, start, (k + 1) as nat) {
                VarintRead::Value { v, n } => {
                    lemma_varint_accumulate(k, low, v);
                },
                _ => {},
            }
        }
    }
}

/// Reading back a minimal encoding placed at `start + k` yields exactly the
/// encoded value and its length, for any value the position can still hold.
pub proof fn lemma_varint_read_encoding(s: Seq<u8>, start: nat, k: nat, x: nat)
    requires
        x < varint_bound(k),
        start + k + varint_encoding(x).len() <= s.len(),
        forall|i: int|
            0 <= i < varint_encoding(x).len() ==> s[start + k + i] == varint_encoding(x)[i],
    ensures
        varint_read_at(s, start, k) == (VarintRead::Value {
            v: x,
            n: (k + varint_encoding(x).len()) as nat,
        }),
    decreases x,
{
    if x < 128 {
        assert(varint_encoding(x) == seq![x as u8]);
        assert(s[start + k + 0int] == varint_encoding(x)[0]);
        assert(s[(start + k) as int] == x as u8);
    } else {
        let b = (x % 128 + 128) as u8;
        let rest = x / 128;
        assert(varint_encoding(x) == seq![b] + varint_encoding(rest));
        assert(s[start + k + 0int] == varint_encoding(x)[0]);
        assert(s[(start + k) as int] == b);
        let low = (b % 128) as nat;
        assert(low == x % 128);
        if k >= 18 {
            // capacity at most 4 there, yet x >= 128: impossible
            assert(varint_bound(k) <= 4) by {
                if k == 18 {
                } else {
                    lemma_varint_bound_step(18);
                    assert(varint_bound(k) == 1);
                }
            }
            assert(false);
        }
        lemma_varint_bound_lower(k);
        assert(low < 128 < 512 <= varint_bound(k));
        assert(rest < varint_bound((k + 1) as nat)) by {
            assert(varint_bound(k) == 128 * varint_bound((k + 1) as nat));
            assert(x < 128 * varint_bound((k + 1) as nat));
            assert(x / 128 < varint_bound((k + 1) as nat)) by (nonlinear_arith)
                requires x < 128 * varint_bound((k + 1) as nat);
        }
        assert forall|i: int|
            0 <= i < varint_encoding(rest).len() implies s[start + (k + 1) + i] == varint_encoding(
            rest,
        )[i] by {
            assert(s[start + k + (i + 1)] == varint_encoding(x)[i + 1]);
            assert((seq![b] + varint_encoding(rest))[i + 1] == varint_encoding(rest)[i]);
        }
        lemma_varint_read_encoding(s, start, (k + 1) as nat, rest);
        assert(low + 128 * rest == x) by {
            vstd::arithmetic::div_mod::lemma_fundamental_div_mod(x as int, 128);
        }
    }
}

/// The outcome of reading a whole payload as a flat integer sequence.
pub enum IntegersRead {
    Values(Seq<u128>),
    Truncated,
    Overflow,
}

#[via_fn]
proof fn integers_read_from_decreases(s: Seq<u8>, pos: nat) {
    if pos < s.len() {
        lemma_varint_read_props(s, pos, 0);
    }
}

/// Reads varints one after the other from `pos` to the end of `s`. A
/// stream ending exactly at a varint boundary is complete; one ending
/// mid-varint is truncated.
pub open spec fn integers_read_from(s: Seq<u8>, pos: nat) -> IntegersRead
    decreases s.len() - pos,
    via integers_read_from_decreases
{
    if pos >= s.len() {
        IntegersRead::Values(Seq::empty())
    } else {
        match varint_read_at(s, pos, 0) {
            VarintRead::Truncated => IntegersRead::Truncated,
            VarintRead::Overflow => IntegersRead::Overflow,
            VarintRead::Value { v, n } => match integers_read_from(s, (pos + n) as nat) {
                IntegersRead::Values(rest) => IntegersRead::Values(seq![v as u128] + rest),
                IntegersRead::Truncated => IntegersRead::Truncated,
                IntegersRead::Overflow => IntegersRead::Overflow,
            },
        }
    }
}

/// The concatenation of the minimal encodings of a sequence of integers.
pub open spec fn integers_encoding(vs: Seq<u128>) -> Seq<u8>
    decreases vs.len(),
{
    if vs.len() == 0 {
        Seq::empty()
    } else {
        varint_encoding(vs[0] as nat) + integers_encoding(vs.subrange(1, vs.len() as int))
    }
}

pub proof fn lemma_integers_encoding_push(vs: Seq<u128>, v: u128)
    ensures
        integers_encoding(vs.push(v)) == integers_encoding(vs) + varint_encoding(v as nat),
    decreases vs.len(),
{
    let s2 = vs.push(v);
    if vs.len() == 0 {
        assert(s2[0] == v);
        assert(s2.subrange(1, s2.len() as int) =~= Seq::<u128>::empty());
        assert(integers_encoding(s2.subrange(1, s2.len() as int)) == Seq::<u8>::empty());
        assert(integers_encoding(s2) == varint_encoding(v as nat) + Seq::<u8>::empty());
        assert(varint_encoding(v as nat) + Seq::<u8>::empty() =~= varint_encoding(v as nat));
        assert(integers_encoding(vs) == Seq::<u8>::empty());
        assert(integers_encoding(vs) + varint_encoding(v as nat) =~= varint_encoding(v as nat));
    } else {
        let tail = vs.subrange(1, vs.len() as int);
        assert(s2[0] == vs[0]);
        assert(s2.subrange(1, s2.len() as int) =~= tail.push(v));
        lemma_integers_encoding_push(tail, v);
        assert(integers_encoding(s2) == varint_encoding(vs[0] as nat) + (integers_encoding(tail)
            + varint_encoding(v as nat)));
        assert(integers_encoding(vs) == varint_encoding(vs[0] as nat) + integers_encoding(tail));
        assert(varint_encoding(vs[0] as nat) + (integers_encoding(tail) + varint_encoding(
            v as nat,
        )) =~= (varint_encoding(vs[0] as nat) + integers_encoding(tail)) + varint_encoding(
            v as nat,
        ));
    }
}

/// Round trip at the integer-sequence level: a payload that is exactly the
/// encoding of `vs` (from `pos` to the end) reads back as `vs`.
pub proof fn lemma_integers_read_encoding(s: Seq<u8>, pos: nat, vs: Seq<u128>)
    requires
        pos + integers_encoding(vs).len() == s.len(),
        forall|i: int|
            0 <= i < integers_encoding(vs).len() ==> s[pos + i] == integers_encoding(vs)[i],
    ensures
        integers_read_from(s, pos) == IntegersRead::Values(vs),
    decreases vs.len(),
{
    if vs.len() == 0 {
        assert(integers_read_from(s, pos) == IntegersRead::Values(Seq::<u128>::empty()));
        assert(vs =~= Seq::<u128>::empty());
    } else {
        let v = vs[0];
        let enc0 = varint_encoding(v as nat);
        let tail = vs.subrange(1, vs.len() as int);
        assert(integers_encoding(vs) == enc0 + integers_encoding(tail));
        assert(forall|i: int| 0 <= i < enc0.len() ==> s[pos + i] == enc0[i]) by {
            assert(forall|i: int|
                0 <= i < enc0.len() ==> (enc0 + integers_encoding(tail))[i] == enc0[i]);
        }
        lemma_varint_bound_le(0);
        lemma_varint_read_encoding(s, pos, 0, v as nat);
        let n = enc0.len();
        assert(varint_read_at(s, pos, 0) == (VarintRead::Value { v: v as nat, n: n as nat }));
        assert(forall|i: int|
            0 <= i < integers_encoding(tail).len() ==> s[pos + n + i] == integers_encoding(
                tail,
            )[i]) by {
            assert(forall|i: int|
                0 <= i < integers_encoding(tail).len() ==> (enc0 + integers_encoding(tail))[n + i]
                    == integers_encoding(tail)[i]);
        }
        lemma_integers_read_encoding(s, (pos + n) as nat, tail);
        assert(seq![((v as nat) as u128)] + tail =~= vs);
    }
}

/// A varint cut before its terminator reads as truncated: every byte of a
/// minimal encoding except the last carries the continuation bit.
pub proof fn lemma_varint_read_cut(s: Seq<u8>, start: nat, k: nat, x: nat)
    requires
        x < varint_bound(k),
        s.len() < start + k + varint_encoding(x).len(),
        forall|i: int|
            0 <= i < varint_encoding(x).len() && start + k + i < s.len() ==> s[start + k + i]
                == varint_encoding(x)[i],
    ensures
        varint_read_at(s, start, k) == VarintRead::Truncated,
    decreases x,
{
    if start + k >= s.len() {
    } else {
        assert(s[start + k + 0int] == varint_encoding(x)[0]);
        if x < 128 {
            assert(varint_encoding(x).len() == 1);
            assert(false);
        } else {
            let b = (x % 128 + 128) as u8;
            let rest = x / 128;
            assert(varint_encoding(x) == seq![b] + varint_encoding(rest));
            assert(s[(start + k) as int] == b);
            let low = (b % 128) as nat;
            assert(low == x % 128);
            if k >= 18 {
                assert(varint_bound(k) <= 4) by {
                    if k == 18 {
                    } else {
                        lemma_varint_bound_step(18);
                        assert(varint_bound(k) == 1);
                    }
                }
                assert(false);
            }
            lemma_varint_bound_lower(k);
            assert(rest < varint_bound((k + 1) as nat)) by {
                assert(varint_bound(k) == 128 * varint_bound((k + 1) as nat));
                assert(x / 128 < varint_bound((k + 1) as nat)) by (nonlinear_arith)
                    requires x < 128 * varint_bound((k + 1) as nat);
            }
            assert forall|i: int|
                0 <= i < varint_encoding(rest).len() && start + (k + 1) + i < s.len() implies s[
                start + (k + 1) + i] == varint_encoding(rest)[i] by {
                assert(s[start + k + (i + 1)] == varint_encoding(x)[i + 1]);
                assert((seq![b] + varint_encoding(rest))[i + 1] == varint_encoding(rest)[i]);
            }
            lemma_varint_read_cut(s, start, (k + 1) as nat, rest);
        }
    }
}

/// An encoded integer sequence short of its final byte reads either as
/// truncated, or — when the last integer's encoding was a single byte —
/// as the sequence without its last integer; never as anything else.
pub proof fn lemma_integers_read_cut(s: Seq<u8>, pos: nat, vs: Seq<u128>)
    requires
        vs.len() > 0,
        pos + integers_encoding(vs).len() == s.len() + 1,
        forall|i: int|
            0 <= i < integers_encoding(vs).len() && pos + i < s.len() ==> s[pos + i]
                == integers_encoding(vs)[i],
    ensures
        integers_read_from(s, pos) == IntegersRead::Truncated || integers_read_from(s, pos)
            == IntegersRead::Values(vs.subrange(0, vs.len() - 1)),
    decreases vs.len(),
{
    let v = vs[0];
    let enc0 = varint_encoding(v as nat);
    let tail = vs.subrange(1, vs.len() as int);
    assert(integers_encoding(vs) == enc0 + integers_encoding(tail));
    lemma_varint_bound_le(0);
    if vs.len() == 1 {
        assert(integers_encoding(tail).len() == 0);
        assert(integers_encoding(vs).len() == enc0.len());
        assert(forall|i: int|
            0 <= i < enc0.len() && pos + i < s.len() ==> s[pos + i] == enc0[i]) by {
            assert(forall|i: int|
                0 <= i < enc0.len() ==> (enc0 + integers_encoding(tail))[i] == enc0[i]);
        }
        if enc0.len() == 1 {
            assert(pos == s.len());
            assert(integers_read_from(s, pos) == IntegersRead::Values(Seq::<u128>::empty()));
            assert(vs.subrange(0, vs.len() - 1) =~= Seq::<u128>::empty());
        } else {
            lemma_varint_read_cut(s, pos, 0, v as nat);
        }
    } else {
        assert(integers_encoding(tail).len() > 0) by {
            assert(tail.len() > 0);
            assert(integers_encoding(tail) == varint_encoding(tail[0] as nat) + integers_encoding(
                tail.subrange(1, tail.len() as int),
            ));
            assert(varint_encoding(tail[0] as nat).len() > 0);
        }
        assert(enc0.len() + integers_encoding(tail).len() == integers_encoding(vs).len());
        assert(pos + enc0.len() < s.len() + 1);
        assert(forall|i: int| 0 <= i < enc0.len() ==> s[pos + i] == enc0[i]) by {
            assert(forall|i: int|
                0 <= i < enc0.len() ==> (enc0 + integers_encoding(tail))[i] == enc0[i]);
        }
        lemma_varint_read_encoding(s, pos, 0, v as nat);
        let n = enc0.len();
        assert(varint_read_at(s, pos, 0) == (VarintRead::Value { v: v as nat, n: n as nat }));
        assert(forall|i: int|
            0 <= i < integers_encoding(tail).len() && pos + n + i < s.len() ==> s[pos + n + i]
                == integers_encoding(tail)[i]) by {
            assert(forall|i: int|
                0 <= i < integers_encoding(tail).len() ==> (enc0 + integers_encoding(tail))[n + i]
                    == integers_encoding(tail)[i]);
        }
        lemma_integers_read_cut(s, (pos + n) as nat, tail);
        if integers_read_from(s, (pos + n) as nat) == IntegersRead::Values(
            tail.subrange(0, tail.len() - 1),
        ) {
            assert(seq![((v as nat) as u128)] + tail.subrange(0, tail.len() - 1) =~= vs.subrange(
                0,
                vs.len() - 1,
            ));
        }
    }
}

/// Reads the varint whose first byte stands at `start + k` of `bytes`,
/// where `k` bytes of it were already consumed.
fn varint_decode_rest(bytes: &Vec<u8>, start: usize, k: usize) -> (r: Result<(u128, usize), Flaw>)
    requires
        start + k <= bytes@.len(),
    ensures
        match r {
            Ok((v, n)) => varint_read_at(bytes@, start as nat, k as nat) == (VarintRead::Value {
                v: v as nat,
                n: n as nat,
            }),
            Err(Flaw::Truncated) => varint_read_at(bytes@, start as nat, k as nat)
                == VarintRead::Truncated,
            Err(Flaw::Overflow) => varint_read_at(bytes@, start as nat, k as nat)
                == VarintRead::Overflow,
            _ => false,
        },
    decreases bytes@.len() - (start + k),
{
    let len = bytes.len();
    if start + k >= len {
        return Err(Flaw::Truncated);
    }
    let b = bytes[start + k];
    let low = b % 128;
    proof {
        if k < 18 {
            lemma_varint_bound_lower(k as nat);
        }
    }
    if (k == 18 && low >= 4) || (k >= 19 && low >= 1) {
        return Err(Flaw::Overflow);
    }
    assert((low as nat) < varint_bound(k as nat));
    if b < 128 {
        Ok((low as u128, k + 1))
    } else {
        match varint_decode_rest(bytes, start, k + 1) {
            Ok((v, n)) => {
                proof {
                    lemma_varint_read_props(bytes@, start as nat, (k + 1) as nat);
                    lemma_varint_bound_le(k as nat);
                    lemma_varint_accumulate(k as nat, low as nat, v as nat);
                }
                Ok((low as u128 + 128 * v, n))
            },
            Err(f) => Err(f),
        }
    }
}

/// Reads one varint starting at `pos`: its value and the number of bytes it
/// occupies. Fails with `Truncated` when the stream ends first and with
/// `Overflow` when the value would need more than 128 bits.
pub fn varint_decode(bytes: &Vec<u8>, pos: usize) -> (r: Result<(u128, usize), Flaw>)
    requires
        pos <= bytes@.len(),
    ensures
        match r {
            Ok((v, n)) => varint_read_at(bytes@, pos as nat, 0) == (VarintRead::Value {
                v: v as nat,
                n: n as nat,
            }),
            Err(Flaw::Truncated) => varint_read_at(bytes@, pos as nat, 0) == VarintRead::Truncated,
            Err(Flaw::Overflow) => varint_read_at(bytes@, pos as nat, 0) == VarintRead::Overflow,
            _ => false,
        },
{
    varint_decode_rest(bytes, pos, 0)
}

/// Reads the whole remainder of `bytes` from `pos` as a flat sequence of
/// integers.
pub fn decode_integers(bytes: &Vec<u8>, pos: usize) -> (r: Result<Vec<u128>, Flaw>)
    requires
        pos <= bytes@.len(),
    ensures
        match r {
            Ok(vs) => integers_read_from(bytes@, pos as nat) == IntegersRead::Values(vs@),
            Err(Flaw::Truncated) => integers_read_from(bytes@, pos as nat)
                == IntegersRead::Truncated,
            Err(Flaw::Overflow) => integers_read_from(bytes@, pos as nat)
                == IntegersRead::Overflow,
            _ => false,
        },
    decreases bytes@.len() - pos,
{
    if pos >= bytes.len() {
        return Ok(Vec::new());
    }
    match varint_decode_rest(bytes, pos, 0) {
        Err(f) => Err(f),
        Ok((v, n)) => {
            proof {
                lemma_varint_read_props(bytes@, pos as nat, 0);
            }
            match decode_integers(bytes, pos + n) {
                Err(f) => Err(f),
                Ok(mut rest) => {
                    let ghost r0 = rest@;
                    rest.insert(0, v);
                    proof {
                        assert(rest@ == r0.insert(0, v));
                        assert(r0.insert(0, v) =~= seq![v] + r0);
                    }
                    Ok(rest)
                },
            }
        },
    }
}

/// Appends the minimal encoding of `v` to `out`.
pub fn varint_encode_to(v: u128, out: &mut Vec<u8>)
    ensures
        final(out)@ == old(out)@ + varint_encoding(v as nat),
{
    let mut x = v;
    while x >= 128
        invariant
            old(out)@ + varint_encoding(v as nat) == out@ + varint_encoding(x as nat),
        decreases x,
    {
        let b = (x % 128) as u8 + 128;
        assert(varint_encoding(x as nat) == seq![((x as nat) % 128 + 128) as u8] + varint_encoding(
            (x as nat) / 128,
        ));
        out.push(b);
        x = x / 128;
    }
    assert(varint_encoding(x as nat) == seq![x as u8]);
    out.push(x as u8);
}

/// Encodes a sequence of integers back to back.
pub fn encode_integers(vs: &Vec<u128>) -> (r: Vec<u8>)
    ensures
        r@ == integers_encoding(vs@),
{
    let mut out: Vec<u8> = Vec::new();
    let mut i: usize = 0;
    while i < vs.len()
        invariant
            i <= vs@.len(),
            out@ == integers_encoding(vs@.subrange(0, i as int)),
        decreases vs@.len() - i,
    {
        varint_encode_to(vs[i], &mut out);
        proof {
            assert(vs@.subrange(0, i as int).push(vs@[i as int]) =~= vs@.subrange(0, i + 1));
            lemma_integers_encoding_push(vs@.subrange(0, i as int), vs@[i as int]);
        }
        i = i + 1;
    }
    proof {
        assert(vs@.subrange(0, vs@.len() as int) =~= vs@);
    }
    out
}

} // verus!
