//! The codec orchestrator: `decipher` walks from a transaction's output
//! scripts to an artifact — a well-formed operation or a cenotaph — and
//! `encipher` produces the exact payload bytes of an operation.

use vstd::prelude::*;

use crate::edicts::{decode_edicts, edicts_read, ID_BASE};
use crate::etching::{
    assemble_etching, assembled_etching, etching_flaws, is_scalar_value, spacers_fit,
    spacers_fit_check,
};
use crate::model::{Artifact, Cenotaph, Edict, Etching, Flaw, FlawSet, RuneId, Runestone, Terms};
use crate::outside::{hex_decode, transaction_output_scripts, tx_outputs};
use crate::script::{collect_payload, first_marker_index, has_marker, marker_check, payload_from};
use crate::tags::{
    parse_pairs, parse_tag_stream, Fields, TAG_AMOUNT, TAG_BODY, TAG_CAP, TAG_DIVISIBILITY,
    TAG_HEIGHT_END, TAG_HEIGHT_START, TAG_MINT, TAG_OFFSET_END, TAG_OFFSET_START, TAG_POINTER,
    TAG_PREMINE, TAG_RUNE, TAG_SPACERS, TAG_SYMBOL, TAG_TURBO,
};
use crate::varint::{
    decode_integers, encode_integers, integers_encoding, integers_read_from, IntegersRead,
};

verus! {

/// A mint target packed into one integer: the block above bit 32, the
/// index below. `None` when the block part leaves its 64-bit range.
pub open spec fn unpack_id(m: u128) -> Option<RuneId> {
    let b = (m as nat) / (ID_BASE as nat);
    let t = (m as nat) % (ID_BASE as nat);
    if b <= u64::MAX {
        Some(RuneId { block: b as u64, tx: t as u32 })
    } else {
        None
    }
}

/// The packed form of an identifier.
pub open spec fn pack_id(id: RuneId) -> u128 {
    ((id.block as nat) * (ID_BASE as nat) + id.tx) as u128
}

/// Everything one decode determines: the raw fields, the flaw set, and the
/// validated pieces of the operation.
pub ghost struct DecodeOutcome {
    pub fields: Fields,
    pub flaws: FlawSet,
    pub edicts: Seq<Edict>,
    pub etching: Option<Etching>,
    pub mint: Option<RuneId>,
    pub pointer: Option<u32>,
}

/// Decodes a flat integer sequence: tag pairs, then edict runs after the
/// body tag; validates the fields; gathers every flaw.
pub open spec fn decipher_ints(ints: Seq<u128>, n_out: nat, flaws0: FlawSet) -> DecodeOutcome {
    let parsed = parse_pairs(ints, 0, Fields::spec_empty(), flaws0);
    let fs = parsed.0;
    let er = match parsed.2 {
        Some(b) => edicts_read(ints, b, RuneId { block: 0, tx: 0 }, n_out),
        None => (Seq::<Edict>::empty(), None::<Flaw>),
    };
    let fl2 = match er.1 {
        Some(f) => parsed.1.with(f),
        None => parsed.1,
    };
    let fl3 = etching_flaws(fs, fl2);
    let pointer = match fs.pointer {
        Some(p) => if p <= u32::MAX {
            Some(p as u32)
        } else {
            None
        },
        None => None,
    };
    let fl4 = if fs.pointer matches Some(p) && p > u32::MAX {
        fl3.with(Flaw::Overflow)
    } else {
        fl3
    };
    let mint = match fs.mint {
        Some(m) => unpack_id(m),
        None => None,
    };
    let fl5 = if fs.mint matches Some(m) && unpack_id(m) is None {
        fl4.with(Flaw::Overflow)
    } else {
        fl4
    };
    DecodeOutcome {
        fields: fs,
        flaws: fl5,
        edicts: er.0,
        etching: assembled_etching(fs),
        mint,
        pointer,
    }
}

/// Decodes a payload byte buffer, starting from the flaws the script stage
/// already found.
pub open spec fn payload_outcome(payload: Seq<u8>, n_out: nat, flaws0: FlawSet) -> DecodeOutcome {
    match integers_read_from(payload, 0) {
        IntegersRead::Truncated => DecodeOutcome {
            fields: Fields::spec_empty(),
            flaws: flaws0.with(Flaw::Truncated),
            edicts: Seq::<Edict>::empty(),
            etching: None,
            mint: None,
            pointer: None,
        },
        IntegersRead::Overflow => DecodeOutcome {
            fields: Fields::spec_empty(),
            flaws: flaws0.with(Flaw::Overflow),
            edicts: Seq::<Edict>::empty(),
            etching: None,
            mint: None,
            pointer: None,
        },
        IntegersRead::Values(ints) => decipher_ints(ints, n_out, flaws0),
    }
}

/// The cenotaph policy, as a relation between an artifact and a decode
/// outcome: any recorded flaw makes the artifact a cenotaph carrying
/// exactly the flaw set and nothing else — no etching, no edicts, no mint
/// — and a flawless decode yields the operation with every decoded piece.
pub open spec fn artifact_matches(a: Artifact, o: DecodeOutcome) -> bool {
    match a {
        Artifact::Cenotaph(c) => o.flaws.any() && c.flaws == o.flaws,
        Artifact::Runestone(rs) => !o.flaws.any() && rs.edicts@ == o.edicts && rs.etching
            == o.etching && rs.mint == o.mint && rs.pointer == o.pointer,
    }
}

/// The outcome of a whole transaction's output scripts: `None` when no
/// script carries the marker; otherwise the first marked script alone
/// decides, whatever stands in later scripts.
pub open spec fn outputs_outcome(outs: Seq<Seq<u8>>) -> Option<DecodeOutcome> {
    match first_marker_index(outs, 0) {
        None => None::<DecodeOutcome>,
        Some(i) => {
            let pr = payload_from(outs[i as int], 2int);
            let fl0 = if pr.1 {
                FlawSet::spec_empty().with(Flaw::InvalidScript)
            } else {
                FlawSet::spec_empty()
            };
            Some(payload_outcome(pr.0, outs.len(), fl0))
        },
    }
}

/// Executable twin of `unpack_id`.
pub fn unpack_id_checked(m: u128) -> (r: Option<RuneId>)
    ensures
        r == unpack_id(m),
{
    let b = m / ID_BASE;
    if b <= u64::MAX as u128 {
        Some(RuneId { block: b as u64, tx: (m % ID_BASE) as u32 })
    } else {
        None
    }
}

/// Decodes one payload, carrying the flaws found before it.
fn decipher_payload_with(payload: &Vec<u8>, n_out: usize, flaws0: FlawSet) -> (a: Artifact)
    ensures
        artifact_matches(a, payload_outcome(payload@, n_out as nat, flaws0)),
{
    let ints = match decode_integers(payload, 0) {
        Err(f) => {
            let mut fl = flaws0;
            fl.note(f);
            return Artifact::Cenotaph(Cenotaph { flaws: fl });
        },
        Ok(ints) => ints,
    };
    let (fs, fl1, body) = parse_tag_stream(&ints, 0, Fields::empty(), flaws0);
    let (edicts, ef) = match body {
        Some(b) => decode_edicts(&ints, b, RuneId { block: 0, tx: 0 }, n_out),
        None => (Vec::new(), None),
    };
    let mut fl = fl1;
    if let Some(f) = ef {
        fl.note(f);
    }
    let (etching, fl3) = assemble_etching(&fs, fl);
    fl = fl3;
    let pointer = match fs.pointer {
        Some(p) => {
            if p <= u32::MAX as u128 {
                Some(p as u32)
            } else {
                fl.note(Flaw::Overflow);
                None
            }
        },
        None => None,
    };
    let mint = match fs.mint {
        Some(m) => {
            match unpack_id_checked(m) {
                Some(id) => Some(id),
                None => {
                    fl.note(Flaw::Overflow);
                    None
                },
            }
        },
        None => None,
    };
    if fl.has_any() {
        Artifact::Cenotaph(Cenotaph { flaws: fl })
    } else {
        Artifact::Runestone(Runestone { edicts, etching, mint, pointer })
    }
}

/// Decodes one payload against a transaction with `n_out` outputs; no
/// flaws are carried in.
pub fn decipher_payload(payload: &Vec<u8>, n_out: usize) -> (a: Artifact)
    ensures
        artifact_matches(a, payload_outcome(payload@, n_out as nat, FlawSet::spec_empty())),
{
    decipher_payload_with(payload, n_out, FlawSet::empty())
}

/// The deep view of a list of scripts indexes elementwise.
proof fn lemma_scripts_deep_view(outputs: &Vec<Vec<u8>>)
    ensures
        outputs.deep_view().len() == outputs@.len(),
        forall|i: int| 0 <= i < outputs@.len() ==> outputs.deep_view()[i] == outputs@[i]@,
{
    assert forall|i: int| 0 <= i < outputs@.len() implies outputs.deep_view()[i] == outputs@[i]@ by {
        assert(outputs.deep_view()[i] =~= outputs@[i]@);
    }
}

/// Scans the output scripts for the first one carrying the marker,
/// gathers its payload, and decodes it. `None` means no script carries
/// the marker: the transaction holds no operation at all.
pub fn decipher_outputs(outputs: &Vec<Vec<u8>>) -> (r: Option<Artifact>)
    ensures
        match (r, outputs_outcome(outputs.deep_view())) {
            (None::<Artifact>, None::<DecodeOutcome>) => true,
            (Some(a), Some(o)) => artifact_matches(a, o),
            _ => false,
        },
{
    proof {
        lemma_scripts_deep_view(outputs);
    }
    let ghost dv = outputs.deep_view();
    let n = outputs.len();
    let mut i: usize = 0;
    while i < n
        invariant
            i <= n,
            n == outputs@.len(),
            dv == outputs.deep_view(),
            dv.len() == n,
            forall|j: int| 0 <= j < outputs@.len() ==> dv[j] == outputs@[j]@,
            first_marker_index(dv, 0) == first_marker_index(dv, i as nat),
        decreases n - i,
    {
        if marker_check(&outputs[i]) {
            proof {
                assert(first_marker_index(dv, i as nat) == Some(i as nat));
                assert(dv[i as int] == outputs@[i as int]@);
            }
            let script = &outputs[i];
            let mut payload: Vec<u8> = Vec::new();
            let bad = collect_payload(script, 2, &mut payload);
            let mut fl0 = FlawSet::empty();
            if bad {
                fl0.note(Flaw::InvalidScript);
            }
            return Some(decipher_payload_with(&payload, n, fl0));
        }
        i = i + 1;
    }
    None
}

/// Hex digits of a transaction string, as the byte they spell.
pub open spec fn hex_digit(c: char) -> nat {
    if '0' <= c && c <= '9' {
        ((c as int) - ('0' as int)) as nat
    } else if 'a' <= c && c <= 'f' {
        ((c as int) - ('a' as int) + 10) as nat
    } else if 'A' <= c && c <= 'F' {
        ((c as int) - ('A' as int) + 10) as nat
    } else {
        0
    }
}

pub open spec fn is_hex_digit(c: char) -> bool {
    ('0' <= c && c <= '9') || ('a' <= c && c <= 'f') || ('A' <= c && c <= 'F')
}

/// Whether a string is a well-formed hex spelling of bytes.
pub open spec fn valid_hex(s: Seq<char>) -> bool {
    s.len() % 2 == 0 && (forall|i: int| 0 <= i < s.len() ==> is_hex_digit(#[trigger] s[i]))
}

/// The bytes a hex string spells, two digits each.
pub open spec fn hex_bytes(s: Seq<char>) -> Seq<u8>
    decreases s.len(),
{
    if s.len() < 2 {
        Seq::<u8>::empty()
    } else {
        seq![(hex_digit(s[0]) * 16 + hex_digit(s[1])) as u8] + hex_bytes(
            s.subrange(2, s.len() as int),
        )
    }
}

/// Finds and decodes the operation of a serialized transaction, given as
/// a hex string. `None` exactly when the string is not hex, the bytes are
/// not a transaction, or no output script carries the marker; otherwise
/// the artifact is exactly what the transaction's output scripts decode
/// to.
pub fn decipher(transaction: &str) -> (r: Option<Artifact>)
    ensures
        !valid_hex(transaction@) ==> r is None,
        valid_hex(transaction@) ==> (match tx_outputs(hex_bytes(transaction@)) {
            None => r is None,
            Some(outs) => (match (r, outputs_outcome(outs)) {
                (None::<Artifact>, None::<DecodeOutcome>) => true,
                (Some(a), Some(o)) => artifact_matches(a, o),
                _ => false,
            }),
        }),
{
    let bytes = match hex_decode(transaction) {
        Some(b) => b,
        None => {
            return None;
        },
    };
    let scripts = match transaction_output_scripts(&bytes) {
        Some(s) => s,
        None => {
            return None;
        },
    };
    decipher_outputs(&scripts)
}

// ---------------------------------------------------------------------
// Encoding
// ---------------------------------------------------------------------

/// A (tag, value) pair for a present field, nothing for an absent one.
pub open spec fn pair128(t: u128, o: Option<u128>) -> Seq<u128> {
    match o {
        Some(v) => seq![t, v],
        None => Seq::<u128>::empty(),
    }
}

pub open spec fn pair64(t: u128, o: Option<u64>) -> Seq<u128> {
    match o {
        Some(v) => seq![t, v as u128],
        None => Seq::<u128>::empty(),
    }
}

pub open spec fn pair32(t: u128, o: Option<u32>) -> Seq<u128> {
    match o {
        Some(v) => seq![t, v as u128],
        None => Seq::<u128>::empty(),
    }
}

pub open spec fn pair8(t: u128, o: Option<u8>) -> Seq<u128> {
    match o {
        Some(v) => seq![t, v as u128],
        None => Seq::<u128>::empty(),
    }
}

/// The minting-terms subfields, in their fixed order.
pub open spec fn terms_ints(t: Option<Terms>) -> Seq<u128> {
    match t {
        None => Seq::<u128>::empty(),
        Some(t) => pair128(TAG_CAP, t.cap) + (pair128(TAG_AMOUNT, t.amount) + (pair64(
            TAG_HEIGHT_START,
            t.height.start,
        ) + (pair64(TAG_HEIGHT_END, t.height.end) + (pair64(TAG_OFFSET_START, t.offset.start)
            + pair64(TAG_OFFSET_END, t.offset.end))))),
    }
}

/// The etching fields, in their fixed order.
pub open spec fn etching_ints(e: Option<Etching>) -> Seq<u128> {
    match e {
        None => Seq::<u128>::empty(),
        Some(et) => pair8(TAG_DIVISIBILITY, et.divisibility) + (pair128(TAG_PREMINE, et.premine)
            + (pair128(TAG_RUNE, et.rune) + (pair32(TAG_SPACERS, et.spacers) + (pair32(
            TAG_SYMBOL,
            et.symbol,
        ) + (terms_ints(et.terms) + (if et.turbo {
            seq![TAG_TURBO, 1u128]
        } else {
            Seq::<u128>::empty()
        })))))),
    }
}

/// The edict runs: deltas against the previous identifier, an amount and
/// an output index each. Meaningful under ascending identifiers, which
/// the encoder establishes by sorting.
pub open spec fn edicts_ints(es: Seq<Edict>, prev: RuneId) -> Seq<u128>
    decreases es.len(),
{
    if es.len() == 0 {
        Seq::<u128>::empty()
    } else {
        let e = es[0];
        let d: int = if e.id.block == prev.block {
            e.id.tx - prev.tx
        } else {
            (e.id.block - prev.block) * (ID_BASE as int) + e.id.tx
        };
        seq![d as u128, e.amount, e.output as u128] + edicts_ints(
            es.subrange(1, es.len() as int),
            e.id,
        )
    }
}

/// The mint reference as a tag pair.
pub open spec fn mint_ints(mint: Option<RuneId>) -> Seq<u128> {
    match mint {
        Some(id) => seq![TAG_MINT, pack_id(id)],
        None => Seq::<u128>::empty(),
    }
}

/// The body tag and the edict runs; nothing when there are no edicts, so
/// that no stray trailing tag is emitted.
pub open spec fn body_ints(edicts: Seq<Edict>) -> Seq<u128> {
    if edicts.len() == 0 {
        Seq::<u128>::empty()
    } else {
        seq![TAG_BODY] + edicts_ints(edicts, RuneId { block: 0, tx: 0 })
    }
}

/// The whole integer message of an operation: etching fields, pointer,
/// mint, then the body tag and the edict runs.
pub open spec fn runestone_ints(
    etching: Option<Etching>,
    pointer: Option<u32>,
    mint: Option<RuneId>,
    edicts: Seq<Edict>,
) -> Seq<u128> {
    etching_ints(etching) + (pair32(TAG_POINTER, pointer) + (mint_ints(mint) + body_ints(edicts)))
}

/// Strict ascending order on identifiers.
pub open spec fn id_lt(a: RuneId, b: RuneId) -> bool {
    a.block < b.block || (a.block == b.block && a.tx < b.tx)
}

/// Stable insertion into an already sorted run: `e` goes before the first
/// element it is not greater than.
pub open spec fn insert_edict(e: Edict, s: Seq<Edict>) -> Seq<Edict>
    decreases s.len(),
{
    if s.len() == 0 {
        seq![e]
    } else if id_lt(s[0].id, e.id) {
        seq![s[0]] + insert_edict(e, s.subrange(1, s.len() as int))
    } else {
        seq![e] + s
    }
}

/// Insertion sort by ascending identifier, stable for equal identifiers.
pub open spec fn sort_edicts(s: Seq<Edict>) -> Seq<Edict>
    decreases s.len(),
{
    if s.len() == 0 {
        Seq::<Edict>::empty()
    } else {
        insert_edict(s[0], sort_edicts(s.subrange(1, s.len() as int)))
    }
}

/// Neighbours of a sorted run ascend.
pub open spec fn edicts_sorted(s: Seq<Edict>) -> bool {
    forall|i: int| 0 <= i < s.len() - 1 ==> #[trigger] s[i].id.le(s[i + 1].id)
}

/// The error `encipher` returns, if any: the first data-model invariant
/// its etching breaks, in the order divisibility, symbol, spacers, supply.
pub open spec fn encode_error(etching: Option<Etching>) -> Option<Flaw> {
    match etching {
        None => None::<Flaw>,
        Some(et) => {
            if et.divisibility matches Some(d) && d > 38 {
                Some(Flaw::InvalidDivisibility)
            } else if et.symbol matches Some(sy) && !is_scalar_value(sy as nat) {
                Some(Flaw::InvalidSymbol)
            } else if (match et.spacers {
                Some(sp) => match et.rune {
                    Some(r) => !spacers_fit(r as nat, sp as nat),
                    None => true,
                },
                None => false,
            }) {
                Some(Flaw::InvalidSpacers)
            } else if supply_overflows(et) {
                Some(Flaw::SupplyOverflow)
            } else {
                None::<Flaw>
            }
        },
    }
}

/// Whether premine plus cap times amount exceeds 128 bits.
pub open spec fn supply_overflows(et: Etching) -> bool {
    let premine = match et.premine {
        Some(p) => p as nat,
        None => 0,
    };
    let terms = match et.terms {
        Some(t) => t,
        None => Terms {
            amount: None,
            cap: None,
            height: crate::model::BlockRange { start: None, end: None },
            offset: crate::model::BlockRange { start: None, end: None },
        },
    };
    let cap = match terms.cap {
        Some(c) => c as nat,
        None => 0,
    };
    let amount = match terms.amount {
        Some(a) => a as nat,
        None => 0,
    };
    premine + cap * amount > u128::MAX
}

/// Appends a (tag, value) pair when the value is present.
fn push_pair128(msg: &mut Vec<u128>, t: u128, o: Option<u128>)
    ensures
        final(msg)@ == old(msg)@ + pair128(t, o),
{
    match o {
        Some(v) => {
            msg.push(t);
            msg.push(v);
            proof {
                assert(msg@ =~= old(msg)@ + seq![t, v]);
            }
        },
        None => {
            proof {
                assert(msg@ =~= old(msg)@ + Seq::<u128>::empty());
            }
        },
    }
}

fn push_pair64(msg: &mut Vec<u128>, t: u128, o: Option<u64>)
    ensures
        final(msg)@ == old(msg)@ + pair64(t, o),
{
    match o {
        Some(v) => {
            msg.push(t);
            msg.push(v as u128);
            proof {
                assert(msg@ =~= old(msg)@ + seq![t, v as u128]);
            }
        },
        None => {
            proof {
                assert(msg@ =~= old(msg)@ + Seq::<u128>::empty());
            }
        },
    }
}

fn push_pair32(msg: &mut Vec<u128>, t: u128, o: Option<u32>)
    ensures
        final(msg)@ == old(msg)@ + pair32(t, o),
{
    match o {
        Some(v) => {
            msg.push(t);
            msg.push(v as u128);
            proof {
                assert(msg@ =~= old(msg)@ + seq![t, v as u128]);
            }
        },
        None => {
            proof {
                assert(msg@ =~= old(msg)@ + Seq::<u128>::empty());
            }
        },
    }
}

fn push_pair8(msg: &mut Vec<u128>, t: u128, o: Option<u8>)
    ensures
        final(msg)@ == old(msg)@ + pair8(t, o),
{
    match o {
        Some(v) => {
            msg.push(t);
            msg.push(v as u128);
            proof {
                assert(msg@ =~= old(msg)@ + seq![t, v as u128]);
            }
        },
        None => {
            proof {
                assert(msg@ =~= old(msg)@ + Seq::<u128>::empty());
            }
        },
    }
}

/// Executable twin of `insert_edict`, inserting into the run from `i` on.
fn insert_sorted_from(e: Edict, v: &Vec<Edict>, i: usize) -> (r: Vec<Edict>)
    requires
        i <= v@.len(),
    ensures
        r@ == insert_edict(e, v@.subrange(i as int, v@.len() as int)),
    decreases v@.len() - i,
{
    let len = v.len();
    if i >= len {
        let mut r: Vec<Edict> = Vec::new();
        r.push(e);
        proof {
            assert(v@.subrange(i as int, v@.len() as int) =~= Seq::<Edict>::empty());
            assert(r@ =~= seq![e]);
        }
        r
    } else {
        let head = v[i];
        let strictly_less = head.id.block < e.id.block || (head.id.block == e.id.block && head.id.tx
            < e.id.tx);
        proof {
            assert(v@.subrange(i as int, v@.len() as int)[0] == v@[i as int]);
        }
        if strictly_less {
            let mut rest = insert_sorted_from(e, v, i + 1);
            let ghost r0 = rest@;
            rest.insert(0, head);
            proof {
                assert(v@.subrange(i as int, v@.len() as int).subrange(
                    1,
                    v@.subrange(i as int, v@.len() as int).len() as int,
                ) =~= v@.subrange(i + 1, v@.len() as int));
                assert(rest@ == r0.insert(0, head));
                assert(r0.insert(0, head) =~= seq![head] + r0);
            }
            rest
        } else {
            let mut r: Vec<Edict> = Vec::new();
            r.push(e);
            let mut j: usize = i;
            while j < len
                invariant
                    i <= j <= len,
                    len == v@.len(),
                    r@ == seq![e] + v@.subrange(i as int, j as int),
                decreases len - j,
            {
                r.push(v[j]);
                proof {
                    assert(seq![e] + v@.subrange(i as int, j + 1) =~= (seq![e] + v@.subrange(
                        i as int,
                        j as int,
                    )).push(v@[j as int]));
                }
                j = j + 1;
            }
            proof {
                assert(r@ =~= seq![e] + v@.subrange(i as int, v@.len() as int));
            }
            r
        }
    }
}

/// Sorts the edicts by ascending identifier; equal identifiers keep their
/// given order.
fn sorted_edicts(v: &Vec<Edict>) -> (r: Vec<Edict>)
    ensures
        r@ == sort_edicts(v@),
    decreases v@.len(),
{
    let len = v.len();
    let mut acc: Vec<Edict> = Vec::new();
    let mut i: usize = len;
    proof {
        assert(v@.subrange(len as int, len as int) =~= Seq::<Edict>::empty());
    }
    while i > 0
        invariant
            i <= len,
            len == v@.len(),
            acc@ == sort_edicts(v@.subrange(i as int, len as int)),
        decreases i,
    {
        i = i - 1;
        let next = insert_sorted_from(v[i], &acc, 0);
        proof {
            let sub = v@.subrange(i as int, len as int);
            assert(sub[0] == v@[i as int]);
            assert(sub.subrange(1, sub.len() as int) =~= v@.subrange(i + 1, len as int));
            assert(acc@.subrange(0, acc@.len() as int) =~= acc@);
        }
        acc = next;
    }
    proof {
        assert(v@.subrange(0, len as int) =~= v@);
    }
    acc
}

/// Inserting keeps a run sorted, and the new head is the smaller of the
/// inserted element and the old head.
proof fn lemma_insert_sorted(e: Edict, s: Seq<Edict>)
    requires
        edicts_sorted(s),
    ensures
        edicts_sorted(insert_edict(e, s)),
        insert_edict(e, s).len() == s.len() + 1,
        insert_edict(e, s)[0] == (if s.len() > 0 && id_lt(s[0].id, e.id) {
            s[0]
        } else {
            e
        }),
    decreases s.len(),
{
    if s.len() == 0 {
    } else {
        let tail = s.subrange(1, s.len() as int);
        assert forall|i: int| 0 <= i < tail.len() - 1 implies #[trigger] tail[i].id.le(
            tail[i + 1].id,
        ) by {
            assert(tail[i] == s[i + 1]);
            assert(tail[i + 1] == s[i + 2]);
            assert(s[i + 1].id.le(s[i + 2].id));
        }
        assert(edicts_sorted(tail));
        if id_lt(s[0].id, e.id) {
            lemma_insert_sorted(e, tail);
            let r = seq![s[0]] + insert_edict(e, tail);
            assert forall|i: int| 0 <= i < r.len() - 1 implies #[trigger] r[i].id.le(r[i + 1].id) by {
                if i == 0 {
                    if tail.len() > 0 && id_lt(tail[0].id, e.id) {
                        assert(r[1] == tail[0]);
                        assert(s[0].id.le(s[1].id));
                    } else {
                        assert(r[1] == e);
                    }
                } else {
                    assert(r[i] == insert_edict(e, tail)[i - 1]);
                    assert(r[i + 1] == insert_edict(e, tail)[i]);
                    assert(insert_edict(e, tail)[i - 1].id.le(insert_edict(e, tail)[i - 1 + 1].id));
                }
            }
        } else {
            let r = seq![e] + s;
            assert forall|i: int| 0 <= i < r.len() - 1 implies #[trigger] r[i].id.le(r[i + 1].id) by {
                if i == 0 {
                    assert(r[0] == e && r[1] == s[0]);
                } else {
                    assert(r[i] == s[i - 1] && r[i + 1] == s[i]);
                    assert(s[i - 1].id.le(s[i - 1 + 1].id));
                }
            }
        }
    }
}

/// Whatever stands in an insertion came from the inserted element or the
/// run it went into.
proof fn lemma_insert_contains(e: Edict, s: Seq<Edict>)
    ensures
        forall|j: int|
            0 <= j < insert_edict(e, s).len() ==> (#[trigger] insert_edict(e, s)[j]) == e
                || s.contains(insert_edict(e, s)[j]),
    decreases s.len(),
{
    if s.len() == 0 {
    } else if id_lt(s[0].id, e.id) {
        let tail = s.subrange(1, s.len() as int);
        lemma_insert_contains(e, tail);
        let r = seq![s[0]] + insert_edict(e, tail);
        assert forall|j: int|
            0 <= j < r.len() implies (#[trigger] r[j]) == e || s.contains(r[j]) by {
            if j == 0 {
                assert(s.contains(s[0]));
            } else {
                assert(r[j] == insert_edict(e, tail)[j - 1]);
                if insert_edict(e, tail)[j - 1] != e {
                    assert(tail.contains(insert_edict(e, tail)[j - 1]));
                    let k = choose|k: int|
                        0 <= k < tail.len() && tail[k] == insert_edict(e, tail)[j - 1];
                    assert(s[k + 1] == tail[k]);
                    assert(s.contains(s[k + 1]));
                }
            }
        }
    } else {
        let r = seq![e] + s;
        assert forall|j: int|
            0 <= j < r.len() implies (#[trigger] r[j]) == e || s.contains(r[j]) by {
            if j > 0 {
                assert(r[j] == s[j - 1]);
                assert(s.contains(s[j - 1]));
            }
        }
    }
}

/// Every edict the sorter hands back stood in its input.
pub proof fn lemma_sort_contains(s: Seq<Edict>)
    ensures
        forall|j: int|
            0 <= j < sort_edicts(s).len() ==> s.contains(#[trigger] sort_edicts(s)[j]),
    decreases s.len(),
{
    if s.len() > 0 {
        let tail = s.subrange(1, s.len() as int);
        lemma_sort_contains(tail);
        lemma_insert_contains(s[0], sort_edicts(tail));
        assert forall|j: int|
            0 <= j < sort_edicts(s).len() implies s.contains(#[trigger] sort_edicts(s)[j]) by {
            let x = sort_edicts(s)[j];
            if x == s[0] {
                assert(s.contains(s[0]));
            } else {
                assert(sort_edicts(tail).contains(x));
                let k = choose|k: int| 0 <= k < sort_edicts(tail).len() && sort_edicts(tail)[k] == x;
                assert(tail.contains(sort_edicts(tail)[k]));
                let k2 = choose|k2: int| 0 <= k2 < tail.len() && tail[k2] == x;
                assert(s[k2 + 1] == tail[k2]);
                assert(s.contains(s[k2 + 1]));
            }
        }
    }
}

/// What the sorter returns is sorted.
pub proof fn lemma_sort_edicts_sorted(s: Seq<Edict>)
    ensures
        edicts_sorted(sort_edicts(s)),
        sort_edicts(s).len() == s.len(),
    decreases s.len(),
{
    if s.len() == 0 {
    } else {
        lemma_sort_edicts_sorted(s.subrange(1, s.len() as int));
        lemma_insert_sorted(s[0], sort_edicts(s.subrange(1, s.len() as int)));
    }
}

/// Checks the etching against the data-model invariants, in the order
/// divisibility, symbol, spacers, supply.
fn etching_error(etching: &Option<Etching>) -> (r: Option<Flaw>)
    ensures
        r == encode_error(*etching),
{
    if let Some(et) = etching {
        if let Some(d) = et.divisibility {
            if d > 38 {
                return Some(Flaw::InvalidDivisibility);
            }
        }
        if let Some(sy) = et.symbol {
            if !(sy < 0xD800 || (0xE000 <= sy && sy <= 0x10FFFF)) {
                return Some(Flaw::InvalidSymbol);
            }
        }
        if let Some(sp) = et.spacers {
            let ok = match et.rune {
                Some(r) => spacers_fit_check(r, sp),
                None => false,
            };
            if !ok {
                return Some(Flaw::InvalidSpacers);
            }
        }
        let premine = match et.premine {
            Some(p) => p,
            None => 0,
        };
        let (cap, amount) = match &et.terms {
            Some(t) => (
                match t.cap {
                    Some(c) => c,
                    None => 0,
                },
                match t.amount {
                    Some(a) => a,
                    None => 0,
                },
            ),
            None => (0, 0),
        };
        let supply_ok = match cap.checked_mul(amount) {
            None => false,
            Some(minted) => premine.checked_add(minted).is_some(),
        };
        if !supply_ok {
            return Some(Flaw::SupplyOverflow);
        }
    }
    None
}

/// Appends the minting-terms subfields in their fixed tag order.
#[verifier::rlimit(50)]
fn push_terms(msg: &mut Vec<u128>, terms: &Option<Terms>)
    ensures
        final(msg)@ == old(msg)@ + terms_ints(*terms),
{
    if let Some(t) = terms {
        push_pair128(msg, TAG_CAP, t.cap);
        push_pair128(msg, TAG_AMOUNT, t.amount);
        push_pair64(msg, TAG_HEIGHT_START, t.height.start);
        push_pair64(msg, TAG_HEIGHT_END, t.height.end);
        push_pair64(msg, TAG_OFFSET_START, t.offset.start);
        push_pair64(msg, TAG_OFFSET_END, t.offset.end);
        proof {
            assert(msg@ =~= old(msg)@ + terms_ints(*terms));
        }
    } else {
        proof {
            assert(msg@ =~= old(msg)@ + Seq::<u128>::empty());
        }
    }
}

/// Appends the etching fields in their fixed tag order.
#[verifier::rlimit(100)]
fn push_etching(msg: &mut Vec<u128>, etching: &Option<Etching>)
    ensures
        final(msg)@ == old(msg)@ + etching_ints(*etching),
{
    if let Some(et) = etching {
        push_pair8(msg, TAG_DIVISIBILITY, et.divisibility);
        push_pair128(msg, TAG_PREMINE, et.premine);
        push_pair128(msg, TAG_RUNE, et.rune);
        push_pair32(msg, TAG_SPACERS, et.spacers);
        push_pair32(msg, TAG_SYMBOL, et.symbol);
        push_terms(msg, &et.terms);
        if et.turbo {
            let ghost m1 = msg@;
            msg.push(TAG_TURBO);
            msg.push(1u128);
            proof {
                assert(msg@ =~= m1 + seq![TAG_TURBO, 1u128]);
            }
        }
        proof {
            assert(msg@ =~= old(msg)@ + etching_ints(*etching));
        }
    } else {
        proof {
            assert(msg@ =~= old(msg)@ + Seq::<u128>::empty());
        }
    }
}

/// Appends the mint reference, packed into one integer.
fn push_mint(msg: &mut Vec<u128>, mint: &Option<RuneId>)
    ensures
        final(msg)@ == old(msg)@ + mint_ints(*mint),
{
    if let Some(id) = mint {
        msg.push(TAG_MINT);
        let packed = (id.block as u128) * ID_BASE + (id.tx as u128);
        proof {
            assert(packed == pack_id(*id));
        }
        msg.push(packed);
        proof {
            assert(msg@ =~= old(msg)@ + seq![TAG_MINT, pack_id(*id)]);
        }
    } else {
        proof {
            assert(msg@ =~= old(msg)@ + Seq::<u128>::empty());
        }
    }
}

/// Appends the body tag and the delta-encoded edict runs.
fn push_body(msg: &mut Vec<u128>, sorted: &Vec<Edict>)
    requires
        edicts_sorted(sorted@),
    ensures
        final(msg)@ == old(msg)@ + body_ints(sorted@),
{
    if sorted.len() == 0 {
        proof {
            assert(msg@ =~= old(msg)@ + Seq::<u128>::empty());
        }
        return ;
    }
    msg.push(TAG_BODY);
    let ghost base2 = old(msg)@ + seq![TAG_BODY];
    proof {
        assert(msg@ =~= base2);
        assert(sorted@.subrange(0, sorted@.len() as int) =~= sorted@);
    }
    let mut prev = RuneId { block: 0, tx: 0 };
    let mut i: usize = 0;
    while i < sorted.len()
        invariant
            i <= sorted@.len(),
            edicts_sorted(sorted@),
            i == 0 ==> prev == (RuneId { block: 0, tx: 0 }),
            i > 0 ==> prev == sorted@[i - 1].id,
            msg@ + edicts_ints(sorted@.subrange(i as int, sorted@.len() as int), prev) == base2
                + edicts_ints(sorted@, RuneId { block: 0, tx: 0 }),
        decreases sorted@.len() - i,
    {
        let e = sorted[i];
        proof {
            if i > 0 {
                assert(sorted@[i - 1].id.le(sorted@[i - 1 + 1].id));
                assert(prev.le(e.id));
            }
            let sub = sorted@.subrange(i as int, sorted@.len() as int);
            assert(sub[0] == sorted@[i as int]);
            assert(sub.subrange(1, sub.len() as int) =~= sorted@.subrange(
                i + 1,
                sorted@.len() as int,
            ));
        }
        let ghost m0 = msg@;
        let d: u128 = if e.id.block == prev.block {
            (e.id.tx - prev.tx) as u128
        } else {
            ((e.id.block - prev.block) as u128) * ID_BASE + (e.id.tx as u128)
        };
        msg.push(d);
        msg.push(e.amount);
        msg.push(e.output as u128);
        proof {
            let sub = sorted@.subrange(i as int, sorted@.len() as int);
            let tail = edicts_ints(sorted@.subrange(i + 1, sorted@.len() as int), e.id);
            let dd: int = if e.id.block == prev.block {
                e.id.tx - prev.tx
            } else {
                (e.id.block - prev.block) * (ID_BASE as int) + e.id.tx
            };
            assert(d == dd as u128);
            assert(edicts_ints(sub, prev) == seq![dd as u128, e.amount, e.output as u128] + tail);
            assert(msg@ =~= m0 + seq![d, e.amount, e.output as u128]);
            assert((m0 + seq![d, e.amount, e.output as u128]) + tail =~= m0 + (seq![
                d,
                e.amount,
                e.output as u128,
            ] + tail));
        }
        prev = e.id;
        i = i + 1;
    }
    proof {
        assert(sorted@.subrange(sorted@.len() as int, sorted@.len() as int)
            =~= Seq::<Edict>::empty());
        assert(edicts_ints(sorted@.subrange(sorted@.len() as int, sorted@.len() as int), prev)
            == Seq::<u128>::empty());
        assert(msg@ =~= msg@ + Seq::<u128>::empty());
        assert(msg@ =~= old(msg)@ + body_ints(sorted@));
    }
}

/// Serializes an operation to its payload bytes: the etching fields,
/// pointer and mint in fixed tag order, then the body tag and the edicts
/// sorted by ascending identifier, all as varints. Fails, producing no
/// bytes, exactly when a field violates a data-model invariant.
pub fn encipher(data: &Runestone) -> (r: Result<Vec<u8>, Flaw>)
    ensures
        match r {
            Err(f) => encode_error(data.etching) == Some(f),
            Ok(bytes) => encode_error(data.etching) is None && bytes@ == integers_encoding(
                runestone_ints(data.etching, data.pointer, data.mint, sort_edicts(data.edicts@)),
            ),
        },
{
    if let Some(f) = etching_error(&data.etching) {
        return Err(f);
    }
    let sorted = sorted_edicts(&data.edicts);
    proof {
        lemma_sort_edicts_sorted(data.edicts@);
    }
    let mut msg: Vec<u128> = Vec::new();
    push_etching(&mut msg, &data.etching);
    push_pair32(&mut msg, TAG_POINTER, data.pointer);
    push_mint(&mut msg, &data.mint);
    push_body(&mut msg, &sorted);
    proof {
        assert(msg@ =~= runestone_ints(
            data.etching,
            data.pointer,
            data.mint,
            sort_edicts(data.edicts@),
        ));
    }
    Ok(encode_integers(&msg))
}

} // verus!
