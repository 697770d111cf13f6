//! The laws of the codec: encoding then decoding reproduces an operation
//! (modulo the encoder's sort of the edicts), re-encoding the decoded
//! operation is byte-identical, a flawed decode is always a cenotaph that
//! surfaces nothing, and only the first marked script ever decides.

use vstd::prelude::*;

use crate::codec::{
    artifact_matches, body_ints, decipher_ints, edicts_ints, etching_ints, mint_ints,
    outputs_outcome, pack_id, pair128, pair32, pair8, pair64, payload_outcome, runestone_ints,
    sort_edicts, terms_ints, unpack_id, DecodeOutcome,
};
use crate::edicts::{delta_id, edicts_read, ID_BASE};
use crate::etching::{
    assembled_etching, etching_attempted, etching_flaws, is_scalar_value, spacers_fit,
};
use crate::model::{Artifact, Edict, Etching, Flaw, FlawSet, RuneId, Terms};
use crate::script::first_marker_index;
use crate::tags::{
    parse_pairs, Fields, TAG_AMOUNT, TAG_BODY, TAG_CAP, TAG_DIVISIBILITY, TAG_HEIGHT_END,
    TAG_HEIGHT_START, TAG_MINT, TAG_OFFSET_END, TAG_OFFSET_START, TAG_POINTER, TAG_PREMINE,
    TAG_RUNE, TAG_SPACERS, TAG_SYMBOL, TAG_TURBO,
};
use crate::varint::{integers_encoding, integers_read_from, lemma_integers_read_cut,
    lemma_integers_read_encoding, varint_encoding, IntegersRead};

verus! {

/// The data-model invariants of an etching, together with the two shapes
/// the grammar cannot carry: terms with neither cap nor amount, and an
/// etching with no field at all. Encoding such degenerate shapes loses
/// them, so the round-trip law leaves them out.
pub open spec fn wf_etching(etching: Option<Etching>) -> bool {
    match etching {
        None => true,
        Some(et) => (match et.divisibility {
            Some(d) => d <= 38,
            None => true,
        }) && (match et.symbol {
            Some(sy) => is_scalar_value(sy as nat),
            None => true,
        }) && (match et.spacers {
            Some(sp) => match et.rune {
                Some(r) => spacers_fit(r as nat, sp as nat),
                None => false,
            },
            None => true,
        }) && !crate::codec::supply_overflows(et) && (match et.terms {
            Some(t) => t.cap is Some || t.amount is Some,
            None => true,
        }) && (et.divisibility is Some || et.premine is Some || et.rune is Some
            || et.spacers is Some || et.symbol is Some || et.terms is Some || et.turbo),
    }
}

/// The raw field values that decoding an encoded operation collects.
pub open spec fn expected_fields(
    etching: Option<Etching>,
    pointer: Option<u32>,
    mint: Option<RuneId>,
) -> Fields {
    Fields {
        divisibility: match etching {
            Some(et) => match et.divisibility {
                Some(d) => Some(d as u128),
                None => None,
            },
            None => None,
        },
        premine: match etching {
            Some(et) => et.premine,
            None => None,
        },
        rune: match etching {
            Some(et) => et.rune,
            None => None,
        },
        spacers: match etching {
            Some(et) => match et.spacers {
                Some(s) => Some(s as u128),
                None => None,
            },
            None => None,
        },
        symbol: match etching {
            Some(et) => match et.symbol {
                Some(s) => Some(s as u128),
                None => None,
            },
            None => None,
        },
        cap: match etching {
            Some(et) => match et.terms {
                Some(t) => t.cap,
                None => None,
            },
            None => None,
        },
        amount: match etching {
            Some(et) => match et.terms {
                Some(t) => t.amount,
                None => None,
            },
            None => None,
        },
        height_start: match etching {
            Some(et) => match et.terms {
                Some(t) => match t.height.start {
                    Some(v) => Some(v as u128),
                    None => None,
                },
                None => None,
            },
            None => None,
        },
        height_end: match etching {
            Some(et) => match et.terms {
                Some(t) => match t.height.end {
                    Some(v) => Some(v as u128),
                    None => None,
                },
                None => None,
            },
            None => None,
        },
        offset_start: match etching {
            Some(et) => match et.terms {
                Some(t) => match t.offset.start {
                    Some(v) => Some(v as u128),
                    None => None,
                },
                None => None,
            },
            None => None,
        },
        offset_end: match etching {
            Some(et) => match et.terms {
                Some(t) => match t.offset.end {
                    Some(v) => Some(v as u128),
                    None => None,
                },
                None => None,
            },
            None => None,
        },
        turbo: match etching {
            Some(et) => if et.turbo {
                Some(1u128)
            } else {
                None
            },
            None => None,
        },
        pointer: match pointer {
            Some(p) => Some(p as u128),
            None => None,
        },
        mint: match mint {
            Some(id) => Some(pack_id(id)),
            None => None,
        },
    }
}

/// One recognized even tag pair moves the parse two integers on and folds
/// the pair into the fields; an absent field moves nothing.
proof fn lemma_parse_chunk(
    msg: Seq<u128>,
    i: nat,
    fs: Fields,
    fl: FlawSet,
    t: u128,
    o: Option<u128>,
    rest2: Seq<u128>,
)
    requires
        t % 2 == 0,
        i <= msg.len(),
        msg.subrange(i as int, msg.len() as int) == pair128(t, o) + rest2,
    ensures
        ({
            let n = (i + pair128(t, o).len()) as nat;
            let fs2 = match o {
                Some(v) => fs.record(t, v),
                None => fs,
            };
            parse_pairs(msg, i, fs, fl) == parse_pairs(msg, n, fs2, fl) && n <= msg.len()
                && msg.subrange(n as int, msg.len() as int) == rest2
        }),
{
    let sub = msg.subrange(i as int, msg.len() as int);
    match o {
        None => {
            assert(pair128(t, o) + rest2 =~= rest2);
        },
        Some(v) => {
            assert(sub.len() == 2 + rest2.len());
            assert(msg[i as int] == sub[0]);
            assert(sub[0] == t);
            assert(msg[i as int + 1] == sub[1]);
            assert(sub[1] == v);
            assert(msg.subrange(i as int + 2, msg.len() as int) =~= rest2) by {
                assert forall|k: int|
                    0 <= k < rest2.len() implies msg.subrange(i as int + 2, msg.len() as int)[k]
                    == rest2[k] by {
                    assert(msg.subrange(i as int + 2, msg.len() as int)[k] == msg[i as int + 2 + k]);
                    assert(msg[i as int + 2 + k] == sub[2 + k]);
                    assert(sub[2 + k] == rest2[k]);
                }
            }
        },
    }
}

/// The edict runs take exactly three integers per edict.
proof fn lemma_edicts_ints_len(es: Seq<Edict>, prev: RuneId)
    ensures
        edicts_ints(es, prev).len() == 3 * es.len(),
    decreases es.len(),
{
    if es.len() > 0 {
        lemma_edicts_ints_len(es.subrange(1, es.len() as int), es[0].id);
    }
}

/// The step facts both edict-run proofs lean on: under ascending
/// identifiers the packed delta of the next edict fits 128 bits and
/// applies back to exactly that identifier, and the run past the first
/// edict is still sorted, still within the outputs, and led by it.
proof fn lemma_edict_step(es: Seq<Edict>, prev: RuneId, n_out: nat)
    requires
        es.len() > 0,
        prev.le(es[0].id),
        crate::codec::edicts_sorted(es),
        forall|j: int| 0 <= j < es.len() ==> (#[trigger] es[j]).output <= n_out,
    ensures
        ({
            let e = es[0];
            let tail = es.subrange(1, es.len() as int);
            let dd: int = if e.id.block == prev.block {
                e.id.tx - prev.tx
            } else {
                (e.id.block - prev.block) * (ID_BASE as int) + e.id.tx
            };
            0 <= dd < 0x100000000000000000000000000000000 && delta_id(prev, dd as u128) == Some(
                e.id,
            ) && crate::codec::edicts_sorted(tail) && (tail.len() > 0 ==> e.id.le(tail[0].id)) && (
            forall|j: int| 0 <= j < tail.len() ==> (#[trigger] tail[j]).output <= n_out)
        }),
{
    let e = es[0];
    let tail = es.subrange(1, es.len() as int);
    let dd: int = if e.id.block == prev.block {
        e.id.tx - prev.tx
    } else {
        (e.id.block - prev.block) * (ID_BASE as int) + e.id.tx
    };
    assert(0 <= dd < 0x100000000000000000000000000000000) by {
        if e.id.block != prev.block {
            assert(e.id.block - prev.block <= u64::MAX);
            assert((e.id.block - prev.block) * (ID_BASE as int) <= u64::MAX * (ID_BASE as int))
                by (nonlinear_arith)
                requires 0 <= e.id.block - prev.block <= u64::MAX;
        }
    }
    let d = dd as u128;
    assert(delta_id(prev, d) == Some(e.id)) by {
        if e.id.block == prev.block {
            assert((d as nat) < (ID_BASE as nat));
            assert((d as nat) / (ID_BASE as nat) == 0);
            assert((d as nat) % (ID_BASE as nat) == d as nat);
        } else {
            let bd: int = e.id.block - prev.block;
            assert(d as int == bd * (ID_BASE as int) + e.id.tx);
            assert((d as nat) / (ID_BASE as nat) == bd && (d as nat) % (ID_BASE as nat)
                == e.id.tx) by (nonlinear_arith)
                requires
                    d as int == bd * (ID_BASE as int) + e.id.tx,
                    0 <= e.id.tx < (ID_BASE as int),
                    0 < bd,
                    ID_BASE == 0x100000000,
            ;
        }
    }
    assert(crate::codec::edicts_sorted(tail)) by {
        assert forall|k: int| 0 <= k < tail.len() - 1 implies #[trigger] tail[k].id.le(
            tail[k + 1].id,
        ) by {
            assert(tail[k] == es[k + 1] && tail[k + 1] == es[k + 2]);
            assert(es[k + 1].id.le(es[k + 1 + 1].id));
        }
    }
    assert(tail.len() > 0 ==> e.id.le(tail[0].id)) by {
        if tail.len() > 0 {
            assert(es[0].id.le(es[0int + 1].id));
            assert(tail[0] == es[1]);
        }
    }
    assert(forall|j: int| 0 <= j < tail.len() ==> (#[trigger] tail[j]).output <= n_out) by {
        assert(forall|j: int| 0 <= j < tail.len() ==> tail[j] == es[j + 1]);
    }
}

/// Decoding the delta runs of a sorted edict list, whose outputs all stay
/// within the transaction, reproduces the list exactly and without flaws.
proof fn lemma_edicts_read_encoding(
    msg: Seq<u128>,
    i: nat,
    es: Seq<Edict>,
    prev: RuneId,
    n_out: nat,
)
    requires
        i <= msg.len(),
        msg.subrange(i as int, msg.len() as int) == edicts_ints(es, prev),
        es.len() > 0 ==> prev.le(es[0].id),
        crate::codec::edicts_sorted(es),
        forall|j: int| 0 <= j < es.len() ==> (#[trigger] es[j]).output <= n_out,
    ensures
        edicts_read(msg, i, prev, n_out) == (es, None::<Flaw>),
    decreases es.len(),
{
    let sub = msg.subrange(i as int, msg.len() as int);
    if es.len() == 0 {
        assert(sub.len() == 0);
        assert(i >= msg.len());
        assert(es =~= Seq::<Edict>::empty());
    } else {
        let e = es[0];
        let tail = es.subrange(1, es.len() as int);
        lemma_edicts_ints_len(es, prev);
        lemma_edicts_ints_len(tail, e.id);
        lemma_edict_step(es, prev, n_out);
        let dd: int = if e.id.block == prev.block {
            e.id.tx - prev.tx
        } else {
            (e.id.block - prev.block) * (ID_BASE as int) + e.id.tx
        };
        assert(sub[0] == dd as u128 && sub[1] == e.amount && sub[2] == e.output as u128);
        assert(msg[i as int] == dd as u128 && msg[i as int + 1] == e.amount && msg[i as int + 2] == e.output
            as u128);
        assert(msg.subrange(i as int + 3, msg.len() as int) =~= edicts_ints(tail, e.id)) by {
            assert forall|k: int|
                0 <= k < edicts_ints(tail, e.id).len() implies msg.subrange(
                i as int + 3,
                msg.len() as int,
            )[k] == edicts_ints(tail, e.id)[k] by {
                assert(msg.subrange(i as int + 3, msg.len() as int)[k] == msg[i as int + 3 + k]);
                assert(msg[i as int + 3 + k] == sub[3 + k]);
                assert(sub[3 + k] == edicts_ints(tail, e.id)[k]);
            }
        }
        lemma_edicts_read_encoding(msg, (i + 3) as nat, tail, e.id, n_out);
        assert(seq![e] + tail =~= es);
    }
}

/// Reading edict runs cut one integer short flags a truncated edict.
proof fn lemma_edicts_read_cut(msg: Seq<u128>, i: nat, es: Seq<Edict>, prev: RuneId, n_out: nat)
    requires
        es.len() > 0,
        i <= msg.len(),
        msg.subrange(i as int, msg.len() as int) == edicts_ints(es, prev).subrange(
            0,
            edicts_ints(es, prev).len() - 1,
        ),
        prev.le(es[0].id),
        crate::codec::edicts_sorted(es),
        forall|j: int| 0 <= j < es.len() ==> (#[trigger] es[j]).output <= n_out,
    ensures
        edicts_read(msg, i, prev, n_out).1 == Some(Flaw::TruncatedEdict),
    decreases es.len(),
{
    let full = edicts_ints(es, prev);
    lemma_edicts_ints_len(es, prev);
    let sub = msg.subrange(i as int, msg.len() as int);
    assert(sub.len() == 3 * es.len() - 1);
    if es.len() == 1 {
        assert(i < msg.len());
        assert(i + 3 > msg.len());
    } else {
        let e = es[0];
        let tail = es.subrange(1, es.len() as int);
        lemma_edicts_ints_len(tail, e.id);
        lemma_edict_step(es, prev, n_out);
        let dd: int = if e.id.block == prev.block {
            e.id.tx - prev.tx
        } else {
            (e.id.block - prev.block) * (ID_BASE as int) + e.id.tx
        };
        assert(sub[0] == full[0] && sub[1] == full[1] && sub[2] == full[2]);
        assert(full[0] == dd as u128 && full[1] == e.amount && full[2] == e.output as u128);
        assert(msg[i as int] == dd as u128 && msg[i as int + 1] == e.amount && msg[i as int + 2]
            == e.output as u128);
        let fulltail = edicts_ints(tail, e.id);
        assert(msg.subrange(i as int + 3, msg.len() as int) =~= fulltail.subrange(
            0,
            fulltail.len() - 1,
        )) by {
            assert forall|k: int|
                0 <= k < fulltail.len() - 1 implies #[trigger] msg.subrange(
                i as int + 3,
                msg.len() as int,
            )[k] == fulltail.subrange(0, fulltail.len() - 1)[k] by {
                assert(msg.subrange(i as int + 3, msg.len() as int)[k] == msg[i as int + 3 + k]);
                assert(msg[i as int + 3 + k] == sub[3 + k]);
                assert(sub[3 + k] == full[3 + k]);
                assert(full[3 + k] == fulltail[k]);
            }
        }
        lemma_edicts_read_cut(msg, (i + 3) as nat, tail, e.id, n_out);
    }
}

/// Truncation boundary: cutting the last byte off the valid payload of an
/// operation that moves anything never yields a different valid operation
/// — the cut payload is flagged truncated, either in a varint or in the
/// edict runs, and so classifies as a cenotaph.
pub proof fn lemma_truncation_boundary(
    etching: Option<Etching>,
    pointer: Option<u32>,
    mint: Option<RuneId>,
    edicts: Seq<Edict>,
    n_out: nat,
)
    requires
        wf_etching(etching),
        forall|j: int| 0 <= j < edicts.len() ==> (#[trigger] edicts[j]).output <= n_out,
        edicts.len() > 0,
    ensures
        ({
            let payload = integers_encoding(
                runestone_ints(etching, pointer, mint, sort_edicts(edicts)),
            );
            let cut = payload.subrange(0, payload.len() - 1);
            let o = payload_outcome(cut, n_out, FlawSet::spec_empty());
            payload.len() > 0 && (o.flaws.truncated || o.flaws.truncated_edict) && o.flaws.any()
        }),
{
    let sorted = sort_edicts(edicts);
    crate::codec::lemma_sort_edicts_sorted(edicts);
    crate::codec::lemma_sort_contains(edicts);
    assert(forall|j: int| 0 <= j < sorted.len() ==> (#[trigger] sorted[j]).output <= n_out) by {
        assert forall|j: int| 0 <= j < sorted.len() implies (#[trigger] sorted[j]).output
            <= n_out by {
            assert(edicts.contains(sorted[j]));
            let k = choose|k: int| 0 <= k < edicts.len() && edicts[k] == sorted[j];
            assert(edicts[k].output <= n_out);
        }
    }
    let msg = runestone_ints(etching, pointer, mint, sorted);
    let id0 = RuneId { block: 0, tx: 0 };
    let ei = edicts_ints(sorted, id0);
    lemma_edicts_ints_len(sorted, id0);
    let b = body_ints(sorted);
    assert(b == seq![TAG_BODY] + ei);
    assert(msg.len() >= b.len());
    let payload = integers_encoding(msg);
    assert(payload.len() >= 1 && msg.len() >= 1) by {
        assert(msg.len() > 0) by {
            assert(b.len() > 0);
        }
        assert(integers_encoding(msg) == varint_encoding(msg[0] as nat) + integers_encoding(
            msg.subrange(1, msg.len() as int),
        ));
        assert(varint_encoding(msg[0] as nat).len() >= 1);
    }
    let cut = payload.subrange(0, payload.len() - 1);
    assert(forall|i: int|
        0 <= i < payload.len() && i < cut.len() ==> cut[i] == payload[i]);
    lemma_integers_read_cut(cut, 0, msg);
    let fl0 = FlawSet::spec_empty();
    if integers_read_from(cut, 0) == IntegersRead::Truncated {
        assert(payload_outcome(cut, n_out, fl0).flaws == fl0.with(Flaw::Truncated));
    } else {
        let msg2 = msg.subrange(0, msg.len() - 1);
        assert(integers_read_from(cut, 0) == IntegersRead::Values(msg2));
        let b2 = seq![TAG_BODY] + ei.subrange(0, ei.len() - 1);
        assert(msg2 =~= etching_ints(etching) + (pair32(TAG_POINTER, pointer) + (mint_ints(mint)
            + b2))) by {
            let rhs = etching_ints(etching) + (pair32(TAG_POINTER, pointer) + (mint_ints(mint)
                + b2));
            assert(msg == etching_ints(etching) + (pair32(TAG_POINTER, pointer) + (mint_ints(mint)
                + b)));
            assert(b2.len() == b.len() - 1);
            assert(rhs.len() == msg.len() - 1);
            assert forall|k: int| 0 <= k < rhs.len() implies msg2[k] == rhs[k] by {
                assert(msg2[k] == msg[k]);
                if k < msg.len() - b.len() {
                    assert(msg[k] == rhs[k]);
                } else {
                    let j = k - (msg.len() - b.len());
                    assert(msg[k] == b[j]);
                    assert(rhs[k] == b2[j]);
                    assert(b[j] == b2[j]);
                }
            }
        }
        lemma_head_parse(msg2, fl0, etching, pointer, mint, b2);
        let q = (msg2.len() - b2.len()) as nat;
        let fs = expected_fields(etching, pointer, mint);
        let sub = msg2.subrange(q as int, msg2.len() as int);
        assert(sub[0] == TAG_BODY);
        assert(msg2[q as int] == TAG_BODY);
        assert(parse_pairs(msg2, q, fs, fl0) == (fs, fl0, Some((q + 1) as nat)));
        assert(msg2.subrange(q as int + 1, msg2.len() as int) =~= ei.subrange(0, ei.len() - 1))
            by {
            assert forall|k: int|
                0 <= k < ei.len() - 1 implies #[trigger] msg2.subrange(
                q as int + 1,
                msg2.len() as int,
            )[k] == ei.subrange(0, ei.len() - 1)[k] by {
                assert(msg2.subrange(q as int + 1, msg2.len() as int)[k] == msg2[q as int + 1 + k]);
                assert(msg2[q as int + 1 + k] == sub[1 + k]);
                assert(sub[1 + k] == b2[1 + k]);
                assert(b2[1 + k] == ei.subrange(0, ei.len() - 1)[k]);
            }
        }
        assert(id0.le(sorted[0].id));
        lemma_edicts_read_cut(msg2, (q + 1) as nat, sorted, id0, n_out);
        lemma_fields_validate(etching, pointer, mint, fl0.with(Flaw::TruncatedEdict));
        let o = decipher_ints(msg2, n_out, fl0);
        assert(o.flaws == fl0.with(Flaw::TruncatedEdict)) by {
            match pointer {
                Some(pv) => {
                    assert(fs.pointer == Some(pv as u128));
                },
                None => {},
            }
            match mint {
                Some(id) => {
                    assert(unpack_id(pack_id(id)) == Some(id)) by {
                        let packed: int = (id.block as int) * (ID_BASE as int) + id.tx;
                        assert((packed as nat) / (ID_BASE as nat) == id.block && (packed as nat) % (
                        ID_BASE as nat) == id.tx) by (nonlinear_arith)
                            requires
                                packed == (id.block as int) * (ID_BASE as int) + id.tx,
                                0 <= id.tx < (ID_BASE as int),
                                0 <= id.block,
                                ID_BASE == 0x100000000,
                        ;
                    }
                },
                None => {},
            }
        }
    }
}

/// An absent 64-bit field widens to an absent raw field.
pub open spec fn map64(o: Option<u64>) -> Option<u128> {
    match o {
        Some(v) => Some(v as u128),
        None => None,
    }
}

pub open spec fn map32(o: Option<u32>) -> Option<u128> {
    match o {
        Some(v) => Some(v as u128),
        None => None,
    }
}

pub open spec fn map8(o: Option<u8>) -> Option<u128> {
    match o {
        Some(v) => Some(v as u128),
        None => None,
    }
}

/// The fields after folding in the minting-terms pairs.
pub open spec fn terms_fields(fs: Fields, terms: Option<Terms>) -> Fields {
    match terms {
        None => fs,
        Some(t) => Fields {
            cap: t.cap,
            amount: t.amount,
            height_start: map64(t.height.start),
            height_end: map64(t.height.end),
            offset_start: map64(t.offset.start),
            offset_end: map64(t.offset.end),
            ..fs
        },
    }
}

/// Concatenation reassociates.
proof fn lemma_add_assoc(a: Seq<u128>, b: Seq<u128>, c: Seq<u128>)
    ensures
        (a + b) + c == a + (b + c),
{
    assert((a + b) + c =~= a + (b + c));
}

/// Walks the cap, amount and height-start pairs.
#[verifier::rlimit(100)]
proof fn lemma_terms_first(msg: Seq<u128>, i: nat, fs: Fields, fl: FlawSet, t: Terms, r: Seq<u128>)
    requires
        fs.cap is None,
        fs.amount is None,
        fs.height_start is None,
        i <= msg.len(),
        msg.subrange(i as int, msg.len() as int) == pair128(TAG_CAP, t.cap) + (pair128(
            TAG_AMOUNT,
            t.amount,
        ) + (pair128(TAG_HEIGHT_START, map64(t.height.start)) + r)),
    ensures
        ({
            let n = (i + pair128(TAG_CAP, t.cap).len() + pair128(TAG_AMOUNT, t.amount).len()
                + pair128(TAG_HEIGHT_START, map64(t.height.start)).len()) as nat;
            let g = Fields {
                cap: t.cap,
                amount: t.amount,
                height_start: map64(t.height.start),
                ..fs
            };
            parse_pairs(msg, i, fs, fl) == parse_pairs(msg, n, g, fl) && n <= msg.len()
                && msg.subrange(n as int, msg.len() as int) == r
        }),
{
    let t1 = pair128(TAG_CAP, t.cap);
    let t2 = pair128(TAG_AMOUNT, t.amount);
    let t3 = pair128(TAG_HEIGHT_START, map64(t.height.start));
    let mut i2: nat = i;
    let mut fs2: Fields = fs;
    lemma_parse_chunk(msg, i2, fs2, fl, TAG_CAP, t.cap, t2 + (t3 + r));
    i2 = (i2 + t1.len()) as nat;
    let g1 = Fields { cap: t.cap, ..fs };
    assert((match t.cap {
        Some(v) => fs2.record(TAG_CAP, v),
        None => fs2,
    }) == g1);
    fs2 = g1;
    lemma_parse_chunk(msg, i2, fs2, fl, TAG_AMOUNT, t.amount, t3 + r);
    i2 = (i2 + t2.len()) as nat;
    let g2 = Fields { cap: t.cap, amount: t.amount, ..fs };
    assert((match t.amount {
        Some(v) => fs2.record(TAG_AMOUNT, v),
        None => fs2,
    }) == g2);
    fs2 = g2;
    lemma_parse_chunk(msg, i2, fs2, fl, TAG_HEIGHT_START, map64(t.height.start), r);
    i2 = (i2 + t3.len()) as nat;
    let g3 = Fields { cap: t.cap, amount: t.amount, height_start: map64(t.height.start), ..fs };
    assert((match map64(t.height.start) {
        Some(v) => fs2.record(TAG_HEIGHT_START, v),
        None => fs2,
    }) == g3);
}

/// Walks the height-end and the two offset pairs.
#[verifier::rlimit(100)]
proof fn lemma_terms_second(msg: Seq<u128>, i: nat, fs: Fields, fl: FlawSet, t: Terms, r: Seq<u128>)
    requires
        fs.height_end is None,
        fs.offset_start is None,
        fs.offset_end is None,
        i <= msg.len(),
        msg.subrange(i as int, msg.len() as int) == pair128(TAG_HEIGHT_END, map64(t.height.end))
            + (pair128(TAG_OFFSET_START, map64(t.offset.start)) + (pair128(
            TAG_OFFSET_END,
            map64(t.offset.end),
        ) + r)),
    ensures
        ({
            let n = (i + pair128(TAG_HEIGHT_END, map64(t.height.end)).len() + pair128(
                TAG_OFFSET_START,
                map64(t.offset.start),
            ).len() + pair128(TAG_OFFSET_END, map64(t.offset.end)).len()) as nat;
            let g = Fields {
                height_end: map64(t.height.end),
                offset_start: map64(t.offset.start),
                offset_end: map64(t.offset.end),
                ..fs
            };
            parse_pairs(msg, i, fs, fl) == parse_pairs(msg, n, g, fl) && n <= msg.len()
                && msg.subrange(n as int, msg.len() as int) == r
        }),
{
    let t4 = pair128(TAG_HEIGHT_END, map64(t.height.end));
    let t5 = pair128(TAG_OFFSET_START, map64(t.offset.start));
    let t6 = pair128(TAG_OFFSET_END, map64(t.offset.end));
    let mut i2: nat = i;
    let mut fs2: Fields = fs;
    lemma_parse_chunk(msg, i2, fs2, fl, TAG_HEIGHT_END, map64(t.height.end), t5 + (t6 + r));
    i2 = (i2 + t4.len()) as nat;
    let g4 = Fields { height_end: map64(t.height.end), ..fs };
    assert((match map64(t.height.end) {
        Some(v) => fs2.record(TAG_HEIGHT_END, v),
        None => fs2,
    }) == g4);
    fs2 = g4;
    lemma_parse_chunk(msg, i2, fs2, fl, TAG_OFFSET_START, map64(t.offset.start), t6 + r);
    i2 = (i2 + t5.len()) as nat;
    let g5 = Fields {
        height_end: map64(t.height.end),
        offset_start: map64(t.offset.start),
        ..fs
    };
    assert((match map64(t.offset.start) {
        Some(v) => fs2.record(TAG_OFFSET_START, v),
        None => fs2,
    }) == g5);
    fs2 = g5;
    lemma_parse_chunk(msg, i2, fs2, fl, TAG_OFFSET_END, map64(t.offset.end), r);
    i2 = (i2 + t6.len()) as nat;
    let g6 = Fields {
        height_end: map64(t.height.end),
        offset_start: map64(t.offset.start),
        offset_end: map64(t.offset.end),
        ..fs
    };
    assert((match map64(t.offset.end) {
        Some(v) => fs2.record(TAG_OFFSET_END, v),
        None => fs2,
    }) == g6);
}

/// Walks the minting-terms pairs of the message.
#[verifier::rlimit(100)]
proof fn lemma_terms_chunks(
    msg: Seq<u128>,
    i: nat,
    fs: Fields,
    fl: FlawSet,
    terms: Option<Terms>,
    r: Seq<u128>,
)
    requires
        fs.cap is None,
        fs.amount is None,
        fs.height_start is None,
        fs.height_end is None,
        fs.offset_start is None,
        fs.offset_end is None,
        i <= msg.len(),
        msg.subrange(i as int, msg.len() as int) == terms_ints(terms) + r,
    ensures
        ({
            let n = (i + terms_ints(terms).len()) as nat;
            parse_pairs(msg, i, fs, fl) == parse_pairs(msg, n, terms_fields(fs, terms), fl)
                && n <= msg.len() && msg.subrange(n as int, msg.len() as int) == r
        }),
{
    match terms {
        None => {
            assert(terms_ints(terms) + r =~= r);
        },
        Some(t) => {
            let t1 = pair128(TAG_CAP, t.cap);
            let t2 = pair128(TAG_AMOUNT, t.amount);
            let t3 = pair128(TAG_HEIGHT_START, map64(t.height.start));
            let t4 = pair128(TAG_HEIGHT_END, map64(t.height.end));
            let t5 = pair128(TAG_OFFSET_START, map64(t.offset.start));
            let t6 = pair128(TAG_OFFSET_END, map64(t.offset.end));
            assert(pair64(TAG_HEIGHT_START, t.height.start) == t3);
            assert(pair64(TAG_HEIGHT_END, t.height.end) == t4);
            assert(pair64(TAG_OFFSET_START, t.offset.start) == t5);
            assert(pair64(TAG_OFFSET_END, t.offset.end) == t6);
            let back = t4 + (t5 + t6);
            assert(terms_ints(terms) == t1 + (t2 + (t3 + back)));
            lemma_add_assoc(t3, back, r);
            lemma_add_assoc(t2, t3 + back, r);
            lemma_add_assoc(t1, t2 + (t3 + back), r);
            lemma_terms_first(msg, i, fs, fl, t, back + r);
            let n3 = (i + t1.len() + t2.len() + t3.len()) as nat;
            let g3 = Fields {
                cap: t.cap,
                amount: t.amount,
                height_start: map64(t.height.start),
                ..fs
            };
            lemma_add_assoc(t5, t6, r);
            lemma_add_assoc(t4, t5 + t6, r);
            lemma_terms_second(msg, n3, g3, fl, t, r);
            let n6 = (n3 + t4.len() + t5.len() + t6.len()) as nat;
            let g6 = Fields {
                height_end: map64(t.height.end),
                offset_start: map64(t.offset.start),
                offset_end: map64(t.offset.end),
                ..g3
            };
            assert(g6 == terms_fields(fs, terms));
            assert(n6 == i + terms_ints(terms).len());
        },
    }
}

/// Walks the terms and turbo pairs that close the etching section.
#[verifier::rlimit(100)]
proof fn lemma_etching_tail(
    msg: Seq<u128>,
    i: nat,
    fs: Fields,
    fl: FlawSet,
    et: Etching,
    r1: Seq<u128>,
)
    requires
        fs.cap is None,
        fs.amount is None,
        fs.height_start is None,
        fs.height_end is None,
        fs.offset_start is None,
        fs.offset_end is None,
        fs.turbo is None,
        i <= msg.len(),
        msg.subrange(i as int, msg.len() as int) == (terms_ints(et.terms) + pair128(
            TAG_TURBO,
            if et.turbo {
                Some(1u128)
            } else {
                None::<u128>
            },
        )) + r1,
    ensures
        ({
            let tt = terms_ints(et.terms);
            let tb = pair128(
                TAG_TURBO,
                if et.turbo {
                    Some(1u128)
                } else {
                    None::<u128>
                },
            );
            let n = (i + tt.len() + tb.len()) as nat;
            let fs4 = Fields {
                cap: match et.terms {
                    Some(t) => t.cap,
                    None => None,
                },
                amount: match et.terms {
                    Some(t) => t.amount,
                    None => None,
                },
                height_start: match et.terms {
                    Some(t) => map64(t.height.start),
                    None => None,
                },
                height_end: match et.terms {
                    Some(t) => map64(t.height.end),
                    None => None,
                },
                offset_start: match et.terms {
                    Some(t) => map64(t.offset.start),
                    None => None,
                },
                offset_end: match et.terms {
                    Some(t) => map64(t.offset.end),
                    None => None,
                },
                turbo: if et.turbo {
                    Some(1u128)
                } else {
                    None
                },
                ..fs
            };
            parse_pairs(msg, i, fs, fl) == parse_pairs(msg, n, fs4, fl) && n <= msg.len()
                && msg.subrange(n as int, msg.len() as int) == r1
        }),
{
    let tt = terms_ints(et.terms);
    let o_turbo = if et.turbo {
        Some(1u128)
    } else {
        None::<u128>
    };
    let tb = pair128(TAG_TURBO, o_turbo);
    lemma_add_assoc(tt, tb, r1);
    lemma_terms_chunks(msg, i, fs, fl, et.terms, tb + r1);
    let i2 = (i + tt.len()) as nat;
    let fs3 = terms_fields(fs, et.terms);
    lemma_parse_chunk(msg, i2, fs3, fl, TAG_TURBO, o_turbo, r1);
}

/// Walks the five leading etching pairs.
#[verifier::rlimit(100)]
proof fn lemma_five_pairs(msg: Seq<u128>, i: nat, fl: FlawSet, et: Etching, r: Seq<u128>)
    requires
        i <= msg.len(),
        msg.subrange(i as int, msg.len() as int) == pair8(TAG_DIVISIBILITY, et.divisibility) + (
        pair128(TAG_PREMINE, et.premine) + (pair128(TAG_RUNE, et.rune) + (pair32(
            TAG_SPACERS,
            et.spacers,
        ) + (pair32(TAG_SYMBOL, et.symbol) + r)))),
    ensures
        ({
            let n = (i + pair8(TAG_DIVISIBILITY, et.divisibility).len() + pair128(
                TAG_PREMINE,
                et.premine,
            ).len() + pair128(TAG_RUNE, et.rune).len() + pair32(TAG_SPACERS, et.spacers).len()
                + pair32(TAG_SYMBOL, et.symbol).len()) as nat;
            let fs5 = Fields {
                divisibility: map8(et.divisibility),
                premine: et.premine,
                rune: et.rune,
                spacers: map32(et.spacers),
                symbol: map32(et.symbol),
                ..Fields::spec_empty()
            };
            parse_pairs(msg, i, Fields::spec_empty(), fl) == parse_pairs(msg, n, fs5, fl) && n
                <= msg.len() && msg.subrange(n as int, msg.len() as int) == r
        }),
{
    let c1 = pair128(TAG_DIVISIBILITY, map8(et.divisibility));
    let c2 = pair128(TAG_PREMINE, et.premine);
    let c3 = pair128(TAG_RUNE, et.rune);
    let c4 = pair128(TAG_SPACERS, map32(et.spacers));
    let c5 = pair128(TAG_SYMBOL, map32(et.symbol));
    assert(pair8(TAG_DIVISIBILITY, et.divisibility) == c1);
    assert(pair32(TAG_SPACERS, et.spacers) == c4);
    assert(pair32(TAG_SYMBOL, et.symbol) == c5);
    let mut i2: nat = i;
    let mut fs2: Fields = Fields::spec_empty();
    lemma_parse_chunk(msg, i2, fs2, fl, TAG_DIVISIBILITY, map8(et.divisibility), c2 + (c3 + (c4 + (
    c5 + r))));
    i2 = (i2 + c1.len()) as nat;
    fs2 = match map8(et.divisibility) {
        Some(v) => fs2.record(TAG_DIVISIBILITY, v),
        None => fs2,
    };
    lemma_parse_chunk(msg, i2, fs2, fl, TAG_PREMINE, et.premine, c3 + (c4 + (c5 + r)));
    i2 = (i2 + c2.len()) as nat;
    fs2 = match et.premine {
        Some(v) => fs2.record(TAG_PREMINE, v),
        None => fs2,
    };
    lemma_parse_chunk(msg, i2, fs2, fl, TAG_RUNE, et.rune, c4 + (c5 + r));
    i2 = (i2 + c3.len()) as nat;
    fs2 = match et.rune {
        Some(v) => fs2.record(TAG_RUNE, v),
        None => fs2,
    };
    lemma_parse_chunk(msg, i2, fs2, fl, TAG_SPACERS, map32(et.spacers), c5 + r);
    i2 = (i2 + c4.len()) as nat;
    fs2 = match map32(et.spacers) {
        Some(v) => fs2.record(TAG_SPACERS, v),
        None => fs2,
    };
    lemma_parse_chunk(msg, i2, fs2, fl, TAG_SYMBOL, map32(et.symbol), r);
}

/// Walks the etching pairs of the message.
#[verifier::rlimit(100)]
proof fn lemma_etching_chunks(
    msg: Seq<u128>,
    i: nat,
    fl: FlawSet,
    etching: Option<Etching>,
    r1: Seq<u128>,
)
    requires
        i <= msg.len(),
        msg.subrange(i as int, msg.len() as int) == etching_ints(etching) + r1,
    ensures
        ({
            let n = (i + etching_ints(etching).len()) as nat;
            parse_pairs(msg, i, Fields::spec_empty(), fl) == parse_pairs(
                msg,
                n,
                expected_fields(etching, None, None),
                fl,
            ) && n <= msg.len() && msg.subrange(n as int, msg.len() as int) == r1
        }),
{
    let fs0 = Fields::spec_empty();
    match etching {
        None => {
            assert(etching_ints(etching) + r1 =~= r1);
            assert(expected_fields(etching, None, None) == fs0);
        },
        Some(et) => {
            let o_turbo = if et.turbo {
                Some(1u128)
            } else {
                None::<u128>
            };
            let c1 = pair128(TAG_DIVISIBILITY, map8(et.divisibility));
            let c2 = pair128(TAG_PREMINE, et.premine);
            let c3 = pair128(TAG_RUNE, et.rune);
            let c4 = pair128(TAG_SPACERS, map32(et.spacers));
            let c5 = pair128(TAG_SYMBOL, map32(et.symbol));
            let tb = pair128(TAG_TURBO, o_turbo);
            let tt = terms_ints(et.terms);
            assert(pair8(TAG_DIVISIBILITY, et.divisibility) == c1);
            assert(pair32(TAG_SPACERS, et.spacers) == c4);
            assert(pair32(TAG_SYMBOL, et.symbol) == c5);
            assert((if et.turbo {
                seq![TAG_TURBO, 1u128]
            } else {
                Seq::<u128>::empty()
            }) =~= tb);
            assert(etching_ints(etching) == c1 + (c2 + (c3 + (c4 + (c5 + (tt + tb))))));
            let d1 = c2 + (c3 + (c4 + (c5 + (tt + tb))));
            let d2 = c3 + (c4 + (c5 + (tt + tb)));
            let d3 = c4 + (c5 + (tt + tb));
            let d4 = c5 + (tt + tb);
            let d5 = tt + tb;
            let x5 = d5 + r1;
            lemma_add_assoc(c1, d1, r1);
            lemma_add_assoc(c2, d2, r1);
            lemma_add_assoc(c3, d3, r1);
            lemma_add_assoc(c4, d4, r1);
            lemma_add_assoc(c5, d5, r1);
            lemma_add_assoc(tt, tb, r1);
            lemma_five_pairs(msg, i, fl, et, x5);
            let i5 = (i + c1.len() + c2.len() + c3.len() + c4.len() + c5.len()) as nat;
            let fs5 = Fields {
                divisibility: map8(et.divisibility),
                premine: et.premine,
                rune: et.rune,
                spacers: map32(et.spacers),
                symbol: map32(et.symbol),
                ..Fields::spec_empty()
            };
            lemma_etching_tail(msg, i5, fs5, fl, et, r1);
            let fsfinal = Fields {
                cap: match et.terms {
                    Some(t) => t.cap,
                    None => None,
                },
                amount: match et.terms {
                    Some(t) => t.amount,
                    None => None,
                },
                height_start: match et.terms {
                    Some(t) => map64(t.height.start),
                    None => None,
                },
                height_end: match et.terms {
                    Some(t) => map64(t.height.end),
                    None => None,
                },
                offset_start: match et.terms {
                    Some(t) => map64(t.offset.start),
                    None => None,
                },
                offset_end: match et.terms {
                    Some(t) => map64(t.offset.end),
                    None => None,
                },
                turbo: if et.turbo {
                    Some(1u128)
                } else {
                    None
                },
                ..fs5
            };
            assert(fsfinal == expected_fields(etching, None, None));
            assert(i5 + tt.len() + tb.len() == i + etching_ints(etching).len());
        },
    }
}

/// Walks every field pair of a message that opens with the etching,
/// pointer and mint sections, whatever stands after them.
#[verifier::rlimit(100)]
proof fn lemma_head_parse(
    msg: Seq<u128>,
    fl: FlawSet,
    etching: Option<Etching>,
    pointer: Option<u32>,
    mint: Option<RuneId>,
    tail: Seq<u128>,
)
    requires
        msg == etching_ints(etching) + (pair32(TAG_POINTER, pointer) + (mint_ints(mint) + tail)),
    ensures
        ({
            let q = (msg.len() - tail.len()) as nat;
            parse_pairs(msg, 0, Fields::spec_empty(), fl) == parse_pairs(
                msg,
                q,
                expected_fields(etching, pointer, mint),
                fl,
            ) && q + tail.len() == msg.len() && msg.subrange(q as int, msg.len() as int) == tail
        }),
{
    let p = pair32(TAG_POINTER, pointer);
    let m = mint_ints(mint);
    let r1 = p + (m + tail);
    assert(msg.subrange(0, msg.len() as int) =~= msg);
    assert(p == pair128(TAG_POINTER, map32(pointer)));
    let o_mint = match mint {
        Some(id) => Some(pack_id(id)),
        None => None::<u128>,
    };
    assert(m =~= pair128(TAG_MINT, o_mint));
    lemma_etching_chunks(msg, 0, fl, etching, r1);
    let mut i: nat = etching_ints(etching).len() as nat;
    let mut fs: Fields = expected_fields(etching, None, None);
    lemma_parse_chunk(msg, i, fs, fl, TAG_POINTER, map32(pointer), m + tail);
    i = (i + p.len()) as nat;
    assert((match map32(pointer) {
        Some(v) => fs.record(TAG_POINTER, v),
        None => fs,
    }) == expected_fields(etching, pointer, None)) by {
        let got = match map32(pointer) {
            Some(v) => fs.record(TAG_POINTER, v),
            None => fs,
        };
        let want = expected_fields(etching, pointer, None);
        assert(got.pointer == want.pointer);
        assert(got == want);
    }
    fs = expected_fields(etching, pointer, None);
    lemma_parse_chunk(msg, i, fs, fl, TAG_MINT, o_mint, tail);
    i = (i + m.len()) as nat;
    assert((match o_mint {
        Some(v) => fs.record(TAG_MINT, v),
        None => fs,
    }) == expected_fields(etching, pointer, mint)) by {
        let got = match o_mint {
            Some(v) => fs.record(TAG_MINT, v),
            None => fs,
        };
        let want = expected_fields(etching, pointer, mint);
        assert(got.mint == want.mint);
        assert(got == want);
    }
}

/// Parsing the encoded message collects exactly the operation's fields,
/// adds no flaw, and leaves the body index at the edict runs.
#[verifier::rlimit(100)]
proof fn lemma_message_parse(
    etching: Option<Etching>,
    pointer: Option<u32>,
    mint: Option<RuneId>,
    sorted: Seq<Edict>,
    fl: FlawSet,
)
    ensures
        ({
            let msg = runestone_ints(etching, pointer, mint, sorted);
            let q = (msg.len() - 3 * sorted.len()) as nat;
            msg.len() >= 3 * sorted.len() && parse_pairs(msg, 0, Fields::spec_empty(), fl) == (
                expected_fields(etching, pointer, mint),
                fl,
                if sorted.len() == 0 {
                    None::<nat>
                } else {
                    Some(q)
                },
            ) && (sorted.len() > 0 ==> msg.subrange(q as int, msg.len() as int) == edicts_ints(
                sorted,
                RuneId { block: 0, tx: 0 },
            ))
        }),
{
    let msg = runestone_ints(etching, pointer, mint, sorted);
    let b = body_ints(sorted);
    lemma_head_parse(msg, fl, etching, pointer, mint, b);
    let i: nat = (msg.len() - b.len()) as nat;
    let fs: Fields = expected_fields(etching, pointer, mint);
    lemma_edicts_ints_len(sorted, RuneId { block: 0, tx: 0 });
    if sorted.len() == 0 {
        assert(b =~= Seq::<u128>::empty());
        assert(i == msg.len());
        assert(parse_pairs(msg, i, fs, fl) == (fs, fl, None::<nat>));
    } else {
        let ei = edicts_ints(sorted, RuneId { block: 0, tx: 0 });
        assert(b == seq![TAG_BODY] + ei);
        let sub = msg.subrange(i as int, msg.len() as int);
        assert(sub[0] == TAG_BODY);
        assert(msg[i as int] == TAG_BODY);
        assert(parse_pairs(msg, i, fs, fl) == (fs, fl, Some((i + 1) as nat)));
        assert(msg.subrange(i as int + 1, msg.len() as int) =~= ei) by {
            assert forall|k: int|
                0 <= k < ei.len() implies msg.subrange(i as int + 1, msg.len() as int)[k]
                == ei[k] by {
                assert(msg.subrange(i as int + 1, msg.len() as int)[k] == msg[i as int + 1 + k]);
                assert(msg[i as int + 1 + k] == sub[1 + k]);
                assert(sub[1 + k] == ei[k]);
            }
        }
        assert(i + 1 == msg.len() - 3 * sorted.len());
    }
}

#[verifier::rlimit(100)]
proof fn lemma_fields_validate(
    etching: Option<Etching>,
    pointer: Option<u32>,
    mint: Option<RuneId>,
    fl: FlawSet,
)
    requires
        wf_etching(etching),
    ensures
        etching_flaws(expected_fields(etching, pointer, mint), fl) == fl,
        assembled_etching(expected_fields(etching, pointer, mint)) == etching,
{
    let fs = expected_fields(etching, pointer, mint);
    match etching {
        None => {
            assert(!etching_attempted(fs));
        },
        Some(et) => {
            assert(etching_attempted(fs));
            match assembled_etching(fs) {
                Some(rebuilt) => {
                    assert(rebuilt.divisibility == et.divisibility);
                    assert(rebuilt.premine == et.premine);
                    assert(rebuilt.rune == et.rune);
                    assert(rebuilt.spacers == et.spacers);
                    assert(rebuilt.symbol == et.symbol);
                    match et.terms {
                        Some(t) => {
                            assert(fs.cap is Some || fs.amount is Some);
                            assert(rebuilt.terms matches Some(rt) && rt.cap == t.cap && rt.amount
                                == t.amount && rt.height == t.height && rt.offset == t.offset);
                        },
                        None => {
                            assert(rebuilt.terms is None);
                        },
                    }
                    assert(rebuilt.turbo == et.turbo);
                    assert(rebuilt == et);
                },
                None => {
                    assert(false);
                },
            }
        },
    }
}

/// Round trip: decoding the encoded payload of a well-formed operation,
/// against a transaction with `n_out` outputs that all its edicts stay
/// within, yields a flawless outcome carrying exactly the operation, its
/// edicts in the encoder's ascending order.
pub proof fn lemma_round_trip(
    etching: Option<Etching>,
    pointer: Option<u32>,
    mint: Option<RuneId>,
    edicts: Seq<Edict>,
    n_out: nat,
)
    requires
        wf_etching(etching),
        forall|j: int| 0 <= j < edicts.len() ==> (#[trigger] edicts[j]).output <= n_out,
    ensures
        ({
            let sorted = sort_edicts(edicts);
            let payload = integers_encoding(runestone_ints(etching, pointer, mint, sorted));
            let o = payload_outcome(payload, n_out, FlawSet::spec_empty());
            o.flaws == FlawSet::spec_empty() && o.edicts == sorted && o.etching == etching
                && o.mint == mint && o.pointer == pointer
        }),
{
    let sorted = sort_edicts(edicts);
    crate::codec::lemma_sort_edicts_sorted(edicts);
    crate::codec::lemma_sort_contains(edicts);
    assert(forall|j: int| 0 <= j < sorted.len() ==> (#[trigger] sorted[j]).output <= n_out) by {
        assert forall|j: int| 0 <= j < sorted.len() implies (#[trigger] sorted[j]).output
            <= n_out by {
            assert(edicts.contains(sorted[j]));
            let k = choose|k: int| 0 <= k < edicts.len() && edicts[k] == sorted[j];
            assert(edicts[k].output <= n_out);
        }
    }
    let msg = runestone_ints(etching, pointer, mint, sorted);
    let payload = integers_encoding(msg);
    lemma_integers_read_encoding(payload, 0, msg);
    assert(integers_read_from(payload, 0) == IntegersRead::Values(msg));
    let fl0 = FlawSet::spec_empty();
    lemma_message_parse(etching, pointer, mint, sorted, fl0);
    let fs = expected_fields(etching, pointer, mint);
    if sorted.len() > 0 {
        let q = (msg.len() - 3 * sorted.len()) as nat;
        let id0 = RuneId { block: 0, tx: 0 };
        assert(sorted.len() > 0 ==> id0.le(sorted[0].id));
        lemma_edicts_read_encoding(msg, q, sorted, id0, n_out);
    }
    lemma_fields_validate(etching, pointer, mint, fl0);
    let o = decipher_ints(msg, n_out, fl0);
    assert(o.flaws == fl0) by {
        match pointer {
            Some(pv) => {
                assert(fs.pointer == Some(pv as u128));
            },
            None => {},
        }
        match mint {
            Some(id) => {
                assert(unpack_id(pack_id(id)) == Some(id)) by {
                    let packed: int = (id.block as int) * (ID_BASE as int) + id.tx;
                    assert((packed as nat) / (ID_BASE as nat) == id.block && (packed as nat) % (
                    ID_BASE as nat) == id.tx) by (nonlinear_arith)
                        requires
                            packed == (id.block as int) * (ID_BASE as int) + id.tx,
                            0 <= id.tx < (ID_BASE as int),
                            0 <= id.block,
                            ID_BASE == 0x100000000,
                    ;
                }
            },
            None => {},
        }
    }
    assert(o.edicts == sorted);
    assert(o.etching == etching);
    assert(o.pointer == pointer);
    assert(o.mint == mint) by {
        match mint {
            Some(id) => {
                assert(unpack_id(pack_id(id)) == Some(id));
            },
            None => {},
        }
    }
}

/// Sorting an already sorted run changes nothing, so re-encoding the
/// decoded operation is byte-identical to the first encoding.
proof fn lemma_sort_idempotent(s: Seq<Edict>)
    requires
        crate::codec::edicts_sorted(s),
    ensures
        sort_edicts(s) == s,
    decreases s.len(),
{
    if s.len() > 0 {
        let tail = s.subrange(1, s.len() as int);
        assert(crate::codec::edicts_sorted(tail)) by {
            assert forall|k: int| 0 <= k < tail.len() - 1 implies #[trigger] tail[k].id.le(
                tail[k + 1].id,
            ) by {
                assert(tail[k] == s[k + 1] && tail[k + 1] == s[k + 2]);
                assert(s[k + 1].id.le(s[k + 1 + 1].id));
            }
        }
        lemma_sort_idempotent(tail);
        if tail.len() > 0 {
            assert(s[0].id.le(s[0int + 1].id));
            assert(!crate::codec::id_lt(tail[0].id, s[0].id));
        }
        assert(crate::codec::insert_edict(s[0], tail) =~= seq![s[0]] + tail);
        assert(seq![s[0]] + tail =~= s);
    }
}

/// Idempotent re-encoding: when an operation's encoding decodes to an
/// operation, encoding that decoded operation gives the same bytes.
pub proof fn lemma_reencode_identical(
    etching: Option<Etching>,
    pointer: Option<u32>,
    mint: Option<RuneId>,
    edicts: Seq<Edict>,
    n_out: nat,
)
    requires
        wf_etching(etching),
        forall|j: int| 0 <= j < edicts.len() ==> (#[trigger] edicts[j]).output <= n_out,
    ensures
        ({
            let payload = integers_encoding(
                runestone_ints(etching, pointer, mint, sort_edicts(edicts)),
            );
            let o = payload_outcome(payload, n_out, FlawSet::spec_empty());
            !o.flaws.any() && integers_encoding(
                runestone_ints(o.etching, o.pointer, o.mint, sort_edicts(o.edicts)),
            ) == payload
        }),
{
    lemma_round_trip(etching, pointer, mint, edicts, n_out);
    crate::codec::lemma_sort_edicts_sorted(edicts);
    lemma_sort_idempotent(sort_edicts(edicts));
}

/// Cenotaph suppresses value: whenever any flaw at all was recorded, the
/// artifact is a cenotaph, and a cenotaph carries nothing but the flaw
/// set — no etching, no edicts, no mint, no pointer can be observed.
pub proof fn lemma_cenotaph_suppresses(a: Artifact, o: DecodeOutcome)
    requires
        artifact_matches(a, o),
        o.flaws.any(),
    ensures
        a matches Artifact::Cenotaph(c) && c.flaws == o.flaws,
{
}

/// Scan precedence: the decode of a transaction is a function of its
/// output count, the position of the first marked script, and that
/// script's bytes alone; the scripts after it may change freely.
pub proof fn lemma_scan_precedence(a: Seq<Seq<u8>>, b: Seq<Seq<u8>>, i: nat)
    requires
        first_marker_index(a, 0) == Some(i),
        first_marker_index(b, 0) == Some(i),
        a.len() == b.len(),
        i < a.len(),
        a[i as int] == b[i as int],
    ensures
        outputs_outcome(a) == outputs_outcome(b),
{
}

} // verus!
