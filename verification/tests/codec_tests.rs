use bitcoin::absolute::LockTime;
use bitcoin::transaction::Version;
use bitcoin::{Amount, OutPoint, ScriptBuf, Sequence, Transaction, TxIn, TxOut, Witness};
use runestone::{
    decipher, decipher_outputs, decipher_payload, decode_integers, encipher, encode_integers,
    varint_decode, Artifact, BlockRange, Edict, Etching, Flaw, Runestone, RuneId, Terms,
};

fn empty_runestone() -> Runestone {
    Runestone { edicts: Vec::new(), etching: None, mint: None, pointer: None }
}

fn build_script(payload: &[u8]) -> Vec<u8> {
    assert!(payload.len() <= 75);
    let mut s = vec![0x6a, 0x5d];
    if !payload.is_empty() {
        s.push(payload.len() as u8);
        s.extend_from_slice(payload);
    }
    s
}

#[test]
fn varint_round_trip_small_values() {
    let vs: Vec<u128> = vec![0, 1, 127, 128, 255, 16383, 16384, 1u128 << 64];
    let bytes = encode_integers(&vs);
    let back = decode_integers(&bytes, 0).unwrap();
    assert_eq!(back, vs);
}

#[test]
fn varint_decodes_max_u128() {
    // 18 continuation bytes of 0x7f payload, then a final byte of 3:
    // exactly 2^128 - 1.
    let mut bytes = vec![0xffu8; 18];
    bytes.push(0x03);
    let (v, n) = varint_decode(&bytes, 0).unwrap();
    assert_eq!(v, u128::MAX);
    assert_eq!(n, 19);
}

#[test]
fn varint_overflow_needs_129_bits() {
    // The 19th byte may only carry two value bits; 4 would need 129 bits.
    let mut bytes = vec![0xffu8; 18];
    bytes.push(0x04);
    assert_eq!(varint_decode(&bytes, 0), Err(Flaw::Overflow));
    // A nonzero byte past position 18 overflows as well.
    let mut long = vec![0x80u8; 19];
    long.push(0x01);
    assert_eq!(varint_decode(&long, 0), Err(Flaw::Overflow));
}

#[test]
fn varint_truncated_stream() {
    let bytes = vec![0x80u8, 0x80];
    assert_eq!(varint_decode(&bytes, 0), Err(Flaw::Truncated));
}

#[test]
fn edict_amount_max_decodes() {
    // body tag, delta 5, amount 2^128 - 1, output 0
    let ints: Vec<u128> = vec![1, 5, u128::MAX, 0];
    let payload = encode_integers(&ints);
    match decipher_payload(&payload, 1) {
        Artifact::Runestone(rs) => {
            assert_eq!(rs.edicts.len(), 1);
            assert_eq!(rs.edicts[0].amount, u128::MAX);
            assert_eq!(rs.edicts[0].id, RuneId { block: 0, tx: 5 });
        },
        Artifact::Cenotaph(c) => panic!("unexpected cenotaph: {:?}", c),
    }
}

#[test]
fn edict_amount_overflow_is_cenotaph() {
    // body tag, delta 5, then a varint needing 129 bits
    let mut payload = encode_integers(&vec![1u128, 5]);
    payload.extend_from_slice(&[0xff; 18]);
    payload.push(0x04);
    match decipher_payload(&payload, 1) {
        Artifact::Cenotaph(c) => assert!(c.flaws.overflow),
        Artifact::Runestone(rs) => panic!("unexpected runestone: {:?}", rs),
    }
}

#[test]
fn round_trip_full_operation() {
    let rs = Runestone {
        edicts: vec![
            Edict { id: RuneId { block: 7, tx: 9 }, amount: 1000, output: 2 },
            Edict { id: RuneId { block: 3, tx: 1 }, amount: 5, output: 0 },
            Edict { id: RuneId { block: 3, tx: 1 }, amount: 6, output: 1 },
        ],
        etching: Some(Etching {
            divisibility: Some(2),
            premine: Some(1_000_000),
            rune: Some(0xCAFE),
            spacers: None,
            symbol: Some('R' as u32),
            terms: Some(Terms {
                amount: Some(100),
                cap: Some(10),
                height: BlockRange { start: Some(840_000), end: Some(850_000) },
                offset: BlockRange { start: None, end: Some(1000) },
            }),
            turbo: true,
        }),
        mint: Some(RuneId { block: 840_001, tx: 17 }),
        pointer: Some(1),
    };
    let payload = encipher(&rs).unwrap();
    match decipher_payload(&payload, 3) {
        Artifact::Runestone(got) => {
            assert_eq!(got.etching, rs.etching);
            assert_eq!(got.mint, rs.mint);
            assert_eq!(got.pointer, rs.pointer);
            // the encoder sorts edicts by ascending identifier, stably
            assert_eq!(
                got.edicts,
                vec![
                    Edict { id: RuneId { block: 3, tx: 1 }, amount: 5, output: 0 },
                    Edict { id: RuneId { block: 3, tx: 1 }, amount: 6, output: 1 },
                    Edict { id: RuneId { block: 7, tx: 9 }, amount: 1000, output: 2 },
                ]
            );
        },
        Artifact::Cenotaph(c) => panic!("unexpected cenotaph: {:?}", c),
    }
}

#[test]
fn reencoding_decoded_operation_is_byte_identical() {
    let rs = Runestone {
        edicts: vec![
            Edict { id: RuneId { block: 5, tx: 2 }, amount: 10, output: 0 },
            Edict { id: RuneId { block: 4, tx: 9 }, amount: 20, output: 1 },
        ],
        etching: Some(Etching {
            divisibility: Some(0),
            premine: None,
            rune: Some(99),
            spacers: None,
            symbol: None,
            terms: Some(Terms {
                amount: Some(7),
                cap: Some(3),
                height: BlockRange { start: None, end: None },
                offset: BlockRange { start: None, end: None },
            }),
            turbo: false,
        }),
        mint: None,
        pointer: None,
    };
    let first = encipher(&rs).unwrap();
    let decoded = match decipher_payload(&first, 2) {
        Artifact::Runestone(got) => got,
        Artifact::Cenotaph(c) => panic!("unexpected cenotaph: {:?}", c),
    };
    let second = encipher(&decoded).unwrap();
    assert_eq!(first, second);
}

#[test]
fn truncating_valid_payload_yields_cenotaph() {
    let rs = Runestone {
        edicts: vec![Edict { id: RuneId { block: 2, tx: 3 }, amount: 400, output: 0 }],
        etching: None,
        mint: Some(RuneId { block: 1, tx: 1 }),
        pointer: Some(0),
    };
    let payload = encipher(&rs).unwrap();
    let mut cut = payload.clone();
    cut.pop();
    match decipher_payload(&cut, 1) {
        Artifact::Cenotaph(c) => {
            assert!(c.flaws.truncated || c.flaws.truncated_edict || c.flaws.trailing_tag);
        },
        Artifact::Runestone(got) => panic!("unexpected runestone: {:?}", got),
    }
    // fields-only payload: dropping the last byte leaves a tag without value
    let fields_only =
        Runestone { edicts: vec![], etching: None, mint: None, pointer: Some(0) };
    let mut p2 = encipher(&fields_only).unwrap();
    p2.pop();
    match decipher_payload(&p2, 1) {
        Artifact::Cenotaph(c) => {
            assert!(c.flaws.truncated || c.flaws.truncated_edict || c.flaws.trailing_tag);
        },
        Artifact::Runestone(got) => panic!("unexpected runestone: {:?}", got),
    }
}

#[test]
fn delta_encoding_same_identifier_is_zero() {
    let rs = Runestone {
        edicts: vec![
            Edict { id: RuneId { block: 0, tx: 5 }, amount: 10, output: 0 },
            Edict { id: RuneId { block: 0, tx: 5 }, amount: 20, output: 1 },
        ],
        etching: None,
        mint: None,
        pointer: None,
    };
    let payload = encipher(&rs).unwrap();
    let ints = decode_integers(&payload, 0).unwrap();
    // body tag, then (5, 10, 0) and (0, 20, 1): the second delta is (0, 0)
    assert_eq!(ints, vec![1, 5, 10, 0, 0, 20, 1]);
}

#[test]
fn invalid_divisibility_suppresses_etching() {
    // rune 7 with divisibility 40: a recognizable etching, but flawed
    let ints: Vec<u128> = vec![2, 40, 6, 7];
    let payload = encode_integers(&ints);
    match decipher_payload(&payload, 1) {
        Artifact::Cenotaph(c) => {
            assert!(c.flaws.invalid_divisibility);
            // a cenotaph carries only its flaw set: no etching to observe
        },
        Artifact::Runestone(got) => panic!("unexpected runestone: {:?}", got),
    }
}

#[test]
fn unknown_even_tag_is_tolerated() {
    let ints: Vec<u128> = vec![100, 7, 26, 0];
    let payload = encode_integers(&ints);
    match decipher_payload(&payload, 1) {
        Artifact::Runestone(got) => {
            assert_eq!(got.pointer, Some(0));
            assert_eq!(got.etching, None);
        },
        Artifact::Cenotaph(c) => panic!("unexpected cenotaph: {:?}", c),
    }
}

#[test]
fn unknown_odd_tag_is_a_flaw() {
    let ints: Vec<u128> = vec![9, 7];
    let payload = encode_integers(&ints);
    match decipher_payload(&payload, 1) {
        Artifact::Cenotaph(c) => assert!(c.flaws.unrecognized_mandatory_tag),
        Artifact::Runestone(got) => panic!("unexpected runestone: {:?}", got),
    }
}

#[test]
fn trailing_tag_is_a_flaw() {
    let ints: Vec<u128> = vec![26, 0, 2];
    let payload = encode_integers(&ints);
    match decipher_payload(&payload, 1) {
        Artifact::Cenotaph(c) => assert!(c.flaws.trailing_tag),
        Artifact::Runestone(got) => panic!("unexpected runestone: {:?}", got),
    }
}

#[test]
fn truncated_edict_run_is_a_flaw() {
    let ints: Vec<u128> = vec![1, 5, 10];
    let payload = encode_integers(&ints);
    match decipher_payload(&payload, 1) {
        Artifact::Cenotaph(c) => assert!(c.flaws.truncated_edict),
        Artifact::Runestone(got) => panic!("unexpected runestone: {:?}", got),
    }
}

#[test]
fn edict_output_beyond_transaction_is_a_flaw() {
    let ints: Vec<u128> = vec![1, 5, 10, 7];
    let payload = encode_integers(&ints);
    match decipher_payload(&payload, 2) {
        Artifact::Cenotaph(c) => assert!(c.flaws.edict_output),
        Artifact::Runestone(got) => panic!("unexpected runestone: {:?}", got),
    }
    // output equal to the output count is the "all remaining" sentinel
    match decipher_payload(&payload, 7) {
        Artifact::Runestone(got) => assert_eq!(got.edicts[0].output, 7),
        Artifact::Cenotaph(c) => panic!("unexpected cenotaph: {:?}", c),
    }
}

#[test]
fn invalid_symbol_is_a_flaw() {
    // 0xD800 is a surrogate, not a scalar value
    let ints: Vec<u128> = vec![10, 0xD800];
    let payload = encode_integers(&ints);
    match decipher_payload(&payload, 1) {
        Artifact::Cenotaph(c) => assert!(c.flaws.invalid_symbol),
        Artifact::Runestone(got) => panic!("unexpected runestone: {:?}", got),
    }
}

#[test]
fn invalid_spacers_is_a_flaw() {
    // a one-letter name admits no spacer bit
    let ints: Vec<u128> = vec![6, 0, 8, 1];
    let payload = encode_integers(&ints);
    match decipher_payload(&payload, 1) {
        Artifact::Cenotaph(c) => assert!(c.flaws.invalid_spacers),
        Artifact::Runestone(got) => panic!("unexpected runestone: {:?}", got),
    }
    // a two-letter name admits exactly one
    let ok: Vec<u128> = vec![6, 26, 8, 1];
    match decipher_payload(&encode_integers(&ok), 1) {
        Artifact::Runestone(got) => {
            let et = got.etching.unwrap();
            assert_eq!(et.rune, Some(26));
            assert_eq!(et.spacers, Some(1));
        },
        Artifact::Cenotaph(c) => panic!("unexpected cenotaph: {:?}", c),
    }
}

#[test]
fn supply_overflow_is_a_flaw() {
    // premine u128::MAX with cap 2 and amount 1 overflows the supply
    let ints: Vec<u128> = vec![4, u128::MAX, 12, 2, 14, 1];
    let payload = encode_integers(&ints);
    match decipher_payload(&payload, 1) {
        Artifact::Cenotaph(c) => assert!(c.flaws.supply_overflow),
        Artifact::Runestone(got) => panic!("unexpected runestone: {:?}", got),
    }
}

#[test]
fn encipher_rejects_invalid_fields() {
    let mut rs = empty_runestone();
    rs.etching = Some(Etching {
        divisibility: Some(39),
        premine: None,
        rune: None,
        spacers: None,
        symbol: None,
        terms: None,
        turbo: false,
    });
    assert_eq!(encipher(&rs), Err(Flaw::InvalidDivisibility));
    rs.etching = Some(Etching {
        divisibility: None,
        premine: None,
        rune: Some(0),
        spacers: Some(1),
        symbol: None,
        terms: None,
        turbo: false,
    });
    assert_eq!(encipher(&rs), Err(Flaw::InvalidSpacers));
    rs.etching = Some(Etching {
        divisibility: None,
        premine: Some(u128::MAX),
        rune: None,
        spacers: None,
        symbol: None,
        terms: Some(Terms {
            amount: Some(2),
            cap: Some(2),
            height: BlockRange { start: None, end: None },
            offset: BlockRange { start: None, end: None },
        }),
        turbo: false,
    });
    assert_eq!(encipher(&rs), Err(Flaw::SupplyOverflow));
}

#[test]
fn scan_uses_first_marked_script_only() {
    let p1 = encipher(&Runestone {
        edicts: vec![],
        etching: None,
        mint: None,
        pointer: Some(1),
    })
    .unwrap();
    let first = build_script(&p1);
    let second_a = build_script(&[0xff, 0xff]);
    let second_b = build_script(&[1, 2, 3]);
    let plain = vec![0x51u8];
    let outs_a = vec![plain.clone(), first.clone(), second_a];
    let outs_b = vec![plain.clone(), first.clone(), second_b];
    let ra = decipher_outputs(&outs_a);
    let rb = decipher_outputs(&outs_b);
    assert_eq!(ra, rb);
    match ra.unwrap() {
        Artifact::Runestone(got) => assert_eq!(got.pointer, Some(1)),
        Artifact::Cenotaph(c) => panic!("unexpected cenotaph: {:?}", c),
    }
}

#[test]
fn no_marker_means_no_operation() {
    let outs = vec![vec![0x51u8], vec![0x6a, 0x6a]];
    assert_eq!(decipher_outputs(&outs), None);
}

#[test]
fn overrunning_push_is_invalid_script() {
    // PUSHDATA1 announcing 5 bytes with only 1 present
    let outs = vec![vec![0x6a, 0x5d, 0x4c, 0x05, 0x01]];
    match decipher_outputs(&outs).unwrap() {
        Artifact::Cenotaph(c) => assert!(c.flaws.invalid_script),
        Artifact::Runestone(got) => panic!("unexpected runestone: {:?}", got),
    }
}

#[test]
fn payload_concatenates_multiple_pushes() {
    let rs = Runestone {
        edicts: vec![],
        etching: None,
        mint: Some(RuneId { block: 300, tx: 4 }),
        pointer: Some(0),
    };
    let payload = encipher(&rs).unwrap();
    let (a, b) = payload.split_at(payload.len() / 2);
    let mut script = vec![0x6a, 0x5d];
    script.push(a.len() as u8);
    script.extend_from_slice(a);
    script.push(b.len() as u8);
    script.extend_from_slice(b);
    match decipher_outputs(&vec![script]).unwrap() {
        Artifact::Runestone(got) => {
            assert_eq!(got.mint, rs.mint);
            assert_eq!(got.pointer, rs.pointer);
        },
        Artifact::Cenotaph(c) => panic!("unexpected cenotaph: {:?}", c),
    }
}

#[test]
fn decipher_reads_a_serialized_transaction() {
    let rs = Runestone {
        edicts: vec![Edict { id: RuneId { block: 10, tx: 2 }, amount: 33, output: 1 }],
        etching: None,
        mint: None,
        pointer: None,
    };
    let payload = encipher(&rs).unwrap();
    let script = ScriptBuf::from_bytes(build_script(&payload));
    let tx = Transaction {
        version: Version(2),
        lock_time: LockTime::ZERO,
        input: vec![TxIn {
            previous_output: OutPoint::null(),
            script_sig: ScriptBuf::new(),
            sequence: Sequence::MAX,
            witness: Witness::new(),
        }],
        output: vec![
            TxOut { value: Amount::from_sat(546), script_pubkey: ScriptBuf::new() },
            TxOut { value: Amount::from_sat(546), script_pubkey: ScriptBuf::new() },
            TxOut { value: Amount::ZERO, script_pubkey: script },
        ],
    };
    let hex_tx = hex::encode(bitcoin::consensus::encode::serialize(&tx));
    match decipher(&hex_tx).unwrap() {
        Artifact::Runestone(got) => assert_eq!(got.edicts, rs.edicts),
        Artifact::Cenotaph(c) => panic!("unexpected cenotaph: {:?}", c),
    }
}

#[test]
fn decipher_rejects_bad_input() {
    assert_eq!(decipher("zz"), None);
    assert_eq!(decipher("abc"), None);
    assert_eq!(decipher("00"), None);
}
