//! The etching assembler: validates the collected fields and builds the
//! optional token-creation descriptor. Every failed validation is a flaw
//! recorded for the cenotaph policy, never a hard error.

use vstd::prelude::*;

use crate::model::{BlockRange, Etching, Flaw, FlawSet, Terms};
use crate::tags::Fields;

verus! {

/// Whether `v` is a Unicode scalar value, the only values a one-character
/// symbol may take.
pub open spec fn is_scalar_value(v: nat) -> bool {
    v < 0xD800 || (0xE000 <= v && v <= 0x10FFFF)
}

/// Whether the spacer mask `sp` only marks boundaries that exist between
/// the letters of the base-26 name `rune`: a one-letter name admits no
/// spacer bit, and each further letter admits one more low bit.
pub open spec fn spacers_fit(rune: nat, sp: nat) -> bool
    decreases rune,
{
    if rune < 26 {
        sp == 0
    } else {
        spacers_fit(((rune - 26) / 26) as nat, sp / 2)
    }
}

/// Executable twin of `spacers_fit`.
pub fn spacers_fit_check(rune: u128, sp: u32) -> (r: bool)
    ensures
        r == spacers_fit(rune as nat, sp as nat),
{
    let mut n: u128 = rune;
    let mut s: u32 = sp;
    while n >= 26
        invariant
            spacers_fit(rune as nat, sp as nat) == spacers_fit(n as nat, s as nat),
        decreases n,
    {
        s = s / 2;
        n = (n - 26) / 26;
    }
    s == 0
}

/// Whether any etching-related tag was present, which signals that an
/// etching is being attempted.
pub open spec fn etching_attempted(fs: Fields) -> bool {
    fs.divisibility is Some || fs.premine is Some || fs.rune is Some || fs.spacers is Some
        || fs.symbol is Some || fs.cap is Some || fs.amount is Some || fs.height_start is Some
        || fs.height_end is Some || fs.offset_start is Some || fs.offset_end is Some
        || fs.turbo is Some
}

/// A 64-bit bound taken from a raw field value; out-of-range values are
/// dropped here and flagged by `etching_flaws`.
pub open spec fn bound64(o: Option<u128>) -> Option<u64> {
    match o {
        Some(v) => if v <= u64::MAX {
            Some(v as u64)
        } else {
            None
        },
        None => None,
    }
}

/// The flaws that validating the etching fields adds to `flaws`:
/// a divisibility above 38, a symbol that is no Unicode scalar value, a
/// spacer mask without a name or with bits past the name's boundaries, a
/// height or offset bound beyond 64 bits, and a total supply
/// (premine + cap * amount) beyond 128 bits.
pub open spec fn etching_flaws(fs: Fields, flaws: FlawSet) -> FlawSet {
    let f1 = if fs.divisibility matches Some(d) && d > 38 {
        flaws.with(Flaw::InvalidDivisibility)
    } else {
        flaws
    };
    let f2 = if fs.symbol matches Some(s) && !is_scalar_value(s as nat) {
        f1.with(Flaw::InvalidSymbol)
    } else {
        f1
    };
    let f3 = if fs.spacers matches Some(sp) && (match fs.rune {
        Some(r) => sp > u32::MAX || !spacers_fit(r as nat, sp as nat),
        None => true,
    }) {
        f2.with(Flaw::InvalidSpacers)
    } else {
        f2
    };
    let f4 = if (fs.height_start matches Some(v) && v > u64::MAX) || (fs.height_end matches Some(v)
        && v > u64::MAX) || (fs.offset_start matches Some(v) && v > u64::MAX) || (
    fs.offset_end matches Some(v) && v > u64::MAX) {
        f3.with(Flaw::Overflow)
    } else {
        f3
    };
    let premine = match fs.premine {
        Some(p) => p as nat,
        None => 0,
    };
    let cap = match fs.cap {
        Some(c) => c as nat,
        None => 0,
    };
    let amount = match fs.amount {
        Some(a) => a as nat,
        None => 0,
    };
    if premine + cap * amount > u128::MAX {
        f4.with(Flaw::SupplyOverflow)
    } else {
        f4
    }
}

/// The etching that the fields describe, when any etching tag is present.
/// Individually invalid values are left absent; the cenotaph policy
/// guarantees the etching is only ever surfaced when no flaw was recorded,
/// so a surfaced etching holds every present field, validated.
pub open spec fn assembled_etching(fs: Fields) -> Option<Etching> {
    if etching_attempted(fs) {
        Some(
            Etching {
                divisibility: match fs.divisibility {
                    Some(d) => if d <= 38 {
                        Some(d as u8)
                    } else {
                        None
                    },
                    None => None,
                },
                premine: fs.premine,
                rune: fs.rune,
                spacers: match fs.spacers {
                    Some(sp) => if sp <= u32::MAX {
                        Some(sp as u32)
                    } else {
                        None
                    },
                    None => None,
                },
                symbol: match fs.symbol {
                    Some(s) => if is_scalar_value(s as nat) {
                        Some(s as u32)
                    } else {
                        None
                    },
                    None => None,
                },
                terms: if fs.cap is Some || fs.amount is Some {
                    Some(
                        Terms {
                            amount: fs.amount,
                            cap: fs.cap,
                            height: BlockRange {
                                start: bound64(fs.height_start),
                                end: bound64(fs.height_end),
                            },
                            offset: BlockRange {
                                start: bound64(fs.offset_start),
                                end: bound64(fs.offset_end),
                            },
                        },
                    )
                } else {
                    None
                },
                turbo: fs.turbo matches Some(t) && t != 0,
            },
        )
    } else {
        None
    }
}

/// Executable twin of `bound64`.
pub fn take_bound64(o: Option<u128>) -> (r: Option<u64>)
    ensures
        r == bound64(o),
{
    match o {
        Some(v) => if v <= u64::MAX as u128 {
            Some(v as u64)
        } else {
            None
        },
        None => None,
    }
}

/// Validates the etching fields and assembles the descriptor; the returned
/// set extends `flaws` exactly by the validation flaws.
pub fn assemble_etching(fs: &Fields, flaws: FlawSet) -> (r: (Option<Etching>, FlawSet))
    ensures
        r.0 == assembled_etching(*fs),
        r.1 == etching_flaws(*fs, flaws),
{
    let mut fl = flaws;
    if let Some(d) = fs.divisibility {
        if d > 38 {
            fl.note(Flaw::InvalidDivisibility);
        }
    }
    if let Some(s) = fs.symbol {
        if !(s < 0xD800 || (0xE000 <= s && s <= 0x10FFFF)) {
            fl.note(Flaw::InvalidSymbol);
        }
    }
    if let Some(sp) = fs.spacers {
        let bad = match fs.rune {
            None => true,
            Some(r) => sp > u32::MAX as u128 || !spacers_fit_check(r, sp as u32),
        };
        if bad {
            fl.note(Flaw::InvalidSpacers);
        }
    }
    let big64 = |o: &Option<u128>| -> (r: bool)
        ensures
            r == (o matches Some(v) && v > u64::MAX),
        {
            match o {
                Some(v) => *v > u64::MAX as u128,
                None => false,
            }
        };
    if big64(&fs.height_start) || big64(&fs.height_end) || big64(&fs.offset_start) || big64(
        &fs.offset_end,
    ) {
        fl.note(Flaw::Overflow);
    }
    let premine = match fs.premine {
        Some(p) => p,
        None => 0,
    };
    let cap = match fs.cap {
        Some(c) => c,
        None => 0,
    };
    let amount = match fs.amount {
        Some(a) => a,
        None => 0,
    };
    let supply_ok = match cap.checked_mul(amount) {
        None => false,
        Some(minted) => premine.checked_add(minted).is_some(),
    };
    if !supply_ok {
        fl.note(Flaw::SupplyOverflow);
    }
    let etching = if fs.divisibility.is_some() || fs.premine.is_some() || fs.rune.is_some()
        || fs.spacers.is_some() || fs.symbol.is_some() || fs.cap.is_some() || fs.amount.is_some()
        || fs.height_start.is_some() || fs.height_end.is_some() || fs.offset_start.is_some()
        || fs.offset_end.is_some() || fs.turbo.is_some() {
        Some(
            Etching {
                divisibility: match fs.divisibility {
                    Some(d) => if d <= 38 {
                        Some(d as u8)
                    } else {
                        None
                    },
                    None => None,
                },
                premine: fs.premine,
                rune: fs.rune,
                spacers: match fs.spacers {
                    Some(sp) => if sp <= u32::MAX as u128 {
                        Some(sp as u32)
                    } else {
                        None
                    },
                    None => None,
                },
                symbol: match fs.symbol {
                    Some(s) => if s < 0xD800 || (0xE000 <= s && s <= 0x10FFFF) {
                        Some(s as u32)
                    } else {
                        None
                    },
                    None => None,
                },
                terms: if fs.cap.is_some() || fs.amount.is_some() {
                    Some(
                        Terms {
                            amount: fs.amount,
                            cap: fs.cap,
                            height: BlockRange {
                                start: take_bound64(fs.height_start),
                                end: take_bound64(fs.height_end),
                            },
                            offset: BlockRange {
                                start: take_bound64(fs.offset_start),
                                end: take_bound64(fs.offset_end),
                            },
                        },
                    )
                } else {
                    None
                },
                turbo: match fs.turbo {
                    Some(t) => t != 0,
                    None => false,
                },
            },
        )
    } else {
        None
    };
    (etching, fl)
}

} // verus!
