//! The tag stream: the decoded integers read as alternating (tag, value)
//! pairs. Even tags carry fields and unknown even tags are tolerated for
//! forward compatibility; odd tags are structural, and the only recognized
//! one, the body tag, switches the rest of the stream to edict runs.

use vstd::prelude::*;

use crate::model::{Flaw, FlawSet};

verus! {

/// The structural tag that starts the edict body.
pub const TAG_BODY: u128 = 1;

pub const TAG_DIVISIBILITY: u128 = 2;

pub const TAG_PREMINE: u128 = 4;

pub const TAG_RUNE: u128 = 6;

pub const TAG_SPACERS: u128 = 8;

pub const TAG_SYMBOL: u128 = 10;

pub const TAG_CAP: u128 = 12;

pub const TAG_AMOUNT: u128 = 14;

pub const TAG_HEIGHT_START: u128 = 16;

pub const TAG_HEIGHT_END: u128 = 18;

pub const TAG_OFFSET_START: u128 = 20;

pub const TAG_OFFSET_END: u128 = 22;

pub const TAG_TURBO: u128 = 24;

pub const TAG_POINTER: u128 = 26;

pub const TAG_MINT: u128 = 28;

/// The raw field values collected from the tag stream, before validation.
/// Each recognized tag keeps its first occurrence only.
#[derive(Clone, Copy, PartialEq, Eq, Debug)]
pub struct Fields {
    pub divisibility: Option<u128>,
    pub premine: Option<u128>,
    pub rune: Option<u128>,
    pub spacers: Option<u128>,
    pub symbol: Option<u128>,
    pub cap: Option<u128>,
    pub amount: Option<u128>,
    pub height_start: Option<u128>,
    pub height_end: Option<u128>,
    pub offset_start: Option<u128>,
    pub offset_end: Option<u128>,
    pub turbo: Option<u128>,
    pub pointer: Option<u128>,
    pub mint: Option<u128>,
}

impl Fields {
    pub open spec fn spec_empty() -> Fields {
        Fields {
            divisibility: None,
            premine: None,
            rune: None,
            spacers: None,
            symbol: None,
            cap: None,
            amount: None,
            height_start: None,
            height_end: None,
            offset_start: None,
            offset_end: None,
            turbo: None,
            pointer: None,
            mint: None,
        }
    }

    pub fn empty() -> (r: Fields)
        ensures
            r == Fields::spec_empty(),
    {
        Fields {
            divisibility: None,
            premine: None,
            rune: None,
            spacers: None,
            symbol: None,
            cap: None,
            amount: None,
            height_start: None,
            height_end: None,
            offset_start: None,
            offset_end: None,
            turbo: None,
            pointer: None,
            mint: None,
        }
    }

    /// Records one (tag, value) pair: a recognized even tag fills its field
    /// if it is still empty (a repeated tag is an ignorable duplicate), and
    /// an unrecognized even tag is tolerated unchanged.
    pub open spec fn record(self, tag: u128, value: u128) -> Fields {
        if tag == TAG_DIVISIBILITY {
            if self.divisibility is None {
                Fields { divisibility: Some(value), ..self }
            } else {
                self
            }
        } else if tag == TAG_PREMINE {
            if self.premine is None {
                Fields { premine: Some(value), ..self }
            } else {
                self
            }
        } else if tag == TAG_RUNE {
            if self.rune is None {
                Fields { rune: Some(value), ..self }
            } else {
                self
            }
        } else if tag == TAG_SPACERS {
            if self.spacers is None {
                Fields { spacers: Some(value), ..self }
            } else {
                self
            }
        } else if tag == TAG_SYMBOL {
            if self.symbol is None {
                Fields { symbol: Some(value), ..self }
            } else {
                self
            }
        } else if tag == TAG_CAP {
            if self.cap is None {
                Fields { cap: Some(value), ..self }
            } else {
                self
            }
        } else if tag == TAG_AMOUNT {
            if self.amount is None {
                Fields { amount: Some(value), ..self }
            } else {
                self
            }
        } else if tag == TAG_HEIGHT_START {
            if self.height_start is None {
                Fields { height_start: Some(value), ..self }
            } else {
                self
            }
        } else if tag == TAG_HEIGHT_END {
            if self.height_end is None {
                Fields { height_end: Some(value), ..self }
            } else {
                self
            }
        } else if tag == TAG_OFFSET_START {
            if self.offset_start is None {
                Fields { offset_start: Some(value), ..self }
            } else {
                self
            }
        } else if tag == TAG_OFFSET_END {
            if self.offset_end is None {
                Fields { offset_end: Some(value), ..self }
            } else {
                self
            }
        } else if tag == TAG_TURBO {
            if self.turbo is None {
                Fields { turbo: Some(value), ..self }
            } else {
                self
            }
        } else if tag == TAG_POINTER {
            if self.pointer is None {
                Fields { pointer: Some(value), ..self }
            } else {
                self
            }
        } else if tag == TAG_MINT {
            if self.mint is None {
                Fields { mint: Some(value), ..self }
            } else {
                self
            }
        } else {
            self
        }
    }

    /// Executable twin of `record`.
    pub fn note(self, tag: u128, value: u128) -> (r: Fields)
        ensures
            r == self.record(tag, value),
    {
        if tag == TAG_DIVISIBILITY {
            if self.divisibility.is_none() {
                Fields { divisibility: Some(value), ..self }
            } else {
                self
            }
        } else if tag == TAG_PREMINE {
            if self.premine.is_none() {
                Fields { premine: Some(value), ..self }
            } else {
                self
            }
        } else if tag == TAG_RUNE {
            if self.rune.is_none() {
                Fields { rune: Some(value), ..self }
            } else {
                self
            }
        } else if tag == TAG_SPACERS {
            if self.spacers.is_none() {
                Fields { spacers: Some(value), ..self }
            } else {
                self
            }
        } else if tag == TAG_SYMBOL {
            if self.symbol.is_none() {
                Fields { symbol: Some(value), ..self }
            } else {
                self
            }
        } else if tag == TAG_CAP {
            if self.cap.is_none() {
                Fields { cap: Some(value), ..self }
            } else {
                self
            }
        } else if tag == TAG_AMOUNT {
            if self.amount.is_none() {
                Fields { amount: Some(value), ..self }
            } else {
                self
            }
        } else if tag == TAG_HEIGHT_START {
            if self.height_start.is_none() {
                Fields { height_start: Some(value), ..self }
            } else {
                self
            }
        } else if tag == TAG_HEIGHT_END {
            if self.height_end.is_none() {
                Fields { height_end: Some(value), ..self }
            } else {
                self
            }
        } else if tag == TAG_OFFSET_START {
            if self.offset_start.is_none() {
                Fields { offset_start: Some(value), ..self }
            } else {
                self
            }
        } else if tag == TAG_OFFSET_END {
            if self.offset_end.is_none() {
                Fields { offset_end: Some(value), ..self }
            } else {
                self
            }
        } else if tag == TAG_TURBO {
            if self.turbo.is_none() {
                Fields { turbo: Some(value), ..self }
            } else {
                self
            }
        } else if tag == TAG_POINTER {
            if self.pointer.is_none() {
                Fields { pointer: Some(value), ..self }
            } else {
                self
            }
        } else if tag == TAG_MINT {
            if self.mint.is_none() {
                Fields { mint: Some(value), ..self }
            } else {
                self
            }
        } else {
            self
        }
    }
}

/// Walks the integers from `i` as (tag, value) pairs, folding them into
/// `fs`, until the stream ends, the body tag appears (its position is
/// returned), an unrecognized odd tag appears (a flaw; parsing stops), or
/// a tag stands without a value (a trailing-tag flaw).
pub open spec fn parse_pairs(ints: Seq<u128>, i: nat, fs: Fields, flaws: FlawSet) -> (
    Fields,
    FlawSet,
    Option<nat>,
)
    decreases ints.len() - i,
{
    if i >= ints.len() {
        (fs, flaws, None::<nat>)
    } else if ints[i as int] == TAG_BODY {
        (fs, flaws, Some((i + 1) as nat))
    } else if ints[i as int] % 2 == 1 {
        (fs, flaws.with(Flaw::UnrecognizedMandatoryTag), None::<nat>)
    } else if i + 1 >= ints.len() {
        (fs, flaws.with(Flaw::TrailingTag), None::<nat>)
    } else {
        parse_pairs(ints, (i + 2) as nat, fs.record(ints[i as int], ints[i + 1int]), flaws)
    }
}

/// Executable twin of `parse_pairs`. The third component is the index just
/// past the body tag, where the edict runs start.
pub fn parse_tag_stream(ints: &Vec<u128>, i: usize, fs: Fields, flaws: FlawSet) -> (r: (
    Fields,
    FlawSet,
    Option<usize>,
))
    requires
        i <= ints@.len(),
    ensures
        ({
            let (f2, fl2, b2) = parse_pairs(ints@, i as nat, fs, flaws);
            r.0 == f2 && r.1 == fl2 && (match (r.2, b2) {
                (Some(x), Some(y)) => x as nat == y && x <= ints@.len(),
                (None::<usize>, None::<nat>) => true,
                _ => false,
            })
        }),
    decreases ints@.len() - i,
{
    let len = ints.len();
    if i >= len {
        (fs, flaws, None)
    } else if ints[i] == TAG_BODY {
        (fs, flaws, Some(i + 1))
    } else if ints[i] % 2 == 1 {
        let mut fl = flaws;
        fl.note(Flaw::UnrecognizedMandatoryTag);
        (fs, fl, None)
    } else if i + 1 >= len {
        let mut fl = flaws;
        fl.note(Flaw::TrailingTag);
        (fs, fl, None)
    } else {
        parse_tag_stream(ints, i + 2, fs.note(ints[i], ints[i + 1]), flaws)
    }
}

} // verus!
