//! The value objects of the protocol: identifiers, edicts, etchings, the
//! decoded operation, and the flaw taxonomy of malformed payloads.

use vstd::prelude::*;

verus! {

/// One reason a payload is malformed. Decoding never fails with an error:
/// every flaw is recorded and the payload is classified as a cenotaph.
#[derive(Clone, Copy, PartialEq, Eq, Structural, Debug)]
pub enum Flaw {
    /// The byte stream ended before a variable-length integer terminated.
    Truncated,
    /// An integer needed more than 128 bits, or an identifier sum overflowed.
    Overflow,
    /// A field tag stood at the end of the stream without a paired value.
    TrailingTag,
    /// The edict body was not a whole number of (delta, amount, output) runs.
    TruncatedEdict,
    /// An odd (structural) tag other than the body tag appeared.
    UnrecognizedMandatoryTag,
    /// A divisibility above 38.
    InvalidDivisibility,
    /// A symbol value that is not a single Unicode scalar value.
    InvalidSymbol,
    /// A spacer mask with bits outside the letter boundaries of the name,
    /// or spacers given without a name.
    InvalidSpacers,
    /// Premine plus cap times amount exceeds 128 bits.
    SupplyOverflow,
    /// A data push whose announced length runs past the end of the script.
    InvalidScript,
    /// An edict output index beyond the carrying transaction's output count.
    EdictOutput,
}

/// The set of flaws gathered while decoding one payload, one flag per kind.
#[derive(Clone, Copy, PartialEq, Eq, Structural, Debug)]
pub struct FlawSet {
    pub truncated: bool,
    pub overflow: bool,
    pub trailing_tag: bool,
    pub truncated_edict: bool,
    pub unrecognized_mandatory_tag: bool,
    pub invalid_divisibility: bool,
    pub invalid_symbol: bool,
    pub invalid_spacers: bool,
    pub supply_overflow: bool,
    pub invalid_script: bool,
    pub edict_output: bool,
}

impl FlawSet {
    pub open spec fn spec_empty() -> FlawSet {
        FlawSet {
            truncated: false,
            overflow: false,
            trailing_tag: false,
            truncated_edict: false,
            unrecognized_mandatory_tag: false,
            invalid_divisibility: false,
            invalid_symbol: false,
            invalid_spacers: false,
            supply_overflow: false,
            invalid_script: false,
            edict_output: false,
        }
    }

    pub fn empty() -> (r: FlawSet)
        ensures
            r == FlawSet::spec_empty(),
    {
        FlawSet {
            truncated: false,
            overflow: false,
            trailing_tag: false,
            truncated_edict: false,
            unrecognized_mandatory_tag: false,
            invalid_divisibility: false,
            invalid_symbol: false,
            invalid_spacers: false,
            supply_overflow: false,
            invalid_script: false,
            edict_output: false,
        }
    }

    /// Whether any flaw at all was recorded.
    pub open spec fn any(self) -> bool {
        self.truncated || self.overflow || self.trailing_tag || self.truncated_edict
            || self.unrecognized_mandatory_tag || self.invalid_divisibility
            || self.invalid_symbol || self.invalid_spacers || self.supply_overflow
            || self.invalid_script || self.edict_output
    }

    pub fn has_any(&self) -> (r: bool)
        ensures
            r == self.any(),
    {
        self.truncated || self.overflow || self.trailing_tag || self.truncated_edict
            || self.unrecognized_mandatory_tag || self.invalid_divisibility
            || self.invalid_symbol || self.invalid_spacers || self.supply_overflow
            || self.invalid_script || self.edict_output
    }

    /// The set with one more flaw marked.
    pub open spec fn with(self, f: Flaw) -> FlawSet {
        match f {
            Flaw::Truncated => FlawSet { truncated: true, ..self },
            Flaw::Overflow => FlawSet { overflow: true, ..self },
            Flaw::TrailingTag => FlawSet { trailing_tag: true, ..self },
            Flaw::TruncatedEdict => FlawSet { truncated_edict: true, ..self },
            Flaw::UnrecognizedMandatoryTag => FlawSet { unrecognized_mandatory_tag: true, ..self },
            Flaw::InvalidDivisibility => FlawSet { invalid_divisibility: true, ..self },
            Flaw::InvalidSymbol => FlawSet { invalid_symbol: true, ..self },
            Flaw::InvalidSpacers => FlawSet { invalid_spacers: true, ..self },
            Flaw::SupplyOverflow => FlawSet { supply_overflow: true, ..self },
            Flaw::InvalidScript => FlawSet { invalid_script: true, ..self },
            Flaw::EdictOutput => FlawSet { edict_output: true, ..self },
        }
    }

    /// Marks one more flaw.
    pub fn note(&mut self, f: Flaw)
        ensures
            *final(self) == old(self).with(f),
    {
        match f {
            Flaw::Truncated => self.truncated = true,
            Flaw::Overflow => self.overflow = true,
            Flaw::TrailingTag => self.trailing_tag = true,
            Flaw::TruncatedEdict => self.truncated_edict = true,
            Flaw::UnrecognizedMandatoryTag => self.unrecognized_mandatory_tag = true,
            Flaw::InvalidDivisibility => self.invalid_divisibility = true,
            Flaw::InvalidSymbol => self.invalid_symbol = true,
            Flaw::InvalidSpacers => self.invalid_spacers = true,
            Flaw::SupplyOverflow => self.supply_overflow = true,
            Flaw::InvalidScript => self.invalid_script = true,
            Flaw::EdictOutput => self.edict_output = true,
        }
    }
}

/// A token identifier: the block and intra-block index of its defining
/// transaction. The pair (0, 0) inside an edict stands for the token being
/// etched by the same operation.
#[derive(Clone, Copy, PartialEq, Eq, Structural, Debug)]
pub struct RuneId {
    pub block: u64,
    pub tx: u32,
}

impl RuneId {
    /// Ascending order on identifiers: by block, then by index.
    pub open spec fn le(self, other: RuneId) -> bool {
        self.block < other.block || (self.block == other.block && self.tx <= other.tx)
    }
}

/// One transfer instruction: move `amount` of the token `id` to the
/// transaction output `output`.
#[derive(Clone, Copy, PartialEq, Eq, Structural, Debug)]
pub struct Edict {
    pub id: RuneId,
    pub amount: u128,
    pub output: u32,
}

/// A pair of optional bounds on block height, inclusive start and exclusive
/// end, each independently absent.
#[derive(Clone, Copy, PartialEq, Eq, Debug)]
pub struct BlockRange {
    pub start: Option<u64>,
    pub end: Option<u64>,
}

/// The minting rules of an etching: per-mint amount, total cap, and two
/// ranges bounding when minting is open (absolute height, and height
/// relative to the etching block).
#[derive(Clone, Copy, PartialEq, Eq, Debug)]
pub struct Terms {
    pub amount: Option<u128>,
    pub cap: Option<u128>,
    pub height: BlockRange,
    pub offset: BlockRange,
}

/// The descriptor that creates a new token: its name as a base-26 number
/// with a spacer bitmask, display properties, premine, and minting terms.
#[derive(Clone, Copy, PartialEq, Eq, Debug)]
pub struct Etching {
    pub divisibility: Option<u8>,
    pub premine: Option<u128>,
    pub rune: Option<u128>,
    pub spacers: Option<u32>,
    /// The symbol as a Unicode scalar value.
    pub symbol: Option<u32>,
    pub terms: Option<Terms>,
    pub turbo: bool,
}

/// A well-formed decoded operation.
#[derive(Clone, PartialEq, Eq, Debug)]
pub struct Runestone {
    pub edicts: Vec<Edict>,
    pub etching: Option<Etching>,
    pub mint: Option<RuneId>,
    pub pointer: Option<u32>,
}

/// The classification of a malformed payload. It carries only the flaw set:
/// a cenotaph never surfaces an etching, edicts, or a mint reference, so no
/// recognized malformation can partially apply value-creating effects.
#[derive(Clone, Copy, PartialEq, Eq, Structural, Debug)]
pub struct Cenotaph {
    pub flaws: FlawSet,
}

/// The outcome of decoding a payload: a well-formed operation or a cenotaph.
#[derive(Clone, PartialEq, Eq, Debug)]
pub enum Artifact {
    Runestone(Runestone),
    Cenotaph(Cenotaph),
}

} // verus!
