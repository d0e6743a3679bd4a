use vstd::prelude::*;
use crate::encoder::EncodingModes;
use crate::error_correction::CorrectionLevels;

verus! {

/// The encodings offered on the command line.
#[derive(Clone, Copy, Debug, PartialEq, Eq, Structural)]
pub enum CliEncoding {
    Numeric,
    AlphaNumeric,
    Byte,
    Kanji,
    Dynamic,
}

/// The correction levels offered on the command line.
#[derive(Clone, Copy, Debug, PartialEq, Eq, Structural)]
pub enum CliCorrectionLevels {
    DetectionOnly,
    L,
    M,
    Q,
    H,
}

/// The command line: encoding, correction level, optional version and the
/// payload.
#[derive(Clone, Debug)]
pub struct Cli {
    pub encoding: CliEncoding,
    pub correction_level: CliCorrectionLevels,
    pub version: Option<u32>,
    pub data: String,
}

impl CliEncoding {
    pub open spec fn mode_spec(self) -> EncodingModes {
        match self {
            CliEncoding::Numeric => EncodingModes::Numeric,
            CliEncoding::AlphaNumeric => EncodingModes::AlphaNumeric,
            CliEncoding::Byte => EncodingModes::Byte,
            CliEncoding::Kanji => EncodingModes::Kanji,
            CliEncoding::Dynamic => EncodingModes::Dynamic,
        }
    }

    /// The library's mode of the same name.
    pub fn to_mode(self) -> (r: EncodingModes)
        ensures
            r == (match self {
                CliEncoding::Numeric => EncodingModes::Numeric,
                CliEncoding::AlphaNumeric => EncodingModes::AlphaNumeric,
                CliEncoding::Byte => EncodingModes::Byte,
                CliEncoding::Kanji => EncodingModes::Kanji,
                CliEncoding::Dynamic => EncodingModes::Dynamic,
            }),
    {
        match self {
            CliEncoding::Numeric => EncodingModes::Numeric,
            CliEncoding::AlphaNumeric => EncodingModes::AlphaNumeric,
            CliEncoding::Byte => EncodingModes::Byte,
            CliEncoding::Kanji => EncodingModes::Kanji,
            CliEncoding::Dynamic => EncodingModes::Dynamic,
        }
    }

    /// The command-line encoding of the same name.
    pub fn from_mode(mode: EncodingModes) -> (r: Self)
        ensures
            r.mode_spec() == mode,
    {
        match mode {
            EncodingModes::Numeric => CliEncoding::Numeric,
            EncodingModes::AlphaNumeric => CliEncoding::AlphaNumeric,
            EncodingModes::Byte => CliEncoding::Byte,
            EncodingModes::Kanji => CliEncoding::Kanji,
            EncodingModes::Dynamic => CliEncoding::Dynamic,
        }
    }
}

impl CliCorrectionLevels {
    pub open spec fn level_spec(self) -> CorrectionLevels {
        match self {
            CliCorrectionLevels::DetectionOnly => CorrectionLevels::DetectionOnly,
            CliCorrectionLevels::L => CorrectionLevels::L,
            CliCorrectionLevels::M => CorrectionLevels::M,
            CliCorrectionLevels::Q => CorrectionLevels::Q,
            CliCorrectionLevels::H => CorrectionLevels::H,
        }
    }

    /// The library's level of the same name.
    pub fn to_level(self) -> (r: CorrectionLevels)
        ensures
            r == (match self {
                CliCorrectionLevels::DetectionOnly => CorrectionLevels::DetectionOnly,
                CliCorrectionLevels::L => CorrectionLevels::L,
                CliCorrectionLevels::M => CorrectionLevels::M,
                CliCorrectionLevels::Q => CorrectionLevels::Q,
                CliCorrectionLevels::H => CorrectionLevels::H,
            }),
    {
        match self {
            CliCorrectionLevels::DetectionOnly => CorrectionLevels::DetectionOnly,
            CliCorrectionLevels::L => CorrectionLevels::L,
            CliCorrectionLevels::M => CorrectionLevels::M,
            CliCorrectionLevels::Q => CorrectionLevels::Q,
            CliCorrectionLevels::H => CorrectionLevels::H,
        }
    }

    /// The command-line level of the same name.
    pub fn from_level(level: CorrectionLevels) -> (r: Self)
        ensures
            r.level_spec() == level,
    {
        match level {
            CorrectionLevels::DetectionOnly => CliCorrectionLevels::DetectionOnly,
            CorrectionLevels::L => CliCorrectionLevels::L,
            CorrectionLevels::M => CliCorrectionLevels::M,
            CorrectionLevels::Q => CliCorrectionLevels::Q,
            CorrectionLevels::H => CliCorrectionLevels::H,
        }
    }
}

} // verus!
