use vstd::prelude::*;
use crate::encoder::EncodingModes;
use crate::error_correction::CorrectionLevels;
use crate::qr_errors::{EncodingError, ErrorKind};
use crate::qr_types::QRSymbolTypes;
use crate::generator::Options;

verus! {

/// Error-correction codewords per block, by level (L, M, Q, H) and
/// Standard version (ISO/IEC 18004, Table 9).
pub const ECC_CODEWORDS_PER_BLOCK: [[u32; 40]; 4] = [
    [7, 10, 15, 20, 26, 18, 20, 24, 30, 18, 20, 24, 26, 30, 22, 24, 28, 30, 28, 28, 28, 28, 30, 30, 26, 28, 30, 30, 30, 30, 30, 30, 30, 30, 30, 30, 30, 30, 30, 30],
    [10, 16, 26, 18, 24, 16, 18, 22, 22, 26, 30, 22, 22, 24, 24, 28, 28, 26, 26, 26, 26, 28, 28, 28, 28, 28, 28, 28, 28, 28, 28, 28, 28, 28, 28, 28, 28, 28, 28, 28],
    [13, 22, 18, 26, 18, 24, 18, 22, 20, 24, 28, 26, 24, 20, 30, 24, 28, 28, 26, 30, 28, 30, 30, 30, 30, 28, 30, 30, 30, 30, 30, 30, 30, 30, 30, 30, 30, 30, 30, 30],
    [17, 28, 22, 16, 22, 28, 26, 26, 24, 28, 24, 28, 22, 24, 24, 30, 28, 28, 26, 28, 30, 24, 30, 30, 30, 30, 30, 30, 30, 30, 30, 30, 30, 30, 30, 30, 30, 30, 30, 30],
];

/// Error-correction blocks, by level (L, M, Q, H) and Standard version.
pub const NUM_EC_BLOCKS: [[u32; 40]; 4] = [
    [1, 1, 1, 1, 1, 2, 2, 2, 2, 4, 4, 4, 4, 4, 6, 6, 6, 6, 7, 8, 8, 9, 9, 10, 12, 12, 12, 13, 14, 15, 16, 17, 18, 19, 19, 20, 21, 22, 24, 25],
    [1, 1, 1, 2, 2, 4, 4, 4, 5, 5, 5, 8, 9, 9, 10, 10, 11, 13, 14, 16, 17, 17, 18, 20, 21, 23, 25, 26, 28, 29, 31, 33, 35, 37, 38, 40, 43, 45, 47, 49],
    [1, 1, 2, 2, 4, 4, 6, 6, 8, 8, 8, 10, 12, 16, 12, 17, 16, 18, 21, 20, 23, 23, 25, 27, 29, 34, 34, 35, 38, 40, 43, 45, 48, 51, 53, 56, 59, 62, 65, 68],
    [1, 1, 2, 4, 4, 4, 5, 6, 8, 8, 11, 11, 16, 16, 18, 16, 19, 21, 25, 25, 25, 34, 30, 32, 35, 37, 40, 42, 45, 48, 51, 54, 57, 60, 63, 66, 70, 74, 77, 81],
];

/// The row of a Standard level in the tables.
pub open spec fn level_row(level: CorrectionLevels) -> int {
    match level {
        CorrectionLevels::L => 0,
        CorrectionLevels::M => 1,
        CorrectionLevels::Q => 2,
        _ => 3,
    }
}

/// All codewords of each Standard version (ISO/IEC 18004, Table 1).
pub const TOTAL_CODEWORDS: [u32; 40] = [
    26, 44, 70, 100, 134, 172, 196, 242, 292, 346, 404, 466, 532, 581, 655, 733, 815, 901, 991, 1085,
    1156, 1258, 1364, 1474, 1588, 1706, 1828, 1921, 2051, 2185, 2323, 2465, 2611, 2761, 2876, 3034, 3196, 3362, 3532, 3706,
];

/// All codewords of a Standard symbol.
pub open spec fn total_codewords(v: int) -> int {
    TOTAL_CODEWORDS@[v - 1] as int
}

/// `a - b`, or zero where `b` is larger.
pub open spec fn minus(a: int, b: int) -> int {
    if a >= b {
        a - b
    } else {
        0
    }
}

/// The (family, version, level) combinations that exist.
pub open spec fn supported(kind: QRSymbolTypes, v: int, level: CorrectionLevels) -> bool {
    match kind {
        QRSymbolTypes::QRCode => 1 <= v <= 40 && level != CorrectionLevels::DetectionOnly,
        QRSymbolTypes::MicroQRCode => (v == 1 && level == CorrectionLevels::DetectionOnly) || ((v == 2 || v == 3) && (
        level == CorrectionLevels::L || level == CorrectionLevels::M)) || (v == 4 && (level == CorrectionLevels::L
            || level == CorrectionLevels::M || level == CorrectionLevels::Q)),
    }
}

pub open spec fn ecc_per_block(v: int, level: CorrectionLevels) -> int {
    ECC_CODEWORDS_PER_BLOCK@[level_row(level)]@[v - 1] as int
}

pub open spec fn ec_blocks(v: int, level: CorrectionLevels) -> int {
    NUM_EC_BLOCKS@[level_row(level)]@[v - 1] as int
}

/// Micro symbols: (total codewords, data codewords).
pub open spec fn micro_shape(v: int, level: CorrectionLevels) -> (int, int) {
    if v == 1 {
        (5, 3)
    } else if v == 2 {
        if level == CorrectionLevels::L { (10, 5) } else { (10, 4) }
    } else if v == 3 {
        if level == CorrectionLevels::L { (17, 11) } else { (17, 9) }
    } else {
        if level == CorrectionLevels::L {
            (24, 16)
        } else if level == CorrectionLevels::M {
            (24, 14)
        } else {
            (24, 10)
        }
    }
}

/// Data codewords of a symbol.
pub open spec fn data_capacity(kind: QRSymbolTypes, v: int, level: CorrectionLevels) -> int {
    match kind {
        QRSymbolTypes::QRCode => minus(total_codewords(v), ecc_per_block(v, level) * ec_blocks(v, level)),
        QRSymbolTypes::MicroQRCode => micro_shape(v, level).1,
    }
}

/// Data bits of a symbol; M1 and M3 end in a four-bit codeword.
pub open spec fn capacity_bits(kind: QRSymbolTypes, v: int, level: CorrectionLevels) -> int {
    if kind == QRSymbolTypes::MicroQRCode && (v == 1 || v == 3) {
        8 * data_capacity(kind, v, level) - 4
    } else {
        8 * data_capacity(kind, v, level)
    }
}

/// The error-correction block shape: (total, data, count) triples.
pub open spec fn shape_spec(kind: QRSymbolTypes, v: int, level: CorrectionLevels) -> Seq<(usize, usize, usize)> {
    match kind {
        QRSymbolTypes::QRCode => {
            let total = total_codewords(v);
            let blocks = ec_blocks(v, level);
            let ecc = ecc_per_block(v, level);
            let short_len = if blocks > 0 { total / blocks } else { 0 };
            let long_count = if blocks > 0 { total % blocks } else { 0 };
            let short = (short_len as usize, minus(short_len, ecc) as usize, minus(blocks, long_count) as usize);
            let long = ((short_len + 1) as usize, minus(short_len + 1, ecc) as usize, long_count as usize);
            if long_count == 0 {
                seq![short]
            } else {
                seq![short, long]
            }
        },
        QRSymbolTypes::MicroQRCode => seq![(micro_shape(v, level).0 as usize, micro_shape(v, level).1 as usize, 1usize)],
    }
}

/// The width of the mode indicator.
pub open spec fn mode_bits(kind: QRSymbolTypes, v: int) -> int {
    match kind {
        QRSymbolTypes::QRCode => 4,
        QRSymbolTypes::MicroQRCode => v - 1,
    }
}

/// The width of the character-count indicator.
pub open spec fn count_bits(kind: QRSymbolTypes, mode: EncodingModes, v: int) -> int {
    match kind {
        QRSymbolTypes::QRCode => {
            let bucket = if v <= 9 { 0int } else if v <= 26 { 1int } else { 2int };
            match mode {
                EncodingModes::Numeric => 10 + 2 * bucket,
                EncodingModes::AlphaNumeric => 9 + 2 * bucket,
                EncodingModes::Kanji => 8 + 2 * bucket,
                _ => if bucket == 0 { 8 } else { 16 },
            }
        },
        QRSymbolTypes::MicroQRCode => match mode {
            EncodingModes::Numeric => v + 2,
            EncodingModes::Kanji => v,
            _ => v + 1,
        },
    }
}

/// Payload bits of `n` characters.
pub open spec fn payload_bits(mode: EncodingModes, n: int) -> int {
    match mode {
        EncodingModes::Numeric => 10 * (n / 3) + (if n % 3 == 2 { 7int } else if n % 3 == 1 { 4int } else { 0int }),
        EncodingModes::AlphaNumeric => 11 * (n / 2) + 6 * (n % 2),
        _ => 8 * n,
    }
}

/// The mode exists in the symbol: Micro M1 is numeric only, M2 has no byte
/// mode; Kanji is not implemented.
pub open spec fn mode_available(kind: QRSymbolTypes, mode: EncodingModes, v: int) -> bool {
    &&& mode != EncodingModes::Kanji
    &&& mode != EncodingModes::Dynamic
    &&& (kind == QRSymbolTypes::MicroQRCode ==> (v >= 2 || mode == EncodingModes::Numeric) && (v >= 3 || mode
        != EncodingModes::Byte))
}

/// `n` characters in `mode` fit a symbol of version `v`.
pub open spec fn fits(kind: QRSymbolTypes, mode: EncodingModes, n: int, v: int, level: CorrectionLevels) -> bool {
    &&& supported(kind, v, level)
    &&& mode_available(kind, mode, v)
    &&& mode_bits(kind, v) + count_bits(kind, mode, v) + payload_bits(mode, n) <= capacity_bits(kind, v, level)
}

pub open spec fn last_version(kind: QRSymbolTypes) -> int {
    match kind {
        QRSymbolTypes::QRCode => 40,
        QRSymbolTypes::MicroQRCode => 4,
    }
}

/// The smallest version that holds `n` characters, if any.
pub open spec fn smallest_fit(kind: QRSymbolTypes, mode: EncodingModes, n: int, level: CorrectionLevels, v: int) -> bool {
    &&& 1 <= v <= last_version(kind)
    &&& fits(kind, mode, n, v, level)
    &&& forall|w: int| 1 <= w < v ==> !#[trigger] fits(kind, mode, n, w, level)
}

/// Sizing options.
pub struct Sizer;

impl Sizer {
    fn level_index(level: &CorrectionLevels) -> (r: usize)
        requires
            *level != CorrectionLevels::DetectionOnly,
        ensures
            r == level_row(*level),
    {
        match level {
            CorrectionLevels::L => 0,
            CorrectionLevels::M => 1,
            CorrectionLevels::Q => 2,
            _ => 3,
        }
    }

    fn total_codewords(version: u32) -> (r: usize)
        requires
            1 <= version <= 40,
        ensures
            r == total_codewords(version as int),
    {
        TOTAL_CODEWORDS[(version - 1) as usize] as usize
    }

    /// Data codewords of a symbol; an unsupported (family, version,
    /// level) is refused.
    pub fn data_codeword_capacity(qr_type: &QRSymbolTypes, version: u32, correction: &CorrectionLevels) -> (r: Result<usize, EncodingError>)
        ensures
            supported(*qr_type, version as int, *correction) ==> r == Ok::<usize, EncodingError>(
                data_capacity(*qr_type, version as int, *correction) as usize,
            ),
            !supported(*qr_type, version as int, *correction) ==> r == Err::<usize, EncodingError>(
                EncodingError { kind: ErrorKind::UnsupportedConfiguration },
            ),
    {
        let ok = match qr_type {
            QRSymbolTypes::QRCode => 1 <= version && version <= 40 && *correction != CorrectionLevels::DetectionOnly,
            QRSymbolTypes::MicroQRCode => (version == 1 && *correction == CorrectionLevels::DetectionOnly) || ((version
                == 2 || version == 3) && (*correction == CorrectionLevels::L || *correction == CorrectionLevels::M)) || (
            version == 4 && (*correction == CorrectionLevels::L || *correction == CorrectionLevels::M || *correction
                == CorrectionLevels::Q)),
        };
        if ok {
            Ok(Self::capacity(qr_type, version, correction))
        } else {
            Err(EncodingError::new(ErrorKind::UnsupportedConfiguration))
        }
    }

    /// Data codewords of a symbol.
    pub(crate) fn capacity(qr_type: &QRSymbolTypes, version: u32, correction: &CorrectionLevels) -> (r: usize)
        requires
            supported(*qr_type, version as int, *correction),
        ensures
            r == data_capacity(*qr_type, version as int, *correction),
    {
        match qr_type {
            QRSymbolTypes::MicroQRCode => {
                if version == 1 {
                    3
                } else if version == 2 {
                    if *correction == CorrectionLevels::L { 5 } else { 4 }
                } else if version == 3 {
                    if *correction == CorrectionLevels::L { 11 } else { 9 }
                } else {
                    match correction {
                        CorrectionLevels::L => 16,
                        CorrectionLevels::M => 14,
                        _ => 10,
                    }
                }
            },
            QRSymbolTypes::QRCode => {
                let row = Self::level_index(correction);
                let ecc = ECC_CODEWORDS_PER_BLOCK[row][(version - 1) as usize] as usize;
                let blocks = NUM_EC_BLOCKS[row][(version - 1) as usize] as usize;
                let total = Self::total_codewords(version);
                proof {
                    assert((ecc as int) * (blocks as int) <= 0xFFFF_FFFF_FFFF_FFFFint) by (nonlinear_arith)
                        requires ecc <= 0xFFFF_FFFFint, blocks <= 0xFFFF_FFFFint;
                }
                let used = ecc as u64 * blocks as u64;
                if total as u64 >= used {
                    total - used as usize
                } else {
                    0
                }
            },
        }
    }

    /// The error-correction block shape: (total, data, count) triples, the
    /// shorter blocks first.
    #[verifier::spinoff_prover]
    #[verifier::rlimit(30)]
    pub fn error_correction_shape(qr_type: &QRSymbolTypes, version: u32, correction: &CorrectionLevels) -> (r: Vec<(usize, usize, usize)>)
        requires
            supported(*qr_type, version as int, *correction),
        ensures
            r@ == shape_spec(*qr_type, version as int, *correction),
    {
        match qr_type {
            QRSymbolTypes::MicroQRCode => {
                let data = Self::capacity(qr_type, version, correction);
                let total: usize = if version == 1 { 5 } else if version == 2 { 10 } else if version == 3 { 17 } else { 24 };
                vec![(total, data, 1)]
            },
            QRSymbolTypes::QRCode => {
                let row = Self::level_index(correction);
                let ecc = ECC_CODEWORDS_PER_BLOCK[row][(version - 1) as usize] as usize;
                let blocks = NUM_EC_BLOCKS[row][(version - 1) as usize] as usize;
                let total = Self::total_codewords(version);
                let short_len = if blocks > 0 { total / blocks } else { 0 };
                let long_count = if blocks > 0 { total % blocks } else { 0 };
                let short_data = if short_len >= ecc { short_len - ecc } else { 0 };
                let long_data = if short_len + 1 >= ecc { short_len + 1 - ecc } else { 0 };
                let short_count = if blocks >= long_count { blocks - long_count } else { 0 };
                let short = (short_len, short_data, short_count);
                let long = (short_len + 1, long_data, long_count);
                if long_count == 0 {
                    vec![short]
                } else {
                    vec![short, long]
                }
            },
        }
    }

    pub fn mode_bits(kind: QRSymbolTypes, v: u32) -> (r: u64)
        requires
            1 <= v <= last_version(kind),
        ensures
            r == mode_bits(kind, v as int),
    {
        match kind {
            QRSymbolTypes::QRCode => 4,
            QRSymbolTypes::MicroQRCode => (v - 1) as u64,
        }
    }

    pub fn count_bits(kind: QRSymbolTypes, mode: EncodingModes, v: u32) -> (r: u64)
        requires
            1 <= v <= last_version(kind),
        ensures
            r == count_bits(kind, mode, v as int),
    {
        match kind {
            QRSymbolTypes::QRCode => {
                let bucket: u64 = if v <= 9 { 0 } else if v <= 26 { 1 } else { 2 };
                match mode {
                    EncodingModes::Numeric => 10 + 2 * bucket,
                    EncodingModes::AlphaNumeric => 9 + 2 * bucket,
                    EncodingModes::Kanji => 8 + 2 * bucket,
                    _ => if bucket == 0 { 8 } else { 16 },
                }
            },
            QRSymbolTypes::MicroQRCode => match mode {
                EncodingModes::Numeric => v as u64 + 2,
                EncodingModes::Kanji => v as u64,
                _ => v as u64 + 1,
            },
        }
    }

    fn payload_bits(mode: EncodingModes, n: usize) -> (r: u128)
        ensures
            r == payload_bits(mode, n as int),
    {
        let n = n as u128;
        match mode {
            EncodingModes::Numeric => 10 * (n / 3) + (if n % 3 == 2 { 7 } else if n % 3 == 1 { 4 } else { 0 }),
            EncodingModes::AlphaNumeric => 11 * (n / 2) + 6 * (n % 2),
            _ => 8 * n,
        }
    }

    /// Whether `n` characters in `mode` fit version `v`.
    fn fits(kind: QRSymbolTypes, mode: EncodingModes, n: usize, v: u32, level: CorrectionLevels) -> (r: bool)
        requires
            1 <= v <= last_version(kind),
        ensures
            r == fits(kind, mode, n as int, v as int, level),
    {
        let ok_level = match kind {
            QRSymbolTypes::QRCode => level != CorrectionLevels::DetectionOnly,
            QRSymbolTypes::MicroQRCode => (v == 1 && level == CorrectionLevels::DetectionOnly) || ((v == 2 || v == 3)
                && (level == CorrectionLevels::L || level == CorrectionLevels::M)) || (v == 4 && (level
                == CorrectionLevels::L || level == CorrectionLevels::M || level == CorrectionLevels::Q)),
        };
        if !ok_level {
            return false;
        }
        let ok_mode = mode != EncodingModes::Kanji && mode != EncodingModes::Dynamic && (kind
            != QRSymbolTypes::MicroQRCode || ((v >= 2 || mode == EncodingModes::Numeric) && (v >= 3 || mode
            != EncodingModes::Byte)));
        if !ok_mode {
            return false;
        }
        let capacity = Self::capacity(&kind, v, &level) as u128;
        let cap_bits: u128 = if kind == QRSymbolTypes::MicroQRCode && (v == 1 || v == 3) {
            if capacity * 8 >= 4 { 8 * capacity - 4 } else { 0 }
        } else {
            8 * capacity
        };
        proof {
            assert(kind == QRSymbolTypes::MicroQRCode && (v == 1 || v == 3) ==> 8 * capacity >= 4) by {
                if kind == QRSymbolTypes::MicroQRCode && (v == 1 || v == 3) {
                    assert(capacity >= 3);
                }
            }
        }
        let need = Self::mode_bits(kind, v) as u128 + Self::count_bits(kind, mode, v) as u128 + Self::payload_bits(mode, n);
        need <= cap_bits
    }

    /// The smallest version of the family that holds `n` characters in
    /// `mode` at `level`.
    pub fn smallest_version(kind: QRSymbolTypes, mode: EncodingModes, n: usize, level: CorrectionLevels) -> (r: Option<u32>)
        ensures
            r matches Some(v) ==> smallest_fit(kind, mode, n as int, level, v as int),
            r is None ==> forall|v: int| 1 <= v <= last_version(kind) ==> !#[trigger] fits(kind, mode, n as int, v, level),
    {
        let last: u32 = match kind {
            QRSymbolTypes::QRCode => 40,
            QRSymbolTypes::MicroQRCode => 4,
        };
        let mut v: u32 = 1;
        while v <= last
            invariant
                last == last_version(kind),
                1 <= v <= last + 1,
                forall|w: int| 1 <= w < v ==> !#[trigger] fits(kind, mode, n as int, w, level),
            decreases last + 1 - v,
        {
            if Self::fits(kind, mode, n, v, level) {
                return Some(v);
            }
            v += 1;
        }
        None
    }

    /// The smallest Standard version for the payload in `mode` (Dynamic
    /// sizes as Byte): the level must not be detection-only, the payload not
    /// empty, and Kanji is not supported.
    pub fn calculate_standard_version(correction: &CorrectionLevels, mode: EncodingModes, data: &[u8]) -> (r: Result<u32, EncodingError>)
        ensures
            r == standard_version_result(*correction, mode, data@.len() as int),
    {
        let sized = if mode == EncodingModes::Dynamic { EncodingModes::Byte } else { mode };
        if *correction == CorrectionLevels::DetectionOnly || sized == EncodingModes::Kanji {
            return Err(EncodingError::new(ErrorKind::UnsupportedConfiguration));
        }
        if data.len() == 0 {
            return Err(EncodingError::new(ErrorKind::InputEmpty));
        }
        match Self::smallest_version(QRSymbolTypes::QRCode, sized, data.len(), *correction) {
            Some(v) => {
                proof {
                    lemma_smallest_unique(QRSymbolTypes::QRCode, sized, data@.len() as int, *correction, v as int);
                }
                Ok(v)
            },
            None => Err(EncodingError::new(ErrorKind::OverCapacity)),
        }
    }

    pub fn calculate_standard_numeric_version(correction: &CorrectionLevels, data: &[u8]) -> (r: Result<u32, EncodingError>)
        ensures
            r == standard_version_result(*correction, EncodingModes::Numeric, data@.len() as int),
    {
        Self::calculate_standard_version(correction, EncodingModes::Numeric, data)
    }

    pub fn calculate_standard_alphanumeric_version(correction: &CorrectionLevels, data: &[u8]) -> (r: Result<u32, EncodingError>)
        ensures
            r == standard_version_result(*correction, EncodingModes::AlphaNumeric, data@.len() as int),
    {
        Self::calculate_standard_version(correction, EncodingModes::AlphaNumeric, data)
    }

    pub fn calculate_standard_byte_version(correction: &CorrectionLevels, data: &[u8]) -> (r: Result<u32, EncodingError>)
        ensures
            r == standard_version_result(*correction, EncodingModes::Byte, data@.len() as int),
    {
        Self::calculate_standard_version(correction, EncodingModes::Byte, data)
    }

    /// Kanji is not supported.
    pub fn calculate_standard_kanji_version(correction: &CorrectionLevels, data: &[u8]) -> (r: Result<u32, EncodingError>)
        ensures
            r == Err::<u32, EncodingError>(EncodingError { kind: ErrorKind::UnsupportedConfiguration }),
    {
        Err(EncodingError::new(ErrorKind::UnsupportedConfiguration))
    }

    /// The smallest Micro version for the payload in `mode` (Dynamic sizes as
    /// Byte). Detection-only means M1, which takes digits only.
    pub fn calculate_micro_version(correction: &CorrectionLevels, mode: EncodingModes, data: &[u8]) -> (r: Result<u32, EncodingError>)
        ensures
            r == micro_version_result(*correction, mode, data@),
    {
        let sized = if *correction == CorrectionLevels::DetectionOnly {
            EncodingModes::Numeric
        } else if mode == EncodingModes::Dynamic {
            EncodingModes::Byte
        } else {
            mode
        };
        if sized == EncodingModes::Kanji || *correction == CorrectionLevels::H {
            return Err(EncodingError::new(ErrorKind::UnsupportedConfiguration));
        }
        if *correction == CorrectionLevels::DetectionOnly && !all_digits(data) {
            return Err(EncodingError::new(ErrorKind::ModeIncompatible));
        }
        match Self::smallest_version(QRSymbolTypes::MicroQRCode, sized, data.len(), *correction) {
            Some(v) => {
                proof {
                    lemma_smallest_unique(QRSymbolTypes::MicroQRCode, sized, data@.len() as int, *correction, v as int);
                }
                Ok(v)
            },
            None => Err(EncodingError::new(ErrorKind::OverCapacity)),
        }
    }

    /// The version for the options' family, level and mode.
    pub fn calculate_version(options: &Options, data: &[u8]) -> (r: Result<u32, EncodingError>)
        requires
            options.qr_type is Some,
            options.correction_level is Some,
        ensures
            r == (match options.qr_type->0 {
                QRSymbolTypes::MicroQRCode => micro_version_result(
                    options.correction_level->0,
                    options.mode.unwrap_or(EncodingModes::Dynamic),
                    data@,
                ),
                QRSymbolTypes::QRCode => standard_version_result(
                    options.correction_level->0,
                    options.mode.unwrap_or(EncodingModes::Dynamic),
                    data@.len() as int,
                ),
            }),
    {
        let correction = options.correction_level.unwrap();
        let mode = match options.mode {
            Some(m) => m,
            None => EncodingModes::Dynamic,
        };
        match options.qr_type.unwrap() {
            QRSymbolTypes::MicroQRCode => Self::calculate_micro_version(&correction, mode, data),
            QRSymbolTypes::QRCode => Self::calculate_standard_version(&correction, mode, data),
        }
    }
}

/// Every byte is an ASCII digit.
pub open spec fn digits_only(data: Seq<u8>) -> bool {
    forall|i: int| 0 <= i < data.len() ==> 48 <= #[trigger] data[i] <= 57
}

fn all_digits(data: &[u8]) -> (r: bool)
    ensures
        r == digits_only(data@),
{
    let mut i: usize = 0;
    while i < data.len()
        invariant
            i <= data@.len(),
            forall|k: int| 0 <= k < i ==> 48 <= #[trigger] data@[k] <= 57,
        decreases data@.len() - i,
    {
        if data[i] < 48 || data[i] > 57 {
            return false;
        }
        i += 1;
    }
    true
}

proof fn lemma_smallest_unique(kind: QRSymbolTypes, mode: EncodingModes, n: int, level: CorrectionLevels, v: int)
    requires
        smallest_fit(kind, mode, n, level, v),
    ensures
        (exists|w: int| smallest_fit(kind, mode, n, level, w)),
        forall|w: int| smallest_fit(kind, mode, n, level, w) ==> w == v,
{
    assert forall|w: int| smallest_fit(kind, mode, n, level, w) implies w == v by {
        if w < v {
            assert(!fits(kind, mode, n, w, level));
        } else if v < w {
            assert(!fits(kind, mode, n, v, level));
        }
    }
}

/// The smallest version that fits, where one does.
pub open spec fn first_fit(kind: QRSymbolTypes, mode: EncodingModes, n: int, level: CorrectionLevels) -> Result<u32, EncodingError> {
    if exists|v: int| smallest_fit(kind, mode, n, level, v) {
        Ok((choose|v: int| smallest_fit(kind, mode, n, level, v)) as u32)
    } else {
        Err(EncodingError { kind: ErrorKind::OverCapacity })
    }
}

/// What sizing a Standard symbol gives.
pub open spec fn standard_version_result(level: CorrectionLevels, mode: EncodingModes, n: int) -> Result<u32, EncodingError> {
    let sized = if mode == EncodingModes::Dynamic { EncodingModes::Byte } else { mode };
    if level == CorrectionLevels::DetectionOnly || sized == EncodingModes::Kanji {
        Err(EncodingError { kind: ErrorKind::UnsupportedConfiguration })
    } else if n == 0 {
        Err(EncodingError { kind: ErrorKind::InputEmpty })
    } else {
        first_fit(QRSymbolTypes::QRCode, sized, n, level)
    }
}

/// What sizing a Micro symbol gives.
pub open spec fn micro_version_result(level: CorrectionLevels, mode: EncodingModes, data: Seq<u8>) -> Result<u32, EncodingError> {
    let sized = if level == CorrectionLevels::DetectionOnly {
        EncodingModes::Numeric
    } else if mode == EncodingModes::Dynamic {
        EncodingModes::Byte
    } else {
        mode
    };
    if sized == EncodingModes::Kanji || level == CorrectionLevels::H {
        Err(EncodingError { kind: ErrorKind::UnsupportedConfiguration })
    } else if level == CorrectionLevels::DetectionOnly && !digits_only(data) {
        Err(EncodingError { kind: ErrorKind::ModeIncompatible })
    } else {
        first_fit(QRSymbolTypes::MicroQRCode, sized, data.len() as int, level)
    }
}

/// The facts about one Standard table entry that block filling relies on:
/// the error-correction codewords fit in the shorter blocks.
pub open spec fn table_entry_ok(row: int, v: int) -> bool {
    let blocks = NUM_EC_BLOCKS@[row]@[v - 1] as int;
    let ecc = ECC_CODEWORDS_PER_BLOCK@[row]@[v - 1] as int;
    let total = TOTAL_CODEWORDS@[v - 1] as int;
    &&& 1 <= blocks <= 81
    &&& 1 <= ecc <= 30
    &&& total <= 3706
    &&& total / blocks >= ecc
}

#[verifier::spinoff_prover]
proof fn lemma_table_row0(v: int)
    requires
        1 <= v <= 40,
    ensures
        table_entry_ok(0, v),
{
    if v == 1 {
        assert(table_entry_ok(0, 1));
    } else if v == 2 {
        assert(table_entry_ok(0, 2));
    } else if v == 3 {
        assert(table_entry_ok(0, 3));
    } else if v == 4 {
        assert(table_entry_ok(0, 4));
    } else if v == 5 {
        assert(table_entry_ok(0, 5));
    } else if v == 6 {
        assert(table_entry_ok(0, 6));
    } else if v == 7 {
        assert(table_entry_ok(0, 7));
    } else if v == 8 {
        assert(table_entry_ok(0, 8));
    } else if v == 9 {
        assert(table_entry_ok(0, 9));
    } else if v == 10 {
        assert(table_entry_ok(0, 10));
    } else if v == 11 {
        assert(table_entry_ok(0, 11));
    } else if v == 12 {
        assert(table_entry_ok(0, 12));
    } else if v == 13 {
        assert(table_entry_ok(0, 13));
    } else if v == 14 {
        assert(table_entry_ok(0, 14));
    } else if v == 15 {
        assert(table_entry_ok(0, 15));
    } else if v == 16 {
        assert(table_entry_ok(0, 16));
    } else if v == 17 {
        assert(table_entry_ok(0, 17));
    } else if v == 18 {
        assert(table_entry_ok(0, 18));
    } else if v == 19 {
        assert(table_entry_ok(0, 19));
    } else if v == 20 {
        assert(table_entry_ok(0, 20));
    } else if v == 21 {
        assert(table_entry_ok(0, 21));
    } else if v == 22 {
        assert(table_entry_ok(0, 22));
    } else if v == 23 {
        assert(table_entry_ok(0, 23));
    } else if v == 24 {
        assert(table_entry_ok(0, 24));
    } else if v == 25 {
        assert(table_entry_ok(0, 25));
    } else if v == 26 {
        assert(table_entry_ok(0, 26));
    } else if v == 27 {
        assert(table_entry_ok(0, 27));
    } else if v == 28 {
        assert(table_entry_ok(0, 28));
    } else if v == 29 {
        assert(table_entry_ok(0, 29));
    } else if v == 30 {
        assert(table_entry_ok(0, 30));
    } else if v == 31 {
        assert(table_entry_ok(0, 31));
    } else if v == 32 {
        assert(table_entry_ok(0, 32));
    } else if v == 33 {
        assert(table_entry_ok(0, 33));
    } else if v == 34 {
        assert(table_entry_ok(0, 34));
    } else if v == 35 {
        assert(table_entry_ok(0, 35));
    } else if v == 36 {
        assert(table_entry_ok(0, 36));
    } else if v == 37 {
        assert(table_entry_ok(0, 37));
    } else if v == 38 {
        assert(table_entry_ok(0, 38));
    } else if v == 39 {
        assert(table_entry_ok(0, 39));
    } else if v == 40 {
        assert(table_entry_ok(0, 40));
    }
}

/// The Standard tables' facts, for any level and version.
pub proof fn lemma_tables(level: CorrectionLevels, v: int)
    requires
        1 <= v <= 40,
        level != CorrectionLevels::DetectionOnly,
    ensures
        table_entry_ok(level_row(level), v),
{
    match level {
        CorrectionLevels::L => lemma_table_row0(v),
        CorrectionLevels::M => lemma_table_row1(v),
        CorrectionLevels::Q => lemma_table_row2(v),
        _ => lemma_table_row3(v),
    }
}

#[verifier::spinoff_prover]
proof fn lemma_table_row1(v: int)
    requires
        1 <= v <= 40,
    ensures
        table_entry_ok(1, v),
{
    if v == 1 {
        assert(table_entry_ok(1, 1));
    } else if v == 2 {
        assert(table_entry_ok(1, 2));
    } else if v == 3 {
        assert(table_entry_ok(1, 3));
    } else if v == 4 {
        assert(table_entry_ok(1, 4));
    } else if v == 5 {
        assert(table_entry_ok(1, 5));
    } else if v == 6 {
        assert(table_entry_ok(1, 6));
    } else if v == 7 {
        assert(table_entry_ok(1, 7));
    } else if v == 8 {
        assert(table_entry_ok(1, 8));
    } else if v == 9 {
        assert(table_entry_ok(1, 9));
    } else if v == 10 {
        assert(table_entry_ok(1, 10));
    } else if v == 11 {
        assert(table_entry_ok(1, 11));
    } else if v == 12 {
        assert(table_entry_ok(1, 12));
    } else if v == 13 {
        assert(table_entry_ok(1, 13));
    } else if v == 14 {
        assert(table_entry_ok(1, 14));
    } else if v == 15 {
        assert(table_entry_ok(1, 15));
    } else if v == 16 {
        assert(table_entry_ok(1, 16));
    } else if v == 17 {
        assert(table_entry_ok(1, 17));
    } else if v == 18 {
        assert(table_entry_ok(1, 18));
    } else if v == 19 {
        assert(table_entry_ok(1, 19));
    } else if v == 20 {
        assert(table_entry_ok(1, 20));
    } else if v == 21 {
        assert(table_entry_ok(1, 21));
    } else if v == 22 {
        assert(table_entry_ok(1, 22));
    } else if v == 23 {
        assert(table_entry_ok(1, 23));
    } else if v == 24 {
        assert(table_entry_ok(1, 24));
    } else if v == 25 {
        assert(table_entry_ok(1, 25));
    } else if v == 26 {
        assert(table_entry_ok(1, 26));
    } else if v == 27 {
        assert(table_entry_ok(1, 27));
    } else if v == 28 {
        assert(table_entry_ok(1, 28));
    } else if v == 29 {
        assert(table_entry_ok(1, 29));
    } else if v == 30 {
        assert(table_entry_ok(1, 30));
    } else if v == 31 {
        assert(table_entry_ok(1, 31));
    } else if v == 32 {
        assert(table_entry_ok(1, 32));
    } else if v == 33 {
        assert(table_entry_ok(1, 33));
    } else if v == 34 {
        assert(table_entry_ok(1, 34));
    } else if v == 35 {
        assert(table_entry_ok(1, 35));
    } else if v == 36 {
        assert(table_entry_ok(1, 36));
    } else if v == 37 {
        assert(table_entry_ok(1, 37));
    } else if v == 38 {
        assert(table_entry_ok(1, 38));
    } else if v == 39 {
        assert(table_entry_ok(1, 39));
    } else if v == 40 {
        assert(table_entry_ok(1, 40));
    }
}

#[verifier::spinoff_prover]
proof fn lemma_table_row2(v: int)
    requires
        1 <= v <= 40,
    ensures
        table_entry_ok(2, v),
{
    if v == 1 {
        assert(table_entry_ok(2, 1));
    } else if v == 2 {
        assert(table_entry_ok(2, 2));
    } else if v == 3 {
        assert(table_entry_ok(2, 3));
    } else if v == 4 {
        assert(table_entry_ok(2, 4));
    } else if v == 5 {
        assert(table_entry_ok(2, 5));
    } else if v == 6 {
        assert(table_entry_ok(2, 6));
    } else if v == 7 {
        assert(table_entry_ok(2, 7));
    } else if v == 8 {
        assert(table_entry_ok(2, 8));
    } else if v == 9 {
        assert(table_entry_ok(2, 9));
    } else if v == 10 {
        assert(table_entry_ok(2, 10));
    } else if v == 11 {
        assert(table_entry_ok(2, 11));
    } else if v == 12 {
        assert(table_entry_ok(2, 12));
    } else if v == 13 {
        assert(table_entry_ok(2, 13));
    } else if v == 14 {
        assert(table_entry_ok(2, 14));
    } else if v == 15 {
        assert(table_entry_ok(2, 15));
    } else if v == 16 {
        assert(table_entry_ok(2, 16));
    } else if v == 17 {
        assert(table_entry_ok(2, 17));
    } else if v == 18 {
        assert(table_entry_ok(2, 18));
    } else if v == 19 {
        assert(table_entry_ok(2, 19));
    } else if v == 20 {
        assert(table_entry_ok(2, 20));
    } else if v == 21 {
        assert(table_entry_ok(2, 21));
    } else if v == 22 {
        assert(table_entry_ok(2, 22));
    } else if v == 23 {
        assert(table_entry_ok(2, 23));
    } else if v == 24 {
        assert(table_entry_ok(2, 24));
    } else if v == 25 {
        assert(table_entry_ok(2, 25));
    } else if v == 26 {
        assert(table_entry_ok(2, 26));
    } else if v == 27 {
        assert(table_entry_ok(2, 27));
    } else if v == 28 {
        assert(table_entry_ok(2, 28));
    } else if v == 29 {
        assert(table_entry_ok(2, 29));
    } else if v == 30 {
        assert(table_entry_ok(2, 30));
    } else if v == 31 {
        assert(table_entry_ok(2, 31));
    } else if v == 32 {
        assert(table_entry_ok(2, 32));
    } else if v == 33 {
        assert(table_entry_ok(2, 33));
    } else if v == 34 {
        assert(table_entry_ok(2, 34));
    } else if v == 35 {
        assert(table_entry_ok(2, 35));
    } else if v == 36 {
        assert(table_entry_ok(2, 36));
    } else if v == 37 {
        assert(table_entry_ok(2, 37));
    } else if v == 38 {
        assert(table_entry_ok(2, 38));
    } else if v == 39 {
        assert(table_entry_ok(2, 39));
    } else if v == 40 {
        assert(table_entry_ok(2, 40));
    }
}

#[verifier::spinoff_prover]
proof fn lemma_table_row3(v: int)
    requires
        1 <= v <= 40,
    ensures
        table_entry_ok(3, v),
{
    if v == 1 {
        assert(table_entry_ok(3, 1));
    } else if v == 2 {
        assert(table_entry_ok(3, 2));
    } else if v == 3 {
        assert(table_entry_ok(3, 3));
    } else if v == 4 {
        assert(table_entry_ok(3, 4));
    } else if v == 5 {
        assert(table_entry_ok(3, 5));
    } else if v == 6 {
        assert(table_entry_ok(3, 6));
    } else if v == 7 {
        assert(table_entry_ok(3, 7));
    } else if v == 8 {
        assert(table_entry_ok(3, 8));
    } else if v == 9 {
        assert(table_entry_ok(3, 9));
    } else if v == 10 {
        assert(table_entry_ok(3, 10));
    } else if v == 11 {
        assert(table_entry_ok(3, 11));
    } else if v == 12 {
        assert(table_entry_ok(3, 12));
    } else if v == 13 {
        assert(table_entry_ok(3, 13));
    } else if v == 14 {
        assert(table_entry_ok(3, 14));
    } else if v == 15 {
        assert(table_entry_ok(3, 15));
    } else if v == 16 {
        assert(table_entry_ok(3, 16));
    } else if v == 17 {
        assert(table_entry_ok(3, 17));
    } else if v == 18 {
        assert(table_entry_ok(3, 18));
    } else if v == 19 {
        assert(table_entry_ok(3, 19));
    } else if v == 20 {
        assert(table_entry_ok(3, 20));
    } else if v == 21 {
        assert(table_entry_ok(3, 21));
    } else if v == 22 {
        assert(table_entry_ok(3, 22));
    } else if v == 23 {
        assert(table_entry_ok(3, 23));
    } else if v == 24 {
        assert(table_entry_ok(3, 24));
    } else if v == 25 {
        assert(table_entry_ok(3, 25));
    } else if v == 26 {
        assert(table_entry_ok(3, 26));
    } else if v == 27 {
        assert(table_entry_ok(3, 27));
    } else if v == 28 {
        assert(table_entry_ok(3, 28));
    } else if v == 29 {
        assert(table_entry_ok(3, 29));
    } else if v == 30 {
        assert(table_entry_ok(3, 30));
    } else if v == 31 {
        assert(table_entry_ok(3, 31));
    } else if v == 32 {
        assert(table_entry_ok(3, 32));
    } else if v == 33 {
        assert(table_entry_ok(3, 33));
    } else if v == 34 {
        assert(table_entry_ok(3, 34));
    } else if v == 35 {
        assert(table_entry_ok(3, 35));
    } else if v == 36 {
        assert(table_entry_ok(3, 36));
    } else if v == 37 {
        assert(table_entry_ok(3, 37));
    } else if v == 38 {
        assert(table_entry_ok(3, 38));
    } else if v == 39 {
        assert(table_entry_ok(3, 39));
    } else if v == 40 {
        assert(table_entry_ok(3, 40));
    }
}

/// The sum of `count * data` over the descriptors.
pub open spec fn shape_data_total(desc: Seq<(usize, usize, usize)>) -> int
    decreases desc.len(),
{
    if desc.len() == 0 {
        0
    } else {
        shape_data_total(desc.drop_last()) + desc.last().2 * desc.last().1
    }
}

/// A supported shape's blocks hold exactly the symbol's data codewords,
/// and every count is at most 3707.
pub proof fn lemma_shape_total(kind: QRSymbolTypes, v: int, level: CorrectionLevels)
    requires
        supported(kind, v, level),
    ensures
        shape_data_total(shape_spec(kind, v, level)) == data_capacity(kind, v, level),
        forall|i: int| 0 <= i < shape_spec(kind, v, level).len() ==> (#[trigger] shape_spec(kind, v, level)[i]).0 <= 3707
            && shape_spec(kind, v, level)[i].1 <= shape_spec(kind, v, level)[i].0,
{
    match kind {
        QRSymbolTypes::QRCode => lemma_standard_shape_total(v, level),
        QRSymbolTypes::MicroQRCode => lemma_micro_shape_total(v, level),
    }
}

#[verifier::spinoff_prover]
proof fn lemma_standard_shape_total(v: int, level: CorrectionLevels)
    requires
        supported(QRSymbolTypes::QRCode, v, level),
    ensures
        shape_data_total(shape_spec(QRSymbolTypes::QRCode, v, level)) == data_capacity(QRSymbolTypes::QRCode, v, level),
        forall|i: int| 0 <= i < shape_spec(QRSymbolTypes::QRCode, v, level).len() ==> (#[trigger] shape_spec(QRSymbolTypes::QRCode, v, level)[i]).0 <= 3707
            && shape_spec(QRSymbolTypes::QRCode, v, level)[i].1 <= shape_spec(QRSymbolTypes::QRCode, v, level)[i].0,
{
    let kind = QRSymbolTypes::QRCode;
    let sh = shape_spec(kind, v, level);
        lemma_tables(level, v);
        let total = total_codewords(v);
        let blocks = ec_blocks(v, level);
        let ecc = ecc_per_block(v, level);
        let s = total / blocks;
        let l = total % blocks;
        vstd::arithmetic::div_mod::lemma_fundamental_div_mod(total, blocks);
        vstd::arithmetic::div_mod::lemma_mod_bound(total, blocks);
        assert(s <= total) by (nonlinear_arith)
            requires total == blocks * s + l, blocks >= 1, l >= 0, s >= 0;
        assert(ecc * blocks <= total) by (nonlinear_arith)
            requires total == blocks * s + l, s >= ecc, blocks >= 1, l >= 0, ecc >= 0;
        assert((blocks - l) * (s - ecc) + l * (s + 1 - ecc) == total - ecc * blocks) by (nonlinear_arith)
            requires total == blocks * s + l;
        assert(sh[0].1 == s - ecc);
        assert(sh[0].2 == blocks - l);
        if l == 0 {
            assert(sh.drop_last().len() == 0);
            assert(shape_data_total(sh.drop_last()) == 0);
            assert(sh.last() == sh[0]);
            assert(shape_data_total(sh) == sh[0].2 * sh[0].1);
            assert((blocks - l) * (s - ecc) == total - ecc * blocks) by (nonlinear_arith)
                requires total == blocks * s + l, l == 0;
        } else {
            assert(sh[1].1 == s + 1 - ecc);
            assert(sh[1].2 == l);
            assert(sh.drop_last().drop_last().len() == 0);
            assert(shape_data_total(sh.drop_last().drop_last()) == 0);
            assert(sh.drop_last().last() == sh[0]);
            assert(sh.last() == sh[1]);
            assert(shape_data_total(sh.drop_last()) == sh[0].2 * sh[0].1);
            assert(shape_data_total(sh) == sh[0].2 * sh[0].1 + sh[1].2 * sh[1].1);
            assert(sh[0].2 * sh[0].1 + sh[1].2 * sh[1].1 == (blocks - l) * (s - ecc) + l * (s + 1 - ecc));
        }
        assert(shape_data_total(sh) == total - ecc * blocks);
        assert(data_capacity(kind, v, level) == total - ecc * blocks);
        assert(sh == shape_spec(kind, v, level));
        assert(shape_data_total(shape_spec(kind, v, level)) == data_capacity(kind, v, level));
}

#[verifier::spinoff_prover]
proof fn lemma_micro_shape_total(v: int, level: CorrectionLevels)
    requires
        supported(QRSymbolTypes::MicroQRCode, v, level),
    ensures
        shape_data_total(shape_spec(QRSymbolTypes::MicroQRCode, v, level)) == data_capacity(QRSymbolTypes::MicroQRCode, v, level),
        forall|i: int| 0 <= i < shape_spec(QRSymbolTypes::MicroQRCode, v, level).len() ==> (#[trigger] shape_spec(QRSymbolTypes::MicroQRCode, v, level)[i]).0 <= 3707
            && shape_spec(QRSymbolTypes::MicroQRCode, v, level)[i].1 <= shape_spec(QRSymbolTypes::MicroQRCode, v, level)[i].0,
{
    let sh = shape_spec(QRSymbolTypes::MicroQRCode, v, level);
        assert(sh.drop_last().len() == 0);
        assert(shape_data_total(sh.drop_last()) == 0);
        assert(sh.last() == sh[0]);
        assert(sh[0].2 == 1);
        assert(sh[0].1 == micro_shape(v, level).1);
        assert(shape_data_total(sh) == sh[0].2 * sh[0].1);
    assert(sh[0].2 * sh[0].1 == sh[0].1) by (nonlinear_arith)
        requires sh[0].2 == 1;
    assert(data_capacity(QRSymbolTypes::MicroQRCode, v, level) == micro_shape(v, level).1);
}

} // verus!
