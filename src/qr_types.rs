use vstd::prelude::*;
use itertools::Itertools;
use crate::error_correction::CorrectionLevels;

verus! {

/// The corners that carry a finder pattern.
#[derive(Clone, Copy, Debug, PartialEq, Eq, Structural)]
pub enum FinderLocations {
    TopLeft,
    TopRight,
    BottomLeft,
}

/// The two symbol families.
#[derive(Clone, Copy, Debug, PartialEq, Eq, Structural)]
pub enum QRSymbolTypes {
    QRCode,
    MicroQRCode,
}

/// How many alignment coordinates each Standard version has.
pub const ALIGNMENT_COUNTS: [u32; 40] = [
    0, 2, 2, 2, 2, 2, 3, 3, 3, 3, 3, 3, 3, 4, 4, 4, 4, 4, 4, 4,
    5, 5, 5, 5, 5, 5, 5, 6, 6, 6, 6, 6, 6, 6, 7, 7, 7, 7, 7, 7,
];

/// The alignment coordinates of each Standard version (ISO/IEC 18004,
/// Annex E), padded with zeros to seven entries.
pub const ALIGNMENT_TABLE: [[u32; 7]; 40] = [
    [0, 0, 0, 0, 0, 0, 0],
    [6, 18, 0, 0, 0, 0, 0],
    [6, 22, 0, 0, 0, 0, 0],
    [6, 26, 0, 0, 0, 0, 0],
    [6, 30, 0, 0, 0, 0, 0],
    [6, 34, 0, 0, 0, 0, 0],
    [6, 22, 38, 0, 0, 0, 0],
    [6, 24, 42, 0, 0, 0, 0],
    [6, 26, 46, 0, 0, 0, 0],
    [6, 28, 50, 0, 0, 0, 0],
    [6, 30, 54, 0, 0, 0, 0],
    [6, 32, 58, 0, 0, 0, 0],
    [6, 34, 62, 0, 0, 0, 0],
    [6, 26, 46, 66, 0, 0, 0],
    [6, 26, 48, 70, 0, 0, 0],
    [6, 26, 50, 74, 0, 0, 0],
    [6, 30, 54, 78, 0, 0, 0],
    [6, 30, 56, 82, 0, 0, 0],
    [6, 30, 58, 86, 0, 0, 0],
    [6, 34, 62, 90, 0, 0, 0],
    [6, 28, 50, 72, 94, 0, 0],
    [6, 26, 50, 74, 98, 0, 0],
    [6, 30, 54, 76, 102, 0, 0],
    [6, 28, 54, 78, 106, 0, 0],
    [6, 32, 58, 80, 110, 0, 0],
    [6, 30, 58, 82, 114, 0, 0],
    [6, 34, 62, 84, 118, 0, 0],
    [6, 26, 50, 74, 98, 122, 0],
    [6, 30, 54, 78, 102, 126, 0],
    [6, 26, 52, 78, 104, 130, 0],
    [6, 30, 56, 82, 108, 134, 0],
    [6, 34, 60, 86, 112, 138, 0],
    [6, 30, 58, 86, 114, 142, 0],
    [6, 34, 62, 90, 118, 146, 0],
    [6, 30, 54, 78, 102, 126, 150],
    [6, 24, 50, 76, 102, 128, 154],
    [6, 28, 54, 80, 106, 132, 158],
    [6, 32, 58, 84, 110, 136, 162],
    [6, 26, 54, 82, 110, 138, 166],
    [6, 30, 58, 86, 114, 142, 170],
];

/// The alignment coordinates of Standard version `v`.
pub open spec fn alignment_coords_spec(v: int) -> Seq<u32> {
    ALIGNMENT_TABLE@[v - 1]@.take(ALIGNMENT_COUNTS@[v - 1] as int)
}

/// All pairs of coordinates, the first one varying slowest.
pub open spec fn product_spec(c: Seq<u32>) -> Seq<(u32, u32)> {
    Seq::new(c.len() * c.len(), |k: int| (c[k / (c.len() as int)], c[k % (c.len() as int)]))
}

/// A pair that would overlap a finder pattern: both coordinates minimal,
/// or one minimal and the other maximal.
pub open spec fn collides(p: (u32, u32), min: u32, max: u32) -> bool {
    (p.0 == min && p.1 == min) || (p.0 == min && p.1 == max) || (p.0 == max && p.1 == min)
}

/// The first `k` pairs, without those that collide with a finder pattern.
pub open spec fn kept_pairs(pairs: Seq<(u32, u32)>, min: u32, max: u32, k: nat) -> Seq<(u32, u32)>
    decreases k,
{
    if k == 0 {
        Seq::empty()
    } else {
        let prev = kept_pairs(pairs, min, max, (k - 1) as nat);
        if collides(pairs[k - 1], min, max) {
            prev
        } else {
            prev.push(pairs[k - 1])
        }
    }
}

/// The centres of the alignment patterns of Standard version `v`.
pub open spec fn alignment_locations_spec(v: int) -> Seq<(u32, u32)> {
    let c = alignment_coords_spec(v);
    if c.len() == 0 {
        Seq::empty()
    } else {
        let p = product_spec(c);
        kept_pairs(p, c[0], c.last(), p.len())
    }
}

/// Relies on itertools' `cartesian_product`: the pairs of the two
/// iterators' items, the first iterator's item varying slowest.
#[verifier::external_body]
fn cartesian(coords: &Vec<u32>) -> (r: Vec<(u32, u32)>)
    ensures
        r@ == product_spec(coords@),
{
    coords.iter().cartesian_product(coords.iter()).map(|(x, y)| (*x, *y)).collect()
}

/// The module at row `i`, column `j` is flipped by Standard mask `m`.
pub open spec fn standard_mask_spec(m: int, i: int, j: int) -> bool {
    if m == 0 {
        (i + j) % 2 == 0
    } else if m == 1 {
        i % 2 == 0
    } else if m == 2 {
        j % 3 == 0
    } else if m == 3 {
        (i + j) % 3 == 0
    } else if m == 4 {
        (i / 2 + j / 3) % 2 == 0
    } else if m == 5 {
        (i * j) % 2 + (i * j) % 3 == 0
    } else if m == 6 {
        ((i * j) % 2 + (i * j) % 3) % 2 == 0
    } else {
        ((i + j) % 2 + (i * j) % 3) % 2 == 0
    }
}

/// The module at row `i`, column `j` is flipped by Micro mask `m`.
pub open spec fn micro_mask_spec(m: int, i: int, j: int) -> bool {
    if m == 0 {
        i % 2 == 0
    } else if m == 1 {
        (i / 2 + j / 3) % 2 == 0
    } else if m == 2 {
        ((i * j) % 2 + (i * j) % 3) % 2 == 0
    } else {
        ((i + j) % 2 + (i * j) % 3) % 2 == 0
    }
}

/// A Standard QR symbol of a version in 1..=40.
pub struct QRCode {
    pub version: u32,
}

impl QRCode {
    /// The version's alignment coordinates, from the standard's table.
    pub fn alignment_coords(&self) -> (r: Vec<u32>)
        requires
            1 <= self.version <= 40,
        ensures
            r@ == alignment_coords_spec(self.version as int),
    {
        let row = ALIGNMENT_TABLE[(self.version - 1) as usize];
        let count = ALIGNMENT_COUNTS[(self.version - 1) as usize];
        let mut r: Vec<u32> = Vec::new();
        let mut i: usize = 0;
        proof {
            assert(forall|k: int| 0 <= k < 40 ==> ALIGNMENT_COUNTS@[k] <= 7);
        }
        while i < count as usize
            invariant
                1 <= self.version <= 40,
                row == ALIGNMENT_TABLE@[self.version - 1],
                count == ALIGNMENT_COUNTS@[self.version - 1],
                count <= 7,
                i <= count,
                r@ =~= row@.take(i as int),
            decreases count - i,
        {
            r.push(row[i]);
            i += 1;
        }
        r
    }

    pub fn module_width(&self) -> (r: u32)
        requires
            1 <= self.version <= 40,
        ensures
            r == 21 + 4 * (self.version - 1),
    {
        21 + 4 * (self.version - 1)
    }

    pub fn timing_coord(&self) -> (r: u32)
        ensures
            r == 6,
    {
        6
    }

    pub fn finder_locations(&self) -> (r: Vec<FinderLocations>)
        ensures
            r@ == seq![FinderLocations::TopLeft, FinderLocations::TopRight, FinderLocations::BottomLeft],
    {
        vec![FinderLocations::TopLeft, FinderLocations::TopRight, FinderLocations::BottomLeft]
    }

    /// Every pair of alignment coordinates but the three that overlap a
    /// finder pattern.
    pub fn alignment_locations(&self) -> (r: Vec<(u32, u32)>)
        requires
            1 <= self.version <= 40,
        ensures
            r@ == alignment_locations_spec(self.version as int),
    {
        let coords = self.alignment_coords();
        if coords.len() == 0 {
            return Vec::new();
        }
        let min = coords[0];
        let max = coords[coords.len() - 1];
        let pairs = cartesian(&coords);
        let mut r: Vec<(u32, u32)> = Vec::new();
        let mut k: usize = 0;
        while k < pairs.len()
            invariant
                k <= pairs@.len(),
                r@ == kept_pairs(pairs@, min, max, k as nat),
            decreases pairs@.len() - k,
        {
            let p = pairs[k];
            if !((p.0 == min && p.1 == min) || (p.0 == min && p.1 == max) || (p.0 == max && p.1 == min)) {
                r.push(p);
            }
            k += 1;
        }
        r
    }

    pub fn format_locations(&self) -> (r: Vec<FinderLocations>)
        ensures
            r@ == seq![FinderLocations::TopLeft, FinderLocations::TopRight, FinderLocations::BottomLeft],
    {
        vec![FinderLocations::TopLeft, FinderLocations::TopRight, FinderLocations::BottomLeft]
    }

    pub fn include_version_locations(&self) -> (r: bool)
        ensures
            r == (self.version >= 7),
    {
        self.version >= 7
    }

    /// Whether mask `mask` flips the module at row `i`, column `j`.
    pub fn mask_applies(&self, mask: u32, i: u32, j: u32) -> (r: bool)
        requires
            mask < 8,
            i < 0x10000,
            j < 0x10000,
        ensures
            r == standard_mask_spec(mask as int, i as int, j as int),
    {
        let (i, j) = (i as u64, j as u64);
        proof {
            assert(i * j < 0x1_0000_0000) by (nonlinear_arith)
                requires i < 0x10000, j < 0x10000;
        }
        if mask == 0 {
            (i + j) % 2 == 0
        } else if mask == 1 {
            i % 2 == 0
        } else if mask == 2 {
            j % 3 == 0
        } else if mask == 3 {
            (i + j) % 3 == 0
        } else if mask == 4 {
            (i / 2 + j / 3) % 2 == 0
        } else if mask == 5 {
            (i * j) % 2 + (i * j) % 3 == 0
        } else if mask == 6 {
            ((i * j) % 2 + (i * j) % 3) % 2 == 0
        } else {
            ((i + j) % 2 + (i * j) % 3) % 2 == 0
        }
    }

    /// The two format bits of an error-correction level.
    pub fn ec_level_bits(&self, ec_level: CorrectionLevels) -> (r: Vec<u8>)
        requires
            ec_level != CorrectionLevels::DetectionOnly,
        ensures
            r@ == (match ec_level {
                CorrectionLevels::L => seq![0u8, 1],
                CorrectionLevels::M => seq![0u8, 0],
                CorrectionLevels::Q => seq![1u8, 1],
                _ => seq![1u8, 0],
            }),
    {
        match ec_level {
            CorrectionLevels::L => vec![0, 1],
            CorrectionLevels::M => vec![0, 0],
            CorrectionLevels::Q => vec![1, 1],
            _ => vec![1, 0],
        }
    }

    /// The mask XORed over the 15 format bits.
    pub fn format_mask(&self) -> (r: Vec<u8>)
        ensures
            r@ == seq![1u8, 0, 1, 0, 1, 0, 0, 0, 0, 0, 1, 0, 0, 1, 0],
    {
        vec![1, 0, 1, 0, 1, 0, 0, 0, 0, 0, 1, 0, 0, 1, 0]
    }
}

/// A Micro QR symbol of a version in 1..=4.
pub struct MicroQRCode {
    pub version: u32,
}

impl MicroQRCode {
    pub fn module_width(&self) -> (r: u32)
        requires
            1 <= self.version <= 4,
        ensures
            r == 11 + 2 * (self.version - 1),
    {
        11 + 2 * (self.version - 1)
    }

    pub fn timing_coord(&self) -> (r: u32)
        ensures
            r == 0,
    {
        0
    }

    pub fn finder_locations(&self) -> (r: Vec<FinderLocations>)
        ensures
            r@ == seq![FinderLocations::TopLeft],
    {
        vec![FinderLocations::TopLeft]
    }

    pub fn alignment_locations(&self) -> (r: Vec<(u32, u32)>)
        ensures
            r@.len() == 0,
    {
        Vec::new()
    }

    pub fn format_locations(&self) -> (r: Vec<FinderLocations>)
        ensures
            r@ == seq![FinderLocations::TopLeft],
    {
        vec![FinderLocations::TopLeft]
    }

    pub fn include_version_locations(&self) -> (r: bool)
        ensures
            !r,
    {
        false
    }

    /// Whether Micro mask `mask` flips the module at row `i`, column `j`.
    pub fn mask_applies(&self, mask: u32, i: u32, j: u32) -> (r: bool)
        requires
            mask < 4,
            i < 0x10000,
            j < 0x10000,
        ensures
            r == micro_mask_spec(mask as int, i as int, j as int),
    {
        let (i, j) = (i as u64, j as u64);
        proof {
            assert(i * j < 0x1_0000_0000) by (nonlinear_arith)
                requires i < 0x10000, j < 0x10000;
        }
        if mask == 0 {
            i % 2 == 0
        } else if mask == 1 {
            (i / 2 + j / 3) % 2 == 0
        } else if mask == 2 {
            ((i * j) % 2 + (i * j) % 3) % 2 == 0
        } else {
            ((i + j) % 2 + (i * j) % 3) % 2 == 0
        }
    }

    /// The three format bits that name the symbol number (version and
    /// error-correction level).
    pub fn ec_level_bits(&self, ec_level: CorrectionLevels) -> (r: Vec<u8>)
        requires
            1 <= self.version <= 4,
        ensures
            r@ == (if self.version == 1 {
                seq![0u8, 0, 0]
            } else if self.version == 2 {
                if ec_level == CorrectionLevels::L { seq![0u8, 0, 1] } else { seq![0u8, 1, 0] }
            } else if self.version == 3 {
                if ec_level == CorrectionLevels::L { seq![0u8, 1, 1] } else { seq![1u8, 0, 0] }
            } else {
                if ec_level == CorrectionLevels::L {
                    seq![1u8, 0, 1]
                } else if ec_level == CorrectionLevels::M {
                    seq![1u8, 1, 0]
                } else {
                    seq![1u8, 1, 1]
                }
            }),
    {
        if self.version == 1 {
            vec![0, 0, 0]
        } else if self.version == 2 {
            if ec_level == CorrectionLevels::L { vec![0, 0, 1] } else { vec![0, 1, 0] }
        } else if self.version == 3 {
            if ec_level == CorrectionLevels::L { vec![0, 1, 1] } else { vec![1, 0, 0] }
        } else {
            if ec_level == CorrectionLevels::L {
                vec![1, 0, 1]
            } else if ec_level == CorrectionLevels::M {
                vec![1, 1, 0]
            } else {
                vec![1, 1, 1]
            }
        }
    }

    pub fn format_mask(&self) -> (r: Vec<u8>)
        ensures
            r@ == seq![1u8, 0, 0, 0, 1, 0, 0, 0, 1, 0, 0, 0, 1, 0, 1],
    {
        vec![1, 0, 0, 0, 1, 0, 0, 0, 1, 0, 0, 0, 1, 0, 1]
    }
}

/// A symbol: its family and version.
#[derive(Clone, Copy, Debug, PartialEq, Eq, Structural)]
pub struct QRSymbol {
    pub kind: QRSymbolTypes,
    pub version: u32,
}

/// Builds symbol descriptors.
pub struct QRFactory;

impl QRFactory {
    pub fn build_code(qr_type: QRSymbolTypes, version: u32) -> (r: QRSymbol)
        ensures
            r.kind == qr_type,
            r.version == version,
    {
        QRSymbol { kind: qr_type, version }
    }
}

} // verus!
