use qr_generator::error_correction::CorrectionLevels;
use qr_generator::qr_types::FinderLocations::{BottomLeft, TopLeft, TopRight};
use qr_generator::qr_types::{MicroQRCode, QRCode, QRFactory, QRSymbolTypes};

#[test]
fn qr_code_has_correct_width_v1() {
    assert_eq!(QRCode { version: 1 }.module_width(), 21);
}

#[test]
fn qr_code_has_correct_width_v7() {
    assert_eq!(QRCode { version: 7 }.module_width(), 45);
}

#[test]
fn qr_code_has_correct_width_v40() {
    assert_eq!(QRCode { version: 40 }.module_width(), 177);
}

#[test]
fn micro_qr_code_has_correct_width_v1() {
    assert_eq!(MicroQRCode { version: 1 }.module_width(), 11);
}

#[test]
fn micro_qr_code_has_correct_width_v2() {
    assert_eq!(MicroQRCode { version: 2 }.module_width(), 13);
}

#[test]
fn micro_qr_code_has_correct_width_v4() {
    assert_eq!(MicroQRCode { version: 4 }.module_width(), 17);
}

#[test]
fn qr_code_timing_in_correct_place() {
    assert_eq!(QRCode { version: 5 }.timing_coord(), 6);
}

#[test]
fn micro_qr_code_timing_in_correct_place() {
    assert_eq!(MicroQRCode { version: 3 }.timing_coord(), 0);
}

#[test]
fn qr_code_three_finders() {
    assert_eq!(QRCode { version: 15 }.finder_locations(), vec![TopLeft, TopRight, BottomLeft]);
}

#[test]
fn micro_qr_code_one_finder() {
    assert_eq!(MicroQRCode { version: 1 }.finder_locations(), vec![TopLeft]);
}

#[test]
fn qr_code_v1_has_no_alignment() {
    assert!(QRCode { version: 1 }.alignment_locations().is_empty());
}

#[test]
fn qr_code_v2_has_one_alignment() {
    assert_eq!(QRCode { version: 2 }.alignment_locations().iter().count(), 1);
}

#[test]
fn qr_code_v9_has_six_alignments() {
    assert_eq!(QRCode { version: 9 }.alignment_locations().iter().count(), 6);
}

#[test]
fn qr_code_v27_has_22_alignments() {
    assert_eq!(QRCode { version: 27 }.alignment_locations().iter().count(), 22);
}

#[test]
fn qr_code_v40_has_46_alignments() {
    assert_eq!(QRCode { version: 40 }.alignment_locations().iter().count(), 46);
}

#[test]
fn micro_qr_code_v4_has_no_alignments() {
    assert!(MicroQRCode { version: 4 }.alignment_locations().is_empty());
}

#[test]
fn alignment_coordinates_follow_the_table() {
    assert_eq!(QRCode { version: 7 }.alignment_coords(), vec![6, 22, 38]);
    assert_eq!(QRCode { version: 40 }.alignment_coords(), vec![6, 30, 58, 86, 114, 142, 170]);
    assert_eq!(QRCode { version: 2 }.alignment_locations(), vec![(18, 18)]);
    assert_eq!(QRCode { version: 7 }.alignment_locations(), vec![(6, 22), (22, 6), (22, 22), (22, 38), (38, 22), (38, 38)]);
}

#[test]
fn masks_and_format_bits() {
    let code = QRCode { version: 3 };
    assert!(code.mask_applies(0, 1, 1));
    assert!(!code.mask_applies(0, 1, 2));
    assert!(code.mask_applies(4, 0, 0));
    assert!(!code.mask_applies(4, 2, 0));
    assert!(code.mask_applies(5, 2, 3));
    assert_eq!(code.ec_level_bits(CorrectionLevels::L), vec![0, 1]);
    assert_eq!(code.ec_level_bits(CorrectionLevels::H), vec![1, 0]);
    assert_eq!(code.format_mask(), vec![1, 0, 1, 0, 1, 0, 0, 0, 0, 0, 1, 0, 0, 1, 0]);
    assert!(!code.include_version_locations());
    assert!(QRCode { version: 7 }.include_version_locations());
    assert_eq!(MicroQRCode { version: 4 }.ec_level_bits(CorrectionLevels::Q), vec![1, 1, 1]);
    assert_eq!(MicroQRCode { version: 2 }.ec_level_bits(CorrectionLevels::L), vec![0, 0, 1]);
    let symbol = QRFactory::build_code(QRSymbolTypes::MicroQRCode, 3);
    assert_eq!(symbol.version, 3);
    assert_eq!(symbol.kind, QRSymbolTypes::MicroQRCode);
}
