use qr_generator::cli::{CliCorrectionLevels, CliEncoding};
use qr_generator::encoder::EncodingModes;
use qr_generator::error_correction::{CorrectionLevels, ErrorCorrectionBlock, ErrorCorrector};
use qr_generator::generator::{Options, QRGenerator};
use qr_generator::painter::{format_bits, format_positions, penalty_score, version_word, ModuleGrid, DARK, FN_DARK, FN_LIGHT, LIGHT};
use qr_generator::qr_errors::ErrorKind;
use qr_generator::qr_types::QRSymbolTypes;
use qr_generator::sizer::Sizer;

#[test]
fn data_capacities_and_block_shapes() {
    let qr = QRSymbolTypes::QRCode;
    assert_eq!(Sizer::data_codeword_capacity(&qr, 1, &CorrectionLevels::M), Ok(16));
    assert_eq!(Sizer::data_codeword_capacity(&qr, 40, &CorrectionLevels::L), Ok(2956));
    assert_eq!(Sizer::data_codeword_capacity(&qr, 29, &CorrectionLevels::H), Ok(701));
    assert_eq!(Sizer::data_codeword_capacity(&QRSymbolTypes::MicroQRCode, 4, &CorrectionLevels::Q), Ok(10));
    assert_eq!(Sizer::data_codeword_capacity(&qr, 3, &CorrectionLevels::DetectionOnly).unwrap_err().kind, ErrorKind::UnsupportedConfiguration);
    assert_eq!(Sizer::data_codeword_capacity(&QRSymbolTypes::MicroQRCode, 1, &CorrectionLevels::L).unwrap_err().kind, ErrorKind::UnsupportedConfiguration);
    assert_eq!(Sizer::error_correction_shape(&qr, 3, &CorrectionLevels::Q), vec![(35, 17, 2)]);
    assert_eq!(Sizer::error_correction_shape(&qr, 5, &CorrectionLevels::Q), vec![(33, 15, 2), (34, 16, 2)]);
    assert_eq!(Sizer::error_correction_shape(&qr, 1, &CorrectionLevels::L), vec![(26, 19, 1)]);
    assert_eq!(Sizer::error_correction_shape(&QRSymbolTypes::MicroQRCode, 1, &CorrectionLevels::DetectionOnly), vec![(5, 3, 1)]);
}

#[test]
fn version_thresholds_follow_the_capacity_table() {
    let l = CorrectionLevels::L;
    assert_eq!(Sizer::calculate_standard_numeric_version(&l, &[b'1'; 41]), Ok(1));
    assert_eq!(Sizer::calculate_standard_numeric_version(&l, &[b'1'; 42]), Ok(2));
    assert_eq!(Sizer::calculate_standard_alphanumeric_version(&CorrectionLevels::H, &[b'A'; 10]), Ok(1));
    assert_eq!(Sizer::calculate_standard_alphanumeric_version(&CorrectionLevels::H, &[b'A'; 11]), Ok(2));
    assert_eq!(Sizer::calculate_standard_byte_version(&CorrectionLevels::Q, &[b'a'; 11]), Ok(1));
    assert_eq!(Sizer::calculate_standard_byte_version(&CorrectionLevels::M, &vec![b'a'; 2331]), Ok(40));
    assert_eq!(Sizer::calculate_standard_byte_version(&CorrectionLevels::M, &vec![b'a'; 2332]).unwrap_err().kind, ErrorKind::OverCapacity);
    assert_eq!(Sizer::calculate_standard_numeric_version(&CorrectionLevels::H, &vec![b'7'; 1677]), Ok(29));
    assert_eq!(Sizer::calculate_standard_numeric_version(&CorrectionLevels::DetectionOnly, &[b'1']).unwrap_err().kind, ErrorKind::UnsupportedConfiguration);
    assert_eq!(Sizer::calculate_standard_kanji_version(&l, &[b'1']).unwrap_err().kind, ErrorKind::UnsupportedConfiguration);
    assert_eq!(Sizer::calculate_standard_version(&l, EncodingModes::Numeric, &[]).unwrap_err().kind, ErrorKind::InputEmpty);
}

#[test]
fn micro_versions() {
    let m = CorrectionLevels::M;
    assert_eq!(Sizer::calculate_micro_version(&CorrectionLevels::DetectionOnly, EncodingModes::Dynamic, b"12345"), Ok(1));
    assert_eq!(Sizer::calculate_micro_version(&CorrectionLevels::DetectionOnly, EncodingModes::Dynamic, b"123456").unwrap_err().kind, ErrorKind::OverCapacity);
    assert_eq!(Sizer::calculate_micro_version(&CorrectionLevels::DetectionOnly, EncodingModes::Dynamic, b"12a").unwrap_err().kind, ErrorKind::ModeIncompatible);
    assert_eq!(Sizer::calculate_micro_version(&m, EncodingModes::Numeric, &[b'1'; 8]), Ok(2));
    assert_eq!(Sizer::calculate_micro_version(&m, EncodingModes::Numeric, &[b'1'; 9]), Ok(3));
    assert_eq!(Sizer::calculate_micro_version(&m, EncodingModes::Byte, &[b'a'; 13]), Ok(4));
    assert_eq!(Sizer::calculate_micro_version(&CorrectionLevels::H, EncodingModes::Byte, b"a").unwrap_err().kind, ErrorKind::UnsupportedConfiguration);
    let options = Options {
        qr_type: Some(QRSymbolTypes::MicroQRCode),
        version: None,
        mode: Some(EncodingModes::AlphaNumeric),
        correction_level: Some(CorrectionLevels::L),
    };
    assert_eq!(Sizer::calculate_version(&options, b"ABCDEFG"), Ok(3));
}

#[test]
fn blocks_are_filled_and_interleaved() {
    let mut corrector = ErrorCorrector::from(&vec![(4, 2, 1), (5, 3, 1)]);
    assert_eq!(corrector.blocks.len(), 2);
    assert_eq!(corrector.blocks[1].error_correction_codeword_count, 2);
    assert_eq!(corrector.fill_data_into_blocks(vec![1, 2, 3, 4]).unwrap_err().kind, ErrorKind::BlockMismatch);
    corrector.fill_data_into_blocks(vec![1, 2, 3, 4, 5]).unwrap();
    assert_eq!(corrector.blocks[0].data_codewords, vec![1, 2]);
    assert_eq!(corrector.blocks[1].data_codewords, vec![3, 4, 5]);
    corrector.blocks[0].ec_codewords = vec![10, 11];
    corrector.blocks[1].ec_codewords = vec![12, 13];
    assert_eq!(corrector.interleave().collect(), vec![1, 3, 2, 4, 5, 10, 12, 11, 13]);
    let mut walk = corrector.interleave();
    assert_eq!(walk.next(), Some(1));
    assert_eq!(walk.next(), Some(3));
}

#[test]
fn block_error_correction_matches_the_reed_solomon_example() {
    let mut block = ErrorCorrectionBlock {
        data_codeword_count: 16,
        error_correction_codeword_count: 10,
        data_codewords: vec![32, 91, 11, 120, 209, 114, 220, 77, 67, 64, 236, 17, 236, 17, 236, 17],
        ec_codewords: vec![],
    };
    block.generate_error_correction();
    assert_eq!(block.ec_codewords, vec![196, 35, 39, 119, 235, 215, 231, 226, 93, 23]);
}

#[test]
fn format_and_version_codes() {
    let m = vec![1, 0, 1, 0, 1, 0, 0, 0, 0, 0, 1, 0, 0, 1, 0];
    assert_eq!(format_bits(&vec![0, 0, 0, 0, 0], &m), m);
    // level L (01), mask 4 (100)
    assert_eq!(format_bits(&vec![0, 1, 1, 0, 0], &m), vec![1, 1, 0, 0, 1, 1, 0, 0, 0, 1, 0, 1, 1, 1, 1]);
    assert_eq!(version_word(7), 0x07C94);
    assert_eq!(version_word(40), 0x28C69);
}

#[test]
fn penalty_of_a_blank_grid() {
    let mut grid = ModuleGrid::new(21);
    grid.recolour_function_pixels();
    // 21 runs of 21 in each direction, 400 blocks, no dark modules
    assert_eq!(penalty_score(&grid), 21 * 19 * 2 + 3 * 400 + 100);
}

#[test]
fn makes_a_whole_symbol() {
    let mut generator = QRGenerator::default();
    let grid = generator.make_qr_code(b"HELLO WORLD".to_vec()).unwrap();
    assert_eq!(generator.options.version, Some(1));
    assert_eq!(grid.size, 21);
    assert!(grid.cells.iter().all(|&c| c == DARK || c == LIGHT));
    // finder corners and their separators
    assert_eq!(grid.cells[0], DARK);
    assert_eq!(grid.cells[20], DARK);
    assert_eq!(grid.cells[20 * 21], DARK);
    assert_eq!(grid.cells[7], LIGHT);
    assert_eq!(grid.cells[3 * 21 + 3], DARK);
    // timing track
    assert_eq!(grid.cells[6 * 21 + 8], DARK);
    assert_eq!(grid.cells[6 * 21 + 9], LIGHT);
    let big = QRGenerator::default().make_qr_code(vec![b'z'; 100]).unwrap();
    assert_eq!(big.size, 21 + 4 * 7);
}

#[test]
fn generator_errors() {
    let mut generator = QRGenerator::default();
    assert_eq!(generator.make_qr_code(vec![]).unwrap_err().kind, ErrorKind::InputEmpty);
    let mut fixed = QRGenerator {
        options: Options { qr_type: None, version: Some(1), mode: None, correction_level: Some(CorrectionLevels::H) },
    };
    assert_eq!(fixed.make_qr_code(vec![b'a'; 30]).unwrap_err().kind, ErrorKind::OverCapacity);
}

#[test]
fn command_line_names() {
    assert_eq!(CliEncoding::Dynamic.to_mode(), EncodingModes::Dynamic);
    assert_eq!(CliEncoding::from_mode(EncodingModes::Byte), CliEncoding::Byte);
    assert_eq!(CliCorrectionLevels::Q.to_level(), CorrectionLevels::Q);
    assert_eq!(CliCorrectionLevels::from_level(CorrectionLevels::DetectionOnly), CliCorrectionLevels::DetectionOnly);
}

#[test]
fn format_cells_and_timing_tracks() {
    let cells = format_positions(QRSymbolTypes::QRCode, 21, 6);
    assert_eq!(cells.len(), 30);
    assert_eq!(cells[0], (8, 0, 0));
    assert_eq!(cells[6], (8, 7, 6));
    assert_eq!(cells[8], (7, 8, 8));
    assert_eq!(cells[14], (0, 8, 14));
    assert_eq!(cells[15], (20, 8, 0));
    assert_eq!(cells[29], (8, 20, 14));
    let mut grid = ModuleGrid::new(21);
    grid.add_timing_patterns(6);
    assert_eq!(grid.get(8, 6), FN_DARK);
    assert_eq!(grid.get(6, 9), FN_LIGHT);
    assert_eq!(grid.get(9, 9), 128);
}
