use qr_generator::encoder::{
    calculate_change_distances, encode_numeric_run, is_qr_alphanumeric, select_initial_encoding, DistToNextType,
    Encoder, EncodingModes,
};
use qr_generator::error_correction::CorrectionLevels;
use qr_generator::generator::Options;
use qr_generator::qr_errors::ErrorKind;
use qr_generator::qr_types::QRSymbolTypes;

fn options(qr_type: Option<QRSymbolTypes>, version: Option<u32>, mode: Option<EncodingModes>) -> Options {
    Options { qr_type, version, mode, correction_level: None }
}

fn bits(b: &[u8]) -> Vec<bool> {
    b.iter().map(|&x| x == 1).collect()
}

fn d(byte: Option<usize>, alpha_numeric: Option<usize>, numeric: Option<usize>) -> DistToNextType {
    DistToNextType { numeric, alpha_numeric, kanji: None, byte }
}

#[test]
fn validation_fails_if_data_empty() {
    let encoder = Encoder::new(options(None, None, None), "".as_bytes().to_vec());
    let result = encoder.validate_data_stream_vs_options();
    assert!(result.is_err());
}

#[test]
fn cannot_encode_non_numeric_in_m1() {
    let encoder = Encoder::new(options(Some(QRSymbolTypes::MicroQRCode), Some(1), None), "123A456".as_bytes().to_vec());
    assert!(encoder.validate_data_stream_vs_options().is_err());
}

#[test]
fn cannot_encode_non_alphanum_in_m1() {
    let encoder = Encoder::new(options(Some(QRSymbolTypes::MicroQRCode), Some(1), None), "123^456".as_bytes().to_vec());
    assert!(encoder.validate_data_stream_vs_options().is_err());
}

#[test]
fn cannot_encode_non_alphanum_in_m2() {
    let encoder = Encoder::new(options(Some(QRSymbolTypes::MicroQRCode), Some(2), None), "123^456".as_bytes().to_vec());
    assert!(encoder.validate_data_stream_vs_options().is_err());
}

#[test]
fn cannot_encode_non_numeric_in_numeric_mode() {
    let encoder = Encoder::new(options(None, None, Some(EncodingModes::Numeric)), "123Z456".as_bytes().to_vec());
    assert!(encoder.validate_data_stream_vs_options().is_err());
}

#[test]
fn cannot_encode_non_alphanum_in_alphanum_mode() {
    let encoder = Encoder::new(options(None, None, Some(EncodingModes::AlphaNumeric)), "A#BC".as_bytes().to_vec());
    assert!(encoder.validate_data_stream_vs_options().is_err());
}

#[test]
fn when_first_character_not_alphanum_starts_in_byte() {
    assert_eq!(select_initial_encoding("#ABC123PLO.".as_bytes(), 9), EncodingModes::Byte);
}

#[test]
fn when_first_character_alphanum_but_non_alphanum_follows_starts_in_byte() {
    assert_eq!(select_initial_encoding("ABC1#23PLO.".as_bytes(), 9), EncodingModes::Byte);
}

#[test]
fn when_first_character_alphanum_and_non_alphanum_follows_much_later_starts_in_alphanum() {
    assert_eq!(select_initial_encoding("ABC123#PLO.".as_bytes(), 9), EncodingModes::AlphaNumeric);
}

#[test]
fn when_first_character_numeric_but_non_alphanum_follows_starts_in_byte() {
    assert_eq!(select_initial_encoding("12#2423PLO.".as_bytes(), 9), EncodingModes::Byte);
}

#[test]
fn when_first_character_numeric_but_alphanum_follows_starts_in_alphanum() {
    assert_eq!(select_initial_encoding("12345F456PLO.".as_bytes(), 9), EncodingModes::AlphaNumeric);
}

#[test]
fn when_first_character_numeric_and_non_alphanum_follows_much_later_starts_in_numeric() {
    assert_eq!(select_initial_encoding("1234#PLO.".as_bytes(), 9), EncodingModes::Numeric);
}

#[test]
fn when_first_character_numeric_and_alphanum_follows_much_later_starts_in_numeric() {
    assert_eq!(select_initial_encoding("1234567PLO.".as_bytes(), 9), EncodingModes::Numeric);
}

#[test]
fn change_distances_are_correctly_calculated() {
    let distances = calculate_change_distances("ABC".as_bytes());
    assert_eq!(&distances[..], &[d(None, Some(0), None), d(None, Some(0), None), d(None, Some(0), None)]);

    let distances = calculate_change_distances("A1C".as_bytes());
    assert_eq!(&distances[..], &[d(None, Some(0), Some(1)), d(None, Some(1), Some(0)), d(None, Some(0), None)]);

    let distances = calculate_change_distances("^^^AAAA1111ZZ^^11A".as_bytes());
    assert_eq!(
        &distances[..],
        &[
            d(Some(0), Some(3), Some(7)),
            d(Some(0), Some(2), Some(6)),
            d(Some(0), Some(1), Some(5)),
            d(Some(10), Some(0), Some(4)),
            d(Some(9), Some(0), Some(3)),
            d(Some(8), Some(0), Some(2)),
            d(Some(7), Some(0), Some(1)),
            d(Some(6), Some(4), Some(0)),
            d(Some(5), Some(3), Some(0)),
            d(Some(4), Some(2), Some(0)),
            d(Some(3), Some(1), Some(0)),
            d(Some(2), Some(0), Some(4)),
            d(Some(1), Some(0), Some(3)),
            d(Some(0), Some(4), Some(2)),
            d(Some(0), Some(3), Some(1)),
            d(None, Some(2), Some(0)),
            d(None, Some(1), Some(0)),
            d(None, Some(0), None),
        ]
    );
}

#[test]
fn encodes_numeric_run_correctly() {
    let (encoded_run, count) = encode_numeric_run("01234567".as_bytes(), 0);
    assert_eq!(count, 8);
    assert_eq!(encoded_run, bits(&[0, 0, 0, 0, 0, 0, 1, 1, 0, 0, 0, 1, 0, 1, 0, 1, 1, 0, 0, 1, 1, 0, 0, 0, 0, 1, 1]));
}

#[test]
fn alphanumeric_includes_all_legit_characters() {
    let string = "A B$C%0.1/2*X+Y-Z:";
    assert!(string.bytes().all(|c| is_qr_alphanumeric(c)));
}

#[test]
fn alphanumeric_doesnt_include_lowercase() {
    let string = "abcpqr";
    assert!(string.bytes().all(|c| !is_qr_alphanumeric(c)));
}

#[test]
fn encodes_iso_example_in_version_1_m() {
    // "01234567" in Numeric mode, 1-M: the codewords of ISO/IEC 18004 Annex I
    let opts = Options {
        qr_type: Some(QRSymbolTypes::QRCode),
        version: Some(1),
        mode: Some(EncodingModes::Numeric),
        correction_level: Some(CorrectionLevels::M),
    };
    let mut encoder = Encoder::new(opts, "01234567".as_bytes().to_vec());
    encoder.encode_data_into_byte_stream().unwrap();
    assert_eq!(
        encoder.output_data,
        vec![0x10, 0x20, 0x0C, 0x56, 0x61, 0x80, 0xEC, 0x11, 0xEC, 0x11, 0xEC, 0x11, 0xEC, 0x11, 0xEC, 0x11]
    );
}

#[test]
fn dynamic_mode_switches_segments() {
    let opts = Options {
        qr_type: Some(QRSymbolTypes::QRCode),
        version: Some(1),
        mode: None,
        correction_level: Some(CorrectionLevels::L),
    };
    let mut encoder = Encoder::new(opts, "HELLO WORLD".as_bytes().to_vec());
    encoder.encode_data_into_byte_stream().unwrap();
    // 0010 000001011 then the pairs of "HELLO WORLD"
    assert_eq!(&encoder.output_data[..4], &[0x20, 0x5B, 0x0B, 0x78]);
    assert_eq!(encoder.output_data.len(), 19);
}

#[test]
fn encoding_errors() {
    let mut over = Encoder::new(
        Options {
            qr_type: Some(QRSymbolTypes::QRCode),
            version: Some(1),
            mode: Some(EncodingModes::Byte),
            correction_level: Some(CorrectionLevels::H),
        },
        vec![b'a'; 20],
    );
    assert_eq!(over.encode_data_into_byte_stream().unwrap_err().kind, ErrorKind::OverCapacity);
    let mut micro = Encoder::new(
        Options {
            qr_type: Some(QRSymbolTypes::MicroQRCode),
            version: Some(2),
            mode: None,
            correction_level: Some(CorrectionLevels::L),
        },
        "123".as_bytes().to_vec(),
    );
    assert_eq!(micro.encode_data_into_byte_stream().unwrap_err().kind, ErrorKind::UnsupportedConfiguration);
    let empty = Encoder::new(options(None, None, None), vec![]);
    assert_eq!(empty.validate_data_stream_vs_options().unwrap_err().kind, ErrorKind::InputEmpty);
    let bad = Encoder::new(options(None, None, Some(EncodingModes::Numeric)), "12a".as_bytes().to_vec());
    assert_eq!(bad.validate_data_stream_vs_options().unwrap_err().kind, ErrorKind::ModeIncompatible);
}

#[test]
fn micro_m1_pads_with_a_nibble() {
    let opts = Options {
        qr_type: Some(QRSymbolTypes::MicroQRCode),
        version: Some(1),
        mode: Some(EncodingModes::Numeric),
        correction_level: Some(CorrectionLevels::DetectionOnly),
    };
    let mut encoder = Encoder::new(opts, "12".as_bytes().to_vec());
    encoder.encode_data_into_byte_stream().unwrap();
    // 010 0001100 000 (terminator) 00 -> 0x43 0x00, then 0xEC, then the last nibble 0
    assert_eq!(encoder.output_data, vec![0x43, 0x00, 0x00]);
}
