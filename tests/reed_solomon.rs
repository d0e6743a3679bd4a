use qr_generator::int_mod::IntMod;
use qr_generator::polynomial::Polynomial;
use qr_generator::reed_solomon::ReedSolomonEncoder;

type Element = Polynomial<IntMod<2>>;
type Qr = ReedSolomonEncoder<2, 8, 285, 2>;
type Gf16 = ReedSolomonEncoder<2, 4, 19, 2>;

fn polys(values: &[u32]) -> Vec<Element> {
    values.iter().map(|&cw| Element::from_number(cw)).collect()
}

const MESSAGE: [u32; 16] = [32, 91, 11, 120, 209, 114, 220, 77, 67, 64, 236, 17, 236, 17, 236, 17];
const CODEWORD: [u32; 26] = [32, 91, 11, 120, 209, 114, 220, 77, 67, 64, 236, 17, 236, 17, 236, 17,
    196, 35, 39, 119, 235, 215, 231, 226, 93, 23];

#[test]
fn test_encoding_as_for_qr() {
    let rs = Qr::new();
    let encoded = rs.encode(polys(&MESSAGE), 10);
    assert_eq!(encoded, polys(&CODEWORD));
}

#[test]
fn test_encoding_in_gf16() {
    let rs = Gf16::new();
    let message = [1u32, 2, 3, 4, 5, 6, 7, 8, 9, 10, 11];
    let encoded = rs.encode(polys(&message), 4);
    let expected = [1u32, 2, 3, 4, 5, 6, 7, 8, 9, 10, 11, 3, 3, 12, 12];
    assert_eq!(encoded, polys(&expected));
}

#[test]
fn test_decoding_with_errors_in_gf16() {
    let rs = Gf16::new();
    let mut encoded = [1u32, 2, 3, 4, 5, 6, 7, 8, 9, 10, 11, 3, 3, 12, 12];
    encoded[5] = 11;
    encoded[12] = 1;
    let decoded = rs.decode(polys(&encoded), 4);
    let message = [1u32, 2, 3, 4, 5, 6, 7, 8, 9, 10, 11];
    assert_eq!(decoded, polys(&message));
}

#[test]
fn test_decoding_as_for_qr_with_no_errors() {
    let rs = Qr::new();
    let decoded = rs.decode(polys(&CODEWORD), 10);
    assert_eq!(decoded, polys(&MESSAGE));
}

#[test]
fn test_decoding_as_for_qr_with_errors() {
    let rs = Qr::new();
    let mut encoded = CODEWORD;
    let msg_len = encoded.len();
    encoded[0] = 33;
    encoded[msg_len - 7] = 199;
    encoded[msg_len - 25] = 38;
    let decoded = rs.decode(polys(&encoded), 10);
    assert_eq!(decoded, polys(&MESSAGE));
}

#[test]
fn round_trip_without_errors() {
    let rs = Qr::new();
    let message = [0u32, 1, 2, 254, 255, 128, 7];
    for r in [2usize, 4, 7] {
        let encoded = rs.encode(polys(&message), r);
        assert_eq!(encoded.len(), message.len() + r);
        assert_eq!(rs.decode(encoded, r), polys(&message));
    }
}

#[test]
fn corrects_up_to_half_the_parity() {
    let rs = Qr::new();
    let clean = rs.encode(polys(&MESSAGE), 10);
    let mut received = clean.clone();
    for (pos, value) in [(2usize, 1u32), (9, 200), (15, 3), (20, 77), (25, 0)] {
        received[pos] = Element::from_number(value);
    }
    assert_eq!(rs.decode(received, 10), polys(&MESSAGE));
}

#[test]
fn encoding_is_systematic() {
    let rs = Qr::new();
    let encoded = rs.encode(polys(&MESSAGE), 6);
    assert_eq!(&encoded[..16], &polys(&MESSAGE)[..]);
}

#[test]
fn no_parity_leaves_the_message() {
    let rs = Qr::new();
    assert_eq!(rs.encode(polys(&MESSAGE), 0), polys(&MESSAGE));
}
