use p256::elliptic_curve::sec1::ToEncodedPoint;
use p256::{AffinePoint, EncodedPoint};
use sa_psi::ec_point::{decode_point, PointDecodeError};

fn with_tag(tag: u8, len: usize) -> Vec<u8> {
    let mut v = vec![7u8; len];
    if len > 0 {
        v[0] = tag;
    }
    v
}

#[test]
fn sec1_encodings_of_each_tag_are_accepted_as_they_are() {
    for (tag, len) in [(0u8, 1usize), (2, 33), (3, 33), (4, 65), (5, 33)] {
        let bytes = with_tag(tag, len);
        let p = decode_point(&bytes).expect("a well-formed encoding");
        assert_eq!(p.bytes, bytes);
    }
}

#[test]
fn unknown_tags_and_wrong_lengths_are_refused() {
    assert!(matches!(decode_point(&[]), Err(PointDecodeError::PointEncoding)));
    assert!(matches!(decode_point(&with_tag(1, 33)), Err(PointDecodeError::PointEncoding)));
    assert!(matches!(decode_point(&with_tag(6, 65)), Err(PointDecodeError::PointEncoding)));
    assert!(matches!(decode_point(&with_tag(0, 2)), Err(PointDecodeError::PointEncoding)));
    assert!(matches!(decode_point(&with_tag(2, 65)), Err(PointDecodeError::PointEncoding)));
    assert!(matches!(decode_point(&with_tag(4, 33)), Err(PointDecodeError::PointEncoding)));
    assert!(matches!(decode_point(&with_tag(5, 32)), Err(PointDecodeError::PointEncoding)));
}

#[test]
fn the_generator_round_trips_through_its_encodings() {
    for compress in [false, true] {
        let encoded: EncodedPoint = AffinePoint::GENERATOR.to_encoded_point(compress);
        let p = decode_point(encoded.as_bytes()).expect("p256's own encoding");
        assert_eq!(p.bytes, encoded.as_bytes().to_vec());
        assert_eq!(EncodedPoint::from_bytes(&p.bytes).unwrap(), encoded);
    }
}
