use ferrostar_core::codec::{decode_polyline, encode_polyline, CodecError};
use ferrostar_core::models::GeographicCoordinate;

fn c(lat: i64, lng: i64, precision: u32) -> GeographicCoordinate {
    GeographicCoordinate { lat, lng, precision }
}

#[test]
fn decodes_reference_polyline_at_precision_five() {
    let points = decode_polyline("_p~iF~ps|U_ulLnnqC_mqNvxq`@", 5).unwrap();
    assert_eq!(
        points,
        vec![c(3850000, -12020000, 5), c(4070000, -12095000, 5), c(4325200, -12645300, 5)]
    );
}

#[test]
fn decodes_small_deltas() {
    let points = decode_polyline("_ibE_seK_seK_seK", 5).unwrap();
    assert_eq!(points, vec![c(100000, 200000, 5), c(300000, 400000, 5)]);
}

#[test]
fn empty_text_decodes_to_no_points() {
    assert_eq!(decode_polyline("", 6).unwrap(), vec![]);
}

#[test]
fn precision_is_carried_not_applied() {
    let p5 = decode_polyline("_ibE_seK", 5).unwrap();
    let p6 = decode_polyline("_ibE_seK", 6).unwrap();
    assert_eq!(p5[0].lat, p6[0].lat);
    assert_eq!(p5[0].precision, 5);
    assert_eq!(p6[0].precision, 6);
}

#[test]
fn truncated_varint_is_rejected() {
    // `_` carries a continuation flag, so the text stops inside a varint.
    assert_eq!(decode_polyline("_p~iF~ps|U_", 5), Err(CodecError::Malformed));
    assert_eq!(decode_polyline("_p~iF~ps|", 5), Err(CodecError::Malformed));
}

#[test]
fn latitude_without_longitude_is_rejected() {
    assert_eq!(decode_polyline("_p~iF~ps|U_ulL", 5), Err(CodecError::Malformed));
}

#[test]
fn character_outside_alphabet_is_rejected() {
    assert_eq!(decode_polyline("_p~iF ps|U", 5), Err(CodecError::Malformed));
    assert_eq!(decode_polyline("_p~iFé", 5), Err(CodecError::Malformed));
}

#[test]
fn overlong_varint_is_rejected() {
    // Thirteen continuation chunks before the terminating one.
    assert_eq!(decode_polyline("_____________?_____________?", 5), Err(CodecError::Malformed));
}

#[test]
fn agrees_with_polyline_crate() {
    let text = "qikdcB{~dpXmxRbaBuqAoqKyy@svFwNcfKzsAysMdr@evD`m@qrAohBi}A{OkdGjg@ajDZww@lJ}Jrs@}`CvzBq`E`PiB`~A|l@z@feA";
    let ours = decode_polyline(text, 6).unwrap();
    let theirs = polyline::decode_polyline(text, 6).unwrap();
    assert_eq!(ours.len(), theirs.0.len());
    for (a, b) in ours.iter().zip(theirs.0.iter()) {
        assert_eq!(a.lat as f64 / 1e6, b.y);
        assert_eq!(a.lng as f64 / 1e6, b.x);
    }
}

#[test]
fn codec_error_has_message() {
    assert_eq!(CodecError::Malformed.message(), "malformed encoded polyline");
}

#[test]
fn encodes_reference_points() {
    let points = vec![c(3850000, -12020000, 5), c(4070000, -12095000, 5), c(4325200, -12645300, 5)];
    assert_eq!(encode_polyline(&points).unwrap(), "_p~iF~ps|U_ulLnnqC_mqNvxq`@");
    assert_eq!(encode_polyline(&vec![]).unwrap(), "");
}

#[test]
fn encoding_round_trips() {
    let points = vec![c(52517033, 13388798, 6), c(-1, 1, 6), c(0, 0, 6), c(90000000, -180000000, 6)];
    let text = encode_polyline(&points).unwrap();
    assert_eq!(decode_polyline(&text, 6).unwrap(), points);
}

#[test]
fn encoding_agrees_with_polyline_crate() {
    let points = vec![c(3850000, -12020000, 5), c(4070000, -12095000, 5), c(4325200, -12645300, 5)];
    let line: Vec<[f64; 2]> = vec![[-120.2, 38.5], [-120.95, 40.7], [-126.453, 43.252]];
    let theirs = polyline::encode_coordinates(line.into_iter().map(|p| p.into()), 5).unwrap();
    assert_eq!(encode_polyline(&points).unwrap(), theirs);
}

#[test]
fn change_too_large_for_a_varint_is_not_encoded() {
    assert_eq!(encode_polyline(&vec![c(i64::MAX, 0, 5)]), None);
    assert_eq!(encode_polyline(&vec![c(1 << 58, 0, 5), c(-(1 << 58) - 1, 0, 5)]), None);
    assert!(encode_polyline(&vec![c(1 << 58, 0, 5), c(-(1 << 58), 0, 5)]).is_some());
    assert!(encode_polyline(&vec![c((1 << 59) - 1, 0, 5)]).is_some());
}
