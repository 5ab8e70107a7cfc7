use arora_behavior::cdr::{frame, unframe, CdrReader, CdrWriter};

/// The exact CDR bytes ROS 2 puts on the wire for a PointStamped with
/// stamp (1, 2), frame "odom" and point (1.0, 2.0, 3.0), written field by
/// field: "odom" (length 5 with its NUL) forces 7 bytes of padding before the
/// 8-aligned doubles.
#[test]
fn point_stamped_matches_golden_cdr() {
    let mut w = CdrWriter::new();
    w.write_i32(1).unwrap();
    w.write_u32(2).unwrap();
    w.write_string("odom").unwrap();
    for x in [1.0f64, 2.0, 3.0] {
        w.write_u64(x.to_bits()).unwrap();
    }
    let bytes = frame(&w.into_bytes());


    let golden: Vec<u8> = vec![
        0x00, 0x01, 0x00, 0x00,             // encapsulation: CDR_LE
        0x01, 0x00, 0x00, 0x00,             // Time.sec = 1 (i32)
        0x02, 0x00, 0x00, 0x00,             // Time.nanosec = 2 (u32)
        0x05, 0x00, 0x00, 0x00,             // frame_id length = 5 (incl NUL)
        0x6F, 0x64, 0x6F, 0x6D, 0x00,       // "odom\0"
        0x00, 0x00, 0x00, 0x00, 0x00, 0x00, 0x00, // pad to 8-align (7 bytes)
        0x00, 0x00, 0x00, 0x00, 0x00, 0x00, 0xF0, 0x3F, // Point.x = 1.0 (f64 LE)
        0x00, 0x00, 0x00, 0x00, 0x00, 0x00, 0x00, 0x40, // Point.y = 2.0
        0x00, 0x00, 0x00, 0x00, 0x00, 0x00, 0x08, 0x40, // Point.z = 3.0
    ];
    assert_eq!(bytes, golden, "CDR bytes diverge from the hand-computed wire form");

    let body = unframe(&golden).unwrap();
    let mut r = CdrReader::new(body);
    assert_eq!(r.read_i32().unwrap(), 1);
    assert_eq!(r.read_u32().unwrap(), 2);
    assert_eq!(r.read_string().unwrap(), "odom");
    for x in [1.0f64, 2.0, 3.0] {
        assert_eq!(f64::from_bits(r.read_u64().unwrap()), x);
    }
}

#[test]
fn point_stamped_round_trips() {
    for frame_id in ["map", "odom", "", "a_long_frame_name"] {
        let mut w = CdrWriter::new();
        w.write_i32(1).unwrap();
        w.write_u32(2).unwrap();
        w.write_string(frame_id).unwrap();
        w.write_u64(1.0f64.to_bits()).unwrap();
        let body = w.into_bytes();
        let mut r = CdrReader::new(&body);
        assert_eq!(r.read_i32().unwrap(), 1);
        assert_eq!(r.read_u32().unwrap(), 2);
        assert_eq!(r.read_string().unwrap(), frame_id, "round-trip mismatch for frame {frame_id:?}");
        assert_eq!(f64::from_bits(r.read_u64().unwrap()), 1.0);
    }
}

#[test]
fn small_integers_align_to_their_size() {
    let mut w = CdrWriter::new();
    w.write_u8(7).unwrap();
    w.write_u16(0x0102).unwrap();
    w.write_i8(-1).unwrap();
    w.write_i64(-2).unwrap();
    w.write_bool(true).unwrap();
    w.write_i16(-3).unwrap();
    let body = w.into_bytes();
    assert_eq!(
        body,
        vec![
            7, 0, 0x02, 0x01, // u8, pad, u16 LE
            0xFF, 0, 0, 0, // i8, pad to 8
            0xFE, 0xFF, 0xFF, 0xFF, 0xFF, 0xFF, 0xFF, 0xFF, // i64 -2
            1, 0, 0xFD, 0xFF, // bool, pad, i16 -3
        ]
    );
    let mut r = CdrReader::new(&body);
    assert_eq!(r.read_u8().unwrap(), 7);
    assert_eq!(r.read_u16().unwrap(), 0x0102);
    assert_eq!(r.read_i8().unwrap(), -1);
    assert_eq!(r.read_i64().unwrap(), -2);
    assert!(r.read_bool().unwrap());
    assert_eq!(r.read_i16().unwrap(), -3);
    assert!(r.read_u8().is_err(), "reading past the end is an error");
}

#[test]
fn a_payload_without_the_little_endian_header_is_refused() {
    assert!(unframe(&[0x00, 0x01, 0x00]).is_err());
    assert!(unframe(&[0x00, 0x00, 0x00, 0x00]).is_err());
    assert_eq!(unframe(&[0x00, 0x01, 0x00, 0x00, 9]).unwrap(), &[9]);
}

#[test]
fn any_nonzero_bool_byte_reads_true() {
    let mut r = CdrReader::new(&[2, 0]);
    assert!(r.read_bool().unwrap());
    assert!(!r.read_bool().unwrap());
}

#[test]
fn a_default_writer_starts_as_an_empty_payload() {
    let mut w = CdrWriter::default();
    w.write_bool(true).unwrap();
    w.write_u32(2).unwrap();
    assert_eq!(w.into_bytes(), vec![1, 0, 0, 0, 2, 0, 0, 0]);
}

#[test]
fn a_short_read_names_what_it_needed_and_where() {
    let body = [1u8, 2, 3];
    let mut r = CdrReader::new(&body);
    assert_eq!(r.read_u8().unwrap(), 1);
    let e = r.read_u32().unwrap_err();
    assert_eq!(e.message, "CDR buffer underrun: need 4 bytes at 4, have 3");
}

#[test]
fn a_string_read_past_the_end_names_its_length() {
    let body = [12u8, 0, 0, 0, b'a'];
    let mut r = CdrReader::new(&body);
    let e = r.read_string().unwrap_err();
    assert_eq!(e.message, "CDR buffer underrun: need 12 bytes at 4, have 5");
}

#[test]
fn an_empty_cdr_string_length_is_refused() {
    let body = [0u8, 0, 0, 0];
    let mut r = CdrReader::new(&body);
    let e = r.read_string().unwrap_err();
    assert_eq!(e.message, "CDR string length 0 (must include the NUL terminator)");
}

#[test]
fn a_cdr_string_that_is_not_utf8_is_refused_with_the_reason() {
    let body = [3u8, 0, 0, 0, 0xFF, 0xFE, 0];
    let mut r = CdrReader::new(&body);
    let e = r.read_string().unwrap_err();
    assert!(e.message.starts_with("invalid utf-8 in CDR string: "), "{}", e.message);
    assert!(e.message.len() > "invalid utf-8 in CDR string: ".len());
}

#[test]
fn framing_errors_say_what_was_wrong() {
    assert_eq!(
        unframe(&[0, 1, 0]).unwrap_err().message,
        "CDR payload shorter than the 4-byte encapsulation header"
    );
    assert_eq!(
        unframe(&[0x00, 0x00, 0, 0]).unwrap_err().message,
        "unsupported CDR encapsulation 00 00 (little-endian only)"
    );
    assert_eq!(
        unframe(&[0xAB, 0x1f, 0, 0]).unwrap_err().message,
        "unsupported CDR encapsulation ab 1f (little-endian only)"
    );
}
