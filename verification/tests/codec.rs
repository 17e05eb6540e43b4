//! Wire codec behavior: round trips, default handling, malformed input,
//! and byte-level agreement with prost's encoding functions.

use fm_core::proto::{
    decode_request, decode_response, encode_varint, serialize_request, serialize_response,
    Request, Response,
};

fn paths(list: &[&str]) -> Vec<Vec<u8>> {
    list.iter().map(|s| s.as_bytes().to_vec()).collect()
}

fn round_trip_request(command: i32, files: Vec<Vec<u8>>) {
    let req = Request { command, files };
    let bytes = serialize_request(&req);
    let back = decode_request(&bytes).expect("round trip must decode");
    assert_eq!(back.command, req.command);
    assert_eq!(back.files, req.files);
}

fn round_trip_response(status: &[u8], files: Vec<Vec<u8>>) {
    let resp = Response { status: status.to_vec(), files };
    let bytes = serialize_response(&resp);
    let back = decode_response(&bytes).expect("round trip must decode");
    assert_eq!(back.status, resp.status);
    assert_eq!(back.files, resp.files);
}

#[test]
fn request_round_trip_every_command() {
    for command in [0, 1, 2, 3, 4] {
        round_trip_request(command, vec![]);
        round_trip_request(command, paths(&["/a/b.txt", "/c/d.txt"]));
    }
}

#[test]
fn request_round_trip_duplicates() {
    round_trip_request(0, paths(&["/same", "/same", "/same"]));
}

#[test]
fn request_round_trip_unicode_and_spaces() {
    round_trip_request(1, paths(&["/tmp/\u{fc}nicode \u{3b4}.txt", "/with space/file name"]));
}

#[test]
fn request_round_trip_empty_path() {
    round_trip_request(0, vec![vec![], b"/x".to_vec()]);
}

#[test]
fn request_round_trip_large_ordinals() {
    // Multi-byte varints for the command, and the sign-extended negatives.
    for command in [5, 127, 128, 300, i32::MAX, -1, -300, i32::MIN] {
        round_trip_request(command, paths(&["/p"]));
    }
}

#[test]
fn request_round_trip_long_path() {
    // A path whose length needs a two-byte varint.
    let long = vec![b'x'; 300];
    round_trip_request(0, vec![long]);
}

#[test]
fn response_round_trip_tokens() {
    for status in [&b"success"[..], b"unknown", b"error", b""] {
        round_trip_response(status, vec![]);
        round_trip_response(status, paths(&["/a", "/b"]));
    }
}

#[test]
fn default_request_encodes_to_nothing() {
    // Command 0 with no paths is all defaults: an empty payload.
    let req = Request { command: 0, files: vec![] };
    assert_eq!(serialize_request(&req), Vec::<u8>::new());
    // And an empty payload decodes to those defaults.
    let back = decode_request(&Vec::new()).expect("empty payload is a valid request");
    assert_eq!(back.command, 0);
    assert!(back.files.is_empty());
}

#[test]
fn decode_rejects_malformed_payloads() {
    // A key of zero names field number zero.
    assert!(decode_request(&vec![0x00]).is_err());
    // A truncated varint.
    assert!(decode_request(&vec![0xFF]).is_err());
    // Field 1 with the length-delimited wire type.
    assert!(decode_request(&vec![0x0A, 0x01, 0x61]).is_err());
    // Field 2 with the varint wire type.
    assert!(decode_request(&vec![0x10, 0x01]).is_err());
    // Field 2 whose declared length runs past the payload.
    assert!(decode_request(&vec![0x12, 0x05, 0x61]).is_err());
    // A group wire type.
    assert!(decode_request(&vec![0x1B]).is_err());
    // The same payloads are no response either.
    assert!(decode_response(&vec![0x00]).is_err());
    assert!(decode_response(&vec![0x08, 0x03]).is_err());
}

#[test]
fn decode_skips_unknown_fields() {
    // Field 3 (varint), field 4 (length-delimited), field 5 (32-bit) and
    // field 6 (64-bit) before a known command field.
    let payload = vec![
        0x18, 0x2A, // field 3, varint 42
        0x22, 0x02, 0x61, 0x62, // field 4, two bytes
        0x2D, 0x01, 0x02, 0x03, 0x04, // field 5, four bytes
        0x31, 0x01, 0x02, 0x03, 0x04, 0x05, 0x06, 0x07, 0x08, // field 6, eight bytes
        0x08, 0x04, // field 1: command 4
    ];
    let back = decode_request(&payload).expect("unknown fields are skipped");
    assert_eq!(back.command, 4);
    assert!(back.files.is_empty());
}

#[test]
fn decode_last_command_wins() {
    let payload = vec![0x08, 0x01, 0x08, 0x03];
    let back = decode_request(&payload).expect("repeated field decodes");
    assert_eq!(back.command, 3);
}

#[test]
fn decode_rejects_overlong_varint() {
    // Ten continuation bytes never end a varint.
    let payload = vec![0x08, 0x80, 0x80, 0x80, 0x80, 0x80, 0x80, 0x80, 0x80, 0x80, 0x80];
    assert!(decode_request(&payload).is_err());
    // A tenth byte above 1 overflows 64 bits.
    let payload = vec![0x08, 0xFF, 0xFF, 0xFF, 0xFF, 0xFF, 0xFF, 0xFF, 0xFF, 0xFF, 0x02];
    assert!(decode_request(&payload).is_err());
}

#[test]
fn decode_accepts_ten_byte_varint() {
    // u64::MAX as a command varint: low 32 bits read as two's complement.
    let payload = vec![0x08, 0xFF, 0xFF, 0xFF, 0xFF, 0xFF, 0xFF, 0xFF, 0xFF, 0xFF, 0x01];
    let back = decode_request(&payload).expect("a ten-byte varint is valid");
    assert_eq!(back.command, -1);
}

#[test]
fn varint_agrees_with_prost() {
    for value in [0u64, 1, 127, 128, 129, 300, 16383, 16384, u32::MAX as u64, u64::MAX] {
        let mut buf: Vec<u8> = Vec::new();
        encode_varint(&mut buf, value);
        let mut slice: &[u8] = &buf;
        let decoded = prost::encoding::decode_varint(&mut slice).expect("prost decodes it");
        assert_eq!(decoded, value);
        assert!(slice.is_empty());
    }
}

#[test]
fn request_bytes_agree_with_prost() {
    let files = ["/a/b.txt", "/tmp/\u{fc} \u{3b4}.txt", ""];
    for command in [0i32, 3, -1] {
        let mut expected: Vec<u8> = Vec::new();
        if command != 0 {
            prost::encoding::int32::encode(1, &command, &mut expected);
        }
        for f in files {
            prost::encoding::string::encode(2, &f.to_string(), &mut expected);
        }
        let req = Request { command, files: paths(&files) };
        assert_eq!(serialize_request(&req), expected);
    }
}

#[test]
fn response_bytes_agree_with_prost() {
    for status in ["success", "unknown", "error", ""] {
        let mut expected: Vec<u8> = Vec::new();
        if !status.is_empty() {
            prost::encoding::string::encode(1, &status.to_string(), &mut expected);
        }
        prost::encoding::string::encode(2, &"/a".to_string(), &mut expected);
        let resp = Response { status: status.as_bytes().to_vec(), files: paths(&["/a"]) };
        assert_eq!(serialize_response(&resp), expected);
    }
}

#[test]
fn decode_accepts_any_field_order() {
    // A path before the command.
    let payload = vec![0x12, 0x02, b'/', b'a', 0x08, 0x01];
    let back = decode_request(&payload).expect("field order is free");
    assert_eq!(back.command, 1);
    assert_eq!(back.files, vec![b"/a".to_vec()]);
}

#[test]
fn decode_last_status_wins() {
    let payload = vec![0x0A, 0x01, b'a', 0x0A, 0x01, b'b'];
    let back = decode_response(&payload).expect("repeated status decodes");
    assert_eq!(back.status, b"b".to_vec());
}

#[test]
fn decode_rejects_key_above_32_bits() {
    // A field key varint worth 2^35.
    let payload = vec![0x80, 0x80, 0x80, 0x80, 0x80, 0x01];
    assert!(decode_request(&payload).is_err());
    assert!(decode_response(&payload).is_err());
}
