//! Handler and store behavior: the scenarios a daemon serves, driven
//! through the same entry points the daemon uses, including whole
//! exchanges over the real byte format.

use fm_core::framing::{frame_payload, unframe_payload};
use fm_core::handler::{handle_payload, handle_request};
use fm_core::proto::{decode_response, serialize_request, serialize_response, Request};
use fm_core::store::SelectionStore;

fn paths(list: &[&str]) -> Vec<Vec<u8>> {
    list.iter().map(|s| s.as_bytes().to_vec()).collect()
}

fn sorted(mut list: Vec<Vec<u8>>) -> Vec<Vec<u8>> {
    list.sort();
    list
}

/// One full exchange as the daemon performs it: a framed request goes in,
/// a framed response comes out.
fn exchange(store: &mut SelectionStore, request_frame: &Vec<u8>) -> (Vec<u8>, Vec<Vec<u8>>) {
    let (payload, consumed) = unframe_payload(request_frame).expect("whole frame");
    assert_eq!(consumed, request_frame.len());
    let resp = handle_payload(store, &payload);
    // The daemon frames the response; the client reads it back.
    let resp_bytes = serialize_response(&resp);
    let resp_frame = frame_payload(&resp_bytes).expect("response fits a frame");
    let (resp_payload, _) = unframe_payload(&resp_frame).expect("whole frame");
    let decoded = decode_response(&resp_payload).expect("response decodes");
    (decoded.status, decoded.files)
}

fn framed(command: i32, files: &[&str]) -> Vec<u8> {
    let req = Request { command, files: paths(files) };
    frame_payload(&serialize_request(&req)).expect("request fits a frame")
}

#[test]
fn scenario_store_then_read_copy() {
    let mut store = SelectionStore::new();
    let (status, files) = exchange(&mut store, &framed(0, &["/a/b.txt", "/c/d.txt"]));
    assert_eq!(status, b"success".to_vec());
    assert!(files.is_empty());
    let (status, files) = exchange(&mut store, &framed(3, &[]));
    assert_eq!(status, b"success".to_vec());
    assert_eq!(sorted(files), sorted(paths(&["/a/b.txt", "/c/d.txt"])));
}

#[test]
fn scenario_read_cut_before_any_cut() {
    let mut store = SelectionStore::new();
    let (status, files) = exchange(&mut store, &framed(4, &[]));
    assert_eq!(status, b"success".to_vec());
    assert!(files.is_empty());
}

#[test]
fn scenario_malformed_payload_then_next_connection() {
    let mut store = SelectionStore::new();
    exchange(&mut store, &framed(0, &["/keep"]));
    // A well-framed exchange whose payload is garbage: the answer is the
    // "error" status and nothing else changes.
    let garbage = frame_payload(&vec![0xDE, 0xAD, 0xBE, 0xEF]).unwrap();
    let (status, files) = exchange(&mut store, &garbage);
    assert_eq!(status, b"error".to_vec());
    assert!(files.is_empty());
    // The daemon goes on serving: the next connection works and the store
    // was not touched.
    let (status, files) = exchange(&mut store, &framed(3, &[]));
    assert_eq!(status, b"success".to_vec());
    assert_eq!(files, paths(&["/keep"]));
}

#[test]
fn replace_is_not_union() {
    let mut store = SelectionStore::new();
    exchange(&mut store, &framed(0, &["/old/a", "/old/b"]));
    exchange(&mut store, &framed(0, &["/new/c"]));
    let (status, files) = exchange(&mut store, &framed(3, &[]));
    assert_eq!(status, b"success".to_vec());
    assert_eq!(files, paths(&["/new/c"]));
}

#[test]
fn clear_is_idempotent() {
    let mut store = SelectionStore::new();
    exchange(&mut store, &framed(0, &["/a"]));
    exchange(&mut store, &framed(1, &["/b"]));
    let (status, _) = exchange(&mut store, &framed(2, &[]));
    assert_eq!(status, b"success".to_vec());
    let (status, files) = exchange(&mut store, &framed(3, &[]));
    assert_eq!(status, b"success".to_vec());
    assert!(files.is_empty());
    let (status, _) = exchange(&mut store, &framed(2, &[]));
    assert_eq!(status, b"success".to_vec());
    let (status, files) = exchange(&mut store, &framed(4, &[]));
    assert_eq!(status, b"success".to_vec());
    assert!(files.is_empty());
}

#[test]
fn unknown_ordinal_answers_unknown() {
    let mut store = SelectionStore::new();
    exchange(&mut store, &framed(0, &["/kept"]));
    for ordinal in [5, 17, -1] {
        let (status, files) = exchange(&mut store, &framed(ordinal, &["/ignored"]));
        assert_eq!(status, b"unknown".to_vec());
        assert!(files.is_empty());
    }
    let (_, files) = exchange(&mut store, &framed(3, &[]));
    assert_eq!(files, paths(&["/kept"]));
}

#[test]
fn duplicates_collapse() {
    let mut store = SelectionStore::new();
    exchange(&mut store, &framed(0, &["/x", "/x", "/y", "/x"]));
    let (_, files) = exchange(&mut store, &framed(3, &[]));
    assert_eq!(sorted(files), sorted(paths(&["/x", "/y"])));
}

#[test]
fn copied_and_cut_are_independent() {
    let mut store = SelectionStore::new();
    exchange(&mut store, &framed(0, &["/both", "/only-copy"]));
    exchange(&mut store, &framed(1, &["/both", "/only-cut"]));
    let (_, copied) = exchange(&mut store, &framed(3, &[]));
    let (_, cut) = exchange(&mut store, &framed(4, &[]));
    assert_eq!(sorted(copied), sorted(paths(&["/both", "/only-copy"])));
    assert_eq!(sorted(cut), sorted(paths(&["/both", "/only-cut"])));
    // Replacing one set leaves the other alone.
    exchange(&mut store, &framed(0, &[]));
    let (_, cut) = exchange(&mut store, &framed(4, &[]));
    assert_eq!(sorted(cut), sorted(paths(&["/both", "/only-cut"])));
}

#[test]
fn snapshot_is_a_point_in_time() {
    let mut store = SelectionStore::new();
    let mut req = Request { command: 0, files: paths(&["/before"]) };
    handle_request(&mut store, &req);
    let before = store.snapshot(fm_core::store::Which::Copied);
    req = Request { command: 0, files: paths(&["/after"]) };
    handle_request(&mut store, &req);
    let after = store.snapshot(fm_core::store::Which::Copied);
    // Each read saw exactly one side of the replace, and the first copy
    // did not change when the store did.
    assert_eq!(before, paths(&["/before"]));
    assert_eq!(after, paths(&["/after"]));
}
