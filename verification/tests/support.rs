//! Framing, client helpers, the singleton guard and the configuration
//! model.

use fm_core::client::{encode_request_frame, new_request, parse_reply_files, SyncError};
use fm_core::config::{Config, Files, FilesStyle, Goto, InterfaceStyle, Keys, Status, Style};
use fm_core::framing::{frame_payload, u32_from_be_bytes, u32_to_be_bytes, unframe_payload};
use fm_core::guard::{is_another_server_running, multiple_instances};
use fm_core::proto::{serialize_request, serialize_response, Command, Response};

#[test]
fn length_prefix_is_big_endian() {
    assert_eq!(u32_to_be_bytes(0x0102_0304), vec![1, 2, 3, 4]);
    assert_eq!(u32_to_be_bytes(5), vec![0, 0, 0, 5]);
    assert_eq!(u32_from_be_bytes(1, 2, 3, 4), 0x0102_0304);
    assert_eq!(u32_from_be_bytes(0xFF, 0xFF, 0xFF, 0xFF), u32::MAX);
}

#[test]
fn frame_round_trip() {
    let payload = vec![0xAB, 0xCD, 0xEF];
    let frame = frame_payload(&payload).expect("short payload frames");
    assert_eq!(frame, vec![0, 0, 0, 3, 0xAB, 0xCD, 0xEF]);
    let (back, consumed) = unframe_payload(&frame).expect("frame reads back");
    assert_eq!(back, payload);
    assert_eq!(consumed, frame.len());
}

#[test]
fn truncated_frames_are_transport_faults() {
    // No whole prefix.
    assert!(unframe_payload(&vec![0, 0, 0]).is_err());
    // Fewer payload bytes than the prefix declares.
    assert!(unframe_payload(&vec![0, 0, 0, 4, 0xAA]).is_err());
    // The empty buffer.
    assert!(unframe_payload(&Vec::new()).is_err());
}

#[test]
fn request_frame_matches_codec_and_framing() {
    let request = new_request(Command::Copy, vec![b"/a".to_vec()]);
    let framed = encode_request_frame(&request).expect("fits a frame");
    let expected = frame_payload(&serialize_request(&request)).unwrap();
    assert_eq!(framed, expected);
}

#[test]
fn command_ordinals() {
    assert_eq!(Command::Copy.ordinal(), 0);
    assert_eq!(Command::Cut.ordinal(), 1);
    assert_eq!(Command::Clear.ordinal(), 2);
    assert_eq!(Command::GetCopy.ordinal(), 3);
    assert_eq!(Command::GetCut.ordinal(), 4);
}

#[test]
fn reply_parsing_judges_status() {
    let ok = Response { status: b"success".to_vec(), files: vec![b"/a".to_vec()] };
    let files = parse_reply_files(&serialize_response(&ok)).expect("success passes");
    assert_eq!(files, vec![b"/a".to_vec()]);

    for status in [&b"unknown"[..], b"error", b"", b"SUCCESS"] {
        let resp = Response { status: status.to_vec(), files: vec![] };
        let r = parse_reply_files(&serialize_response(&resp));
        assert_eq!(r, Err(SyncError::Failed));
    }

    let garbage = vec![0x00, 0xFF];
    assert_eq!(parse_reply_files(&garbage), Err(SyncError::Decode));
}

#[test]
fn second_instance_is_detected_by_count() {
    // The scan counts this process too: one instance is fine, a second
    // one makes the newcomer bow out before binding the socket.
    assert!(!multiple_instances(0));
    assert!(!multiple_instances(1));
    assert!(multiple_instances(2));
    assert!(multiple_instances(17));
    // The real scan runs and finds no daemon on this machine.
    assert!(!is_another_server_running());
}

fn interface_style() -> InterfaceStyle {
    InterfaceStyle { fg: String::new(), bg: String::new(), modifiers: vec![] }
}

fn files_style() -> FilesStyle {
    FilesStyle { icon: String::new(), fg: String::new(), bg: String::new(), modifiers: vec![] }
}

fn sample_config(show_hidden: bool) -> Config {
    Config {
        icon_spacing: 1,
        status_line_spacing: 0,
        path_line_spacing: 0,
        indent_first_level: false,
        selection_symbol: ">".to_string(),
        indent_guide: "|".to_string(),
        indent_spaces: 2,
        mouse: true,
        show_hidden,
        shell: vec!["sh".to_string()],
        info: vec![],
        status: Status { left: vec![], center: vec![], right: vec![] },
        keys: Keys {
            l: String::new(),
            up: String::new(),
            k: String::new(),
            down: String::new(),
            j: String::new(),
            left: String::new(),
            semicolon: String::new(),
            right: String::new(),
            a: String::new(),
            f: String::new(),
            n: String::new(),
            shift_n: String::new(),
            shift_v: String::new(),
            e: String::new(),
            shift_e: String::new(),
            s: String::new(),
            shift_s: String::new(),
            ctrl_s: String::new(),
            space: String::new(),
            y: String::new(),
            c: String::new(),
            p: String::new(),
            shift_c: String::new(),
            shift_t: String::new(),
            escape: String::new(),
            colon: String::new(),
            q: String::new(),
            shift_q: String::new(),
            i: String::new(),
            o: String::new(),
            r: String::new(),
            slash: String::new(),
            question_mark: String::new(),
            shift_i: String::new(),
            shift_d: String::new(),
            shift_l: String::new(),
            ctrl_r: String::new(),
            g: Goto { g: String::new(), e: String::new() },
        },
        style: Style {
            default: interface_style(),
            cursor_line: interface_style(),
            status_line: interface_style(),
            command_line: interface_style(),
            path_line: interface_style(),
            directory: files_style(),
            file: files_style(),
            archive: files_style(),
            video: files_style(),
            audio: files_style(),
            image: files_style(),
            document: files_style(),
            link: files_style(),
            executable: files_style(),
        },
        files: vec![Files { extensions: vec!["txt".to_string()], style: "file".to_string() }],
    }
}

#[test]
fn set_key_flips_show_hidden() {
    let mut config = sample_config(false);
    assert!(config.set_key("show_hidden", "true").is_ok());
    assert!(config.show_hidden);
    assert!(config.set_key("show_hidden", "false").is_ok());
    assert!(!config.show_hidden);
    // Anything but the token `true` means false.
    config.set_key("show_hidden", "TRUE").unwrap();
    assert!(!config.show_hidden);
}

#[test]
fn set_key_ignores_unknown_keys() {
    let mut config = sample_config(true);
    assert!(config.set_key("mouse", "false").is_ok());
    assert!(config.mouse);
    assert!(config.show_hidden);
}
