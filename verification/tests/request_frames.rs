use peer_transfer::error::ProtocolError;
use peer_transfer::request::{decode_request, encode_request, Request, GET_TAG, UPLOAD_TAG};

fn get(path: &str) -> Request {
    Request::Get(path.to_string())
}

#[test]
fn upload_round_trips() {
    let frame = encode_request(&Request::Upload);
    assert_eq!(decode_request(&frame), Ok((Request::Upload, frame.len())));
}

#[test]
fn get_with_path_round_trips() {
    let frame = encode_request(&get("a/b.txt"));
    assert_eq!(decode_request(&frame), Ok((get("a/b.txt"), frame.len())));
}

#[test]
fn get_with_empty_path_round_trips() {
    let frame = encode_request(&get(""));
    assert_eq!(decode_request(&frame), Ok((get(""), frame.len())));
}

#[test]
fn get_with_non_ascii_path_round_trips() {
    let path = "donn\u{e9}es/\u{65e5}\u{672c}\u{8a9e}/\u{1f600}.txt";
    let frame = encode_request(&get(path));
    assert_eq!(frame.len(), 4 + 8 + path.len());
    assert_eq!(decode_request(&frame), Ok((get(path), frame.len())));
}

#[test]
fn upload_frame_is_its_discriminant() {
    assert_eq!(UPLOAD_TAG, 1);
    assert_eq!(encode_request(&Request::Upload), vec![1, 0, 0, 0]);
}

#[test]
fn get_frame_is_discriminant_length_and_path() {
    assert_eq!(GET_TAG, 0);
    let expected: Vec<u8> = vec![
        0, 0, 0, 0, 7, 0, 0, 0, 0, 0, 0, 0, b'a', b'/', b'b', b'.', b't', b'x', b't',
    ];
    assert_eq!(encode_request(&get("a/b.txt")), expected);
}

#[test]
fn empty_get_frame_has_a_zero_length() {
    assert_eq!(encode_request(&get("")), vec![0, 0, 0, 0, 0, 0, 0, 0, 0, 0, 0, 0]);
}

#[test]
fn long_path_length_uses_the_second_byte() {
    let path = "x".repeat(300);
    let frame = encode_request(&get(&path));
    assert_eq!(&frame[4..12], &[44, 1, 0, 0, 0, 0, 0, 0]);
    assert_eq!(decode_request(&frame), Ok((get(&path), 312)));
}

#[test]
fn bytes_behind_the_frame_are_left_alone() {
    let mut bytes = encode_request(&get("a"));
    let used = bytes.len();
    bytes.extend_from_slice(&[9, 9, 9]);
    assert_eq!(decode_request(&bytes), Ok((get("a"), used)));
    let mut upload = encode_request(&Request::Upload);
    upload.push(0);
    assert_eq!(decode_request(&upload), Ok((Request::Upload, 4)));
}

#[test]
fn no_bytes_are_a_truncated_request() {
    assert_eq!(decode_request(&[]), Err(ProtocolError::Truncated));
}

#[test]
fn a_short_discriminant_is_truncated() {
    assert_eq!(decode_request(&[1, 0, 0]), Err(ProtocolError::Truncated));
}

#[test]
fn an_unknown_discriminant_is_refused() {
    assert_eq!(decode_request(&[2, 0, 0, 0]), Err(ProtocolError::UnknownRequest));
    assert_eq!(decode_request(&[1, 0, 0, 1]), Err(ProtocolError::UnknownRequest));
    assert_eq!(decode_request(&[0, 1, 0, 0, 0, 0, 0, 0]), Err(ProtocolError::UnknownRequest));
}

#[test]
fn a_get_without_length_is_truncated() {
    assert_eq!(decode_request(&[0, 0, 0, 0]), Err(ProtocolError::Truncated));
    assert_eq!(decode_request(&[0, 0, 0, 0, 1, 0, 0, 0, 0, 0, 0]), Err(ProtocolError::Truncated));
}

#[test]
fn a_get_with_a_short_path_is_truncated() {
    let bytes = [0, 0, 0, 0, 3, 0, 0, 0, 0, 0, 0, 0, b'a', b'b'];
    assert_eq!(decode_request(&bytes), Err(ProtocolError::Truncated));
}

#[test]
fn a_get_with_a_huge_length_is_truncated() {
    let bytes = [0, 0, 0, 0, 255, 255, 255, 255, 255, 255, 255, 255, b'a'];
    assert_eq!(decode_request(&bytes), Err(ProtocolError::Truncated));
}

#[test]
fn every_proper_prefix_of_a_frame_is_truncated() {
    let frame = encode_request(&get("dir/file.bin"));
    for cut in 0..frame.len() {
        assert_eq!(decode_request(&frame[..cut]), Err(ProtocolError::Truncated));
    }
}

#[test]
fn a_path_that_is_not_utf8_is_refused() {
    let bytes = [0, 0, 0, 0, 2, 0, 0, 0, 0, 0, 0, 0, 0xff, 0xfe];
    assert_eq!(decode_request(&bytes), Err(ProtocolError::InvalidText));
    let overlong = [0, 0, 0, 0, 2, 0, 0, 0, 0, 0, 0, 0, 0xc0, 0xaf];
    assert_eq!(decode_request(&overlong), Err(ProtocolError::InvalidText));
    let cut_short = [0, 0, 0, 0, 1, 0, 0, 0, 0, 0, 0, 0, 0xe6];
    assert_eq!(decode_request(&cut_short), Err(ProtocolError::InvalidText));
}

#[test]
fn request_clone_is_equal() {
    let request = get("a/b");
    assert_eq!(request.clone(), request);
    assert_eq!(Request::Upload.clone(), Request::Upload);
}

#[test]
fn frames_are_what_the_peer_library_writes() {
    let ours = encode_request(&get("a/b.txt"));
    let theirs =
        bincode::serialize(&file_transfer_system::network::Request::Get("a/b.txt".to_string()))
            .unwrap();
    assert_eq!(ours, theirs);
    let ours = encode_request(&Request::Upload);
    let theirs = bincode::serialize(&file_transfer_system::network::Request::Upload).unwrap();
    assert_eq!(ours, theirs);
}

#[test]
fn frames_of_the_peer_library_are_read() {
    let request = file_transfer_system::network::Request::Get("docs/\u{fc}.md".to_string());
    let theirs = bincode::serialize(&request).unwrap();
    assert_eq!(decode_request(&theirs), Ok((get("docs/\u{fc}.md"), theirs.len())));
    let read: file_transfer_system::network::Request =
        bincode::deserialize(&encode_request(&get("x/y"))).unwrap();
    assert!(matches!(read, file_transfer_system::network::Request::Get(path) if path == "x/y"));
}
