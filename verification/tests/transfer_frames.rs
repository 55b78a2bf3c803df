use peer_transfer::error::ProtocolError;
use peer_transfer::frame::{
    decode_file_header, decode_frame, encode_file_header, encode_frame, FileEntry, FileHeader,
};

fn entry(path: &str, data: &[u8]) -> FileEntry {
    FileEntry { path: path.to_string(), data: data.to_vec() }
}

fn tree() -> Vec<FileEntry> {
    vec![
        entry("a.txt", b"alpha"),
        entry("dir/b.bin", &[0, 255, 1, 254]),
        entry("dir/empty", b""),
        entry("dir/sub/\u{e9}t\u{e9}.txt", "\u{e9}t\u{e9}".as_bytes()),
    ]
}

#[test]
fn empty_transfer_is_a_zero_count() {
    let frame = encode_frame(&Vec::new());
    assert_eq!(frame, vec![0; 8]);
    assert_eq!(decode_frame(&frame), Ok((Vec::new(), 8)));
}

#[test]
fn one_file_frame_is_count_header_payload() {
    let frame = encode_frame(&vec![entry("ab", &[7, 8, 9])]);
    let expected: Vec<u8> = vec![
        1, 0, 0, 0, 0, 0, 0, 0, // one file
        2, 0, 0, 0, 0, 0, 0, 0, b'a', b'b', // its path
        3, 0, 0, 0, 0, 0, 0, 0, // its size
        7, 8, 9, // its bytes
    ];
    assert_eq!(frame, expected);
}

#[test]
fn tree_round_trips_byte_for_byte() {
    let sent = tree();
    let frame = encode_frame(&sent);
    let (received, used) = decode_frame(&frame).unwrap();
    assert_eq!(used, frame.len());
    assert_eq!(received, sent);
    for (got, want) in received.iter().zip(sent.iter()) {
        assert_eq!(got.path, want.path);
        assert_eq!(got.data.len(), want.data.len());
        assert_eq!(got.data, want.data);
    }
}

#[test]
fn order_of_files_is_kept() {
    let sent = vec![entry("z", b"1"), entry("a", b"2"), entry("m", b"3")];
    let (received, _) = decode_frame(&encode_frame(&sent)).unwrap();
    let paths: Vec<&str> = received.iter().map(|file| file.path.as_str()).collect();
    assert_eq!(paths, vec!["z", "a", "m"]);
}

#[test]
fn bytes_behind_a_transfer_are_left_alone() {
    let mut bytes = encode_frame(&tree());
    let used = bytes.len();
    bytes.extend_from_slice(b"next");
    assert_eq!(decode_frame(&bytes), Ok((tree(), used)));
}

#[test]
fn every_proper_prefix_of_a_transfer_is_truncated() {
    let frame = encode_frame(&tree());
    for cut in 0..frame.len() {
        assert_eq!(decode_frame(&frame[..cut]), Err(ProtocolError::Truncated), "cut at {}", cut);
    }
}

#[test]
fn a_count_without_files_is_truncated() {
    let bytes = [2, 0, 0, 0, 0, 0, 0, 0];
    assert_eq!(decode_frame(&bytes), Err(ProtocolError::Truncated));
    let huge = [255; 8];
    assert_eq!(decode_frame(&huge), Err(ProtocolError::Truncated));
}

#[test]
fn a_declared_size_beyond_the_payload_is_truncated() {
    let mut frame = encode_frame(&vec![entry("f", &[1, 2, 3])]);
    frame.pop();
    assert_eq!(decode_frame(&frame), Err(ProtocolError::Truncated));
}

#[test]
fn a_path_that_is_not_utf8_fails_the_whole_transfer() {
    let mut frame = encode_frame(&vec![entry("ok", b"1"), entry("xy", b"2")]);
    let second_path = 8 + (8 + 2) + (8 + 1) + 8;
    frame[second_path] = 0xff;
    assert_eq!(decode_frame(&frame), Err(ProtocolError::InvalidText));
}

#[test]
fn header_is_path_then_size() {
    let header = encode_file_header("ab", 0x0102);
    assert_eq!(header, vec![2, 0, 0, 0, 0, 0, 0, 0, b'a', b'b', 2, 1, 0, 0, 0, 0, 0, 0]);
    assert_eq!(
        decode_file_header(&header, 0),
        Ok((FileHeader { path: "ab".to_string(), size: 0x0102 }, header.len()))
    );
}

#[test]
fn header_is_the_start_of_a_file_in_a_frame() {
    let file = entry("dir/b.bin", &[5; 40]);
    let frame = encode_frame(&vec![file]);
    let (header, payload_at) = decode_file_header(&frame, 8).unwrap();
    assert_eq!(header, FileHeader { path: "dir/b.bin".to_string(), size: 40 });
    assert_eq!(&frame[payload_at..], &[5u8; 40][..]);
    assert_eq!(encode_file_header("dir/b.bin", 40), frame[8..payload_at].to_vec());
}

#[test]
fn header_faults() {
    let header = encode_file_header("p", u64::MAX);
    assert_eq!(
        decode_file_header(&header, 0),
        Ok((FileHeader { path: "p".to_string(), size: u64::MAX }, 17))
    );
    assert_eq!(decode_file_header(&header[..16], 0), Err(ProtocolError::Truncated));
    assert_eq!(decode_file_header(&header[..5], 0), Err(ProtocolError::Truncated));
    assert_eq!(decode_file_header(&header, 18), Err(ProtocolError::Truncated));
    let bad = [1, 0, 0, 0, 0, 0, 0, 0, 0xff, 0, 0, 0, 0, 0, 0, 0, 0];
    assert_eq!(decode_file_header(&bad, 0), Err(ProtocolError::InvalidText));
}

#[test]
fn entry_clone_is_equal() {
    let file = entry("a/b", &[1, 2, 3]);
    assert_eq!(file.clone(), file);
}
