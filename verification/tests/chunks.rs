use peer_transfer::chunk::{join_chunks, split_chunks, ReadEvent, Receiver, Sender};
use peer_transfer::error::TransportError;

fn sample(len: usize) -> Vec<u8> {
    (0..len).map(|i| (i * 7 + 3) as u8).collect()
}

fn transfer(bytes: &[u8], sender_buffer: usize, receiver_buffer: usize) -> Vec<u8> {
    let mut sender = Sender::new(bytes.to_vec(), sender_buffer).unwrap();
    let mut receiver = Receiver::new(bytes.len(), receiver_buffer).unwrap();
    let mut in_flight: Vec<u8> = Vec::new();
    while !sender.is_complete() || !in_flight.is_empty() {
        if !sender.is_complete() {
            let chunk = sender.next_chunk().to_vec();
            assert!(!chunk.is_empty() && chunk.len() <= sender_buffer);
            let written = chunk.len();
            in_flight.extend_from_slice(&chunk);
            sender.wrote(written).unwrap();
        }
        let asked = receiver.next_read();
        assert!(asked <= receiver_buffer);
        let take = asked.min(in_flight.len());
        let read: Vec<u8> = in_flight.drain(..take).collect();
        if !read.is_empty() {
            receiver.accept(ReadEvent::Data(read)).unwrap();
        }
    }
    assert!(receiver.is_complete());
    receiver.into_bytes().unwrap()
}

#[test]
fn same_bytes_arrive_whatever_the_buffer() {
    let bytes = sample(1000);
    for buffer in [1usize, 16, 4096, bytes.len() + 1] {
        assert_eq!(transfer(&bytes, buffer, buffer), bytes, "buffer {}", buffer);
    }
}

#[test]
fn buffers_of_the_two_sides_may_differ() {
    let bytes = sample(257);
    for (sender, receiver) in [(1usize, 4096usize), (4096, 1), (16, 7), (7, 16), (258, 256)] {
        assert_eq!(transfer(&bytes, sender, receiver), bytes);
    }
}

#[test]
fn empty_file_transfers() {
    assert_eq!(transfer(&[], 16, 16), Vec::<u8>::new());
}

#[test]
fn chunks_rejoin_for_every_buffer() {
    let bytes = sample(100);
    for buffer in [1usize, 16, 4096, 101, 100, 99, 3] {
        let chunks = split_chunks(&bytes, buffer).unwrap();
        assert_eq!(join_chunks(&chunks), bytes);
        assert_eq!(chunks.len(), (bytes.len() + buffer - 1) / buffer);
        for (i, chunk) in chunks.iter().enumerate() {
            assert!(!chunk.is_empty());
            assert!(chunk.len() <= buffer);
            if i + 1 < chunks.len() {
                assert_eq!(chunk.len(), buffer);
            }
        }
    }
}

#[test]
fn chunks_are_cut_in_order() {
    let chunks = split_chunks(&[1, 2, 3, 4, 5, 6, 7], 3).unwrap();
    assert_eq!(chunks, vec![vec![1, 2, 3], vec![4, 5, 6], vec![7]]);
    assert_eq!(split_chunks(&[1, 2, 3], 3).unwrap(), vec![vec![1, 2, 3]]);
    assert_eq!(split_chunks(&[1, 2, 3, 4], 3).unwrap(), vec![vec![1, 2, 3], vec![4]]);
}

#[test]
fn nothing_is_cut_into_no_chunks() {
    assert_eq!(split_chunks(&[], 4).unwrap(), Vec::<Vec<u8>>::new());
    assert_eq!(join_chunks(&Vec::new()), Vec::<u8>::new());
}

#[test]
fn join_puts_chunks_end_to_end() {
    assert_eq!(join_chunks(&vec![vec![1], vec![], vec![2, 3]]), vec![1, 2, 3]);
}

#[test]
fn a_buffer_of_no_bytes_is_refused() {
    assert_eq!(split_chunks(&[1, 2], 0), Err(TransportError::ZeroBuffer));
    assert_eq!(split_chunks(&[], 0), Err(TransportError::ZeroBuffer));
    assert_eq!(Receiver::new(4, 0).err(), Some(TransportError::ZeroBuffer));
    assert_eq!(Sender::new(vec![1], 0).err(), Some(TransportError::ZeroBuffer));
}

#[test]
fn receiver_asks_for_what_is_missing_up_to_its_buffer() {
    let mut receiver = Receiver::new(5, 2).unwrap();
    assert_eq!(receiver.next_read(), 2);
    assert_eq!(receiver.accept(ReadEvent::Data(vec![1, 2])), Ok(false));
    assert_eq!(receiver.next_read(), 2);
    assert_eq!(receiver.accept(ReadEvent::Data(vec![3, 4])), Ok(false));
    assert_eq!(receiver.next_read(), 1);
    assert_eq!(receiver.accept(ReadEvent::Data(vec![5])), Ok(true));
    assert_eq!(receiver.next_read(), 0);
    assert!(receiver.is_complete());
    assert_eq!(receiver.into_bytes(), Some(vec![1, 2, 3, 4, 5]));
}

#[test]
fn short_reads_are_asked_for_again() {
    let mut receiver = Receiver::new(4, 4).unwrap();
    assert_eq!(receiver.accept(ReadEvent::Data(vec![1])), Ok(false));
    assert_eq!(receiver.next_read(), 3);
    assert_eq!(receiver.accept(ReadEvent::Data(vec![2, 3])), Ok(false));
    assert_eq!(receiver.next_read(), 1);
    assert_eq!(receiver.accept(ReadEvent::Data(vec![4])), Ok(true));
    assert_eq!(receiver.into_bytes(), Some(vec![1, 2, 3, 4]));
}

#[test]
fn a_close_while_bytes_are_missing_is_a_peer_close() {
    let mut receiver = Receiver::new(4, 4).unwrap();
    assert_eq!(receiver.accept(ReadEvent::Data(vec![1, 2])), Ok(false));
    assert_eq!(receiver.accept(ReadEvent::Closed), Err(TransportError::PeerClosed));
    assert_eq!(receiver.accept(ReadEvent::Data(Vec::new())), Err(TransportError::PeerClosed));
    assert_eq!(receiver.next_read(), 2);
    assert!(!receiver.is_complete());
    assert_eq!(receiver.into_bytes(), None);
}

#[test]
fn a_timeout_is_told_apart_from_a_close() {
    let mut receiver = Receiver::new(4, 4).unwrap();
    assert_eq!(receiver.accept(ReadEvent::Interrupted), Err(TransportError::Interrupted));
    assert_eq!(receiver.accept(ReadEvent::Closed), Err(TransportError::PeerClosed));
    assert_eq!(receiver.accept(ReadEvent::Data(vec![1, 2, 3, 4])), Ok(true));
    assert_eq!(receiver.accept(ReadEvent::Interrupted), Err(TransportError::Interrupted));
}

#[test]
fn a_close_after_the_last_byte_is_no_fault() {
    let mut receiver = Receiver::new(2, 8).unwrap();
    assert_eq!(receiver.accept(ReadEvent::Data(vec![1, 2])), Ok(true));
    assert_eq!(receiver.accept(ReadEvent::Closed), Ok(true));
    assert_eq!(receiver.accept(ReadEvent::Data(Vec::new())), Ok(true));
    assert_eq!(receiver.into_bytes(), Some(vec![1, 2]));
}

#[test]
fn more_than_was_asked_for_is_refused() {
    let mut receiver = Receiver::new(5, 2).unwrap();
    assert_eq!(receiver.accept(ReadEvent::Data(vec![1, 2, 3])), Err(TransportError::Overrun));
    assert_eq!(receiver.next_read(), 2);
    assert_eq!(receiver.accept(ReadEvent::Data(vec![1, 2])), Ok(false));
    assert_eq!(receiver.accept(ReadEvent::Data(vec![3, 4])), Ok(false));
    assert_eq!(receiver.accept(ReadEvent::Data(vec![5, 6])), Err(TransportError::Overrun));
    assert_eq!(receiver.accept(ReadEvent::Data(vec![5])), Ok(true));
    assert_eq!(receiver.accept(ReadEvent::Data(vec![6])), Err(TransportError::Overrun));
}

#[test]
fn receiver_of_nothing_is_complete_at_once() {
    let receiver = Receiver::new(0, 16).unwrap();
    assert!(receiver.is_complete());
    assert_eq!(receiver.next_read(), 0);
    assert_eq!(receiver.into_bytes(), Some(Vec::new()));
}

#[test]
fn sender_hands_out_chunks_in_order() {
    let mut sender = Sender::new(vec![1, 2, 3, 4, 5], 2).unwrap();
    assert_eq!(sender.next_chunk(), &[1, 2]);
    assert_eq!(sender.wrote(2), Ok(false));
    assert_eq!(sender.next_chunk(), &[3, 4]);
    assert_eq!(sender.wrote(2), Ok(false));
    assert_eq!(sender.next_chunk(), &[5]);
    assert_eq!(sender.wrote(1), Ok(true));
    assert!(sender.is_complete());
    assert!(sender.next_chunk().is_empty());
}

#[test]
fn short_writes_leave_the_rest_pending() {
    let mut sender = Sender::new(vec![1, 2, 3, 4, 5], 4).unwrap();
    assert_eq!(sender.next_chunk(), &[1, 2, 3, 4]);
    assert_eq!(sender.wrote(1), Ok(false));
    assert_eq!(sender.next_chunk(), &[2, 3, 4, 5]);
    assert_eq!(sender.wrote(3), Ok(false));
    assert_eq!(sender.next_chunk(), &[5]);
    assert_eq!(sender.wrote(1), Ok(true));
}

#[test]
fn sender_faults() {
    let mut sender = Sender::new(vec![1, 2, 3], 2).unwrap();
    assert_eq!(sender.wrote(3), Err(TransportError::Overrun));
    assert_eq!(sender.wrote(0), Err(TransportError::PeerClosed));
    assert_eq!(sender.next_chunk(), &[1, 2]);
    assert_eq!(sender.wrote(2), Ok(false));
    assert_eq!(sender.wrote(2), Err(TransportError::Overrun));
    assert_eq!(sender.wrote(1), Ok(true));
    assert_eq!(sender.wrote(0), Ok(true));
    assert_eq!(sender.wrote(1), Err(TransportError::Overrun));
}

#[test]
fn sender_chunks_are_the_cut_chunks() {
    let bytes = sample(50);
    for buffer in [1usize, 16, 51] {
        let cut = split_chunks(&bytes, buffer).unwrap();
        let mut sender = Sender::new(bytes.clone(), buffer).unwrap();
        let mut handed: Vec<Vec<u8>> = Vec::new();
        while !sender.is_complete() {
            let chunk = sender.next_chunk().to_vec();
            sender.wrote(chunk.len()).unwrap();
            handed.push(chunk);
        }
        assert_eq!(handed, cut);
    }
}
