use bittorrust::digest::digest_hex;
use bittorrust::error::PeerError;
use bittorrust::in_flight::InFlight;
use bittorrust::partition::{chunk_count, chunk_length};
use bittorrust::peer::Peer;
use bittorrust::piece::{verify_piece, BlockTask, PieceDownload};
use bittorrust::{DEFAULT_BLOCK_LENGTH, MAX_CONCURRENT_REQUESTS};

const PIECE_HEADER: [u8; 13] = [0, 0, 0, 0, 7, 0, 0, 0, 0, 0, 0, 0, 0];

/// Asks for every block of a piece, as far as the ceiling allows.
fn all_tasks(piece: &mut PieceDownload, in_flight: &mut InFlight) -> Vec<BlockTask> {
    let mut tasks = Vec::new();
    let mut token = 1000;
    while let Some(task) = piece.next_request(in_flight, token) {
        tasks.push(task);
        token += 1;
    }
    tasks
}

#[test]
fn digest_of_known_bytes() {
    assert_eq!(digest_hex(b"abc"), "a9993e364706816aba3e25717850c26c9cd0d89d");
    assert_eq!(digest_hex(b""), "da39a3ee5e6b4b0d3255bfef95601890afd80709");
    assert_eq!(digest_hex(&vec![b'x'; 34000]), "dbeffbb51785e4c42c05155ae6393cda728d0072");
}

#[test]
fn default_tunables() {
    assert_eq!(DEFAULT_BLOCK_LENGTH, 16384);
    assert_eq!(MAX_CONCURRENT_REQUESTS, 5);
}

#[test]
fn blocks_of_a_piece_of_34000_bytes() {
    assert_eq!(chunk_count(34000, 16384), 3);
    let lengths: Vec<u32> = (0..3).map(|i| chunk_length(34000, 16384, i)).collect();
    assert_eq!(lengths, vec![16384, 16384, 1232]);
    assert_eq!(lengths.iter().sum::<u32>(), 34000);
    assert_eq!(chunk_length(34000, 16384, 3), 0);
}

#[test]
fn last_block_is_full_where_nothing_is_left_over() {
    assert_eq!(chunk_count(32768, 16384), 2);
    assert_eq!(chunk_length(32768, 16384, 0), 16384);
    assert_eq!(chunk_length(32768, 16384, 1), 16384);
    assert_eq!(chunk_length(32768, 16384, 2), 0);
}

#[test]
fn lengths_of_pieces_of_a_torrent_of_1024_bytes() {
    assert_eq!(chunk_count(1024, 400), 3);
    let lengths: Vec<u32> = (0..3).map(|i| chunk_length(1024, 400, i)).collect();
    assert_eq!(lengths, vec![400, 400, 224]);
    assert_eq!(lengths.iter().sum::<u32>(), 1024);
}

#[test]
fn chunks_cover_the_total_for_many_pairs() {
    for total in [0u64, 1, 2, 19, 20, 21, 399, 400, 401, 1024, 65535, 65536, 1_000_003] {
        for chunk in [1u32, 2, 7, 20, 400, 16384, 65536, u32::MAX] {
            let count = chunk_count(total, chunk);
            let mut sum = 0u64;
            for i in 0..count {
                let length = chunk_length(total, chunk, i);
                assert!(length > 0 && length <= chunk);
                if i + 1 < count {
                    assert_eq!(length, chunk);
                }
                sum += length as u64;
            }
            assert_eq!(sum, total);
            assert_eq!(chunk_length(total, chunk, count), 0);
        }
    }
}

#[test]
fn chunks_of_length_zero_cover_nothing() {
    assert_eq!(chunk_count(10, 0), 0);
    assert_eq!(chunk_length(10, 0, 0), 0);
    assert_eq!(chunk_count(0, 0), 0);
}

#[test]
fn chunk_arithmetic_holds_at_the_limits() {
    assert_eq!(chunk_count(u64::MAX, 1), u64::MAX);
    assert_eq!(chunk_count(u64::MAX, u32::MAX), 4294967297);
    assert_eq!(chunk_length(u64::MAX, u32::MAX, 4294967296), u32::MAX);
    assert_eq!(chunk_length(u64::MAX, u32::MAX, u64::MAX), 0);
    assert_eq!(chunk_length(u64::MAX, 1, u64::MAX - 1), 1);
}

#[test]
fn hands_out_block_requests_in_order() {
    let mut in_flight = InFlight::new(5);
    let mut piece = Peer::download_piece(3, 34000, digest_hex(&vec![b'x'; 34000]), 16384);
    assert_eq!(piece.count_blocks(), 3);
    assert!(!piece.all_requested());
    let tasks = all_tasks(&mut piece, &mut in_flight);
    assert_eq!(
        tasks,
        vec![
            BlockTask { token: 1000, piece_index: 3, block_index: 0, offset: 0, length: 16384 },
            BlockTask { token: 1001, piece_index: 3, block_index: 1, offset: 16384, length: 16384 },
            BlockTask { token: 1002, piece_index: 3, block_index: 2, offset: 32768, length: 1232 },
        ]
    );
    assert!(piece.all_requested());
    assert_eq!(in_flight.len(), 3);
    assert_eq!(piece.next_request(&mut in_flight, 7), None);
    assert_eq!(in_flight.len(), 3);
    assert!(!in_flight.contains(7));
}

#[test]
fn request_message_of_a_task() {
    let task = BlockTask { token: 9, piece_index: 1, block_index: 2, offset: 32768, length: 1232 };
    assert_eq!(
        task.request_message(),
        vec![0, 0, 0, 13, 6, 0, 0, 0, 1, 0, 0, 0x80, 0, 0, 0, 0x04, 0xd0]
    );
}

#[test]
fn requests_under_way_never_exceed_the_ceiling() {
    let mut in_flight = InFlight::new(2);
    let mut piece = PieceDownload::new(0, 100, digest_hex(&[1u8; 100]), 10);
    assert_eq!(piece.count_blocks(), 10);
    let mut finished = 0;
    let mut token = 0;
    let mut under_way: Vec<BlockTask> = Vec::new();
    while finished < 10 {
        while let Some(task) = piece.next_request(&mut in_flight, token) {
            token += 1;
            under_way.push(task);
            assert!(in_flight.len() <= 2);
        }
        assert_eq!(in_flight.len(), under_way.len());
        assert!(under_way.len() == 2 || piece.all_requested());
        assert!(!in_flight.has_room() || piece.all_requested());
        let task = under_way.remove(0);
        let payload = vec![1u8; task.length as usize];
        assert_eq!(piece.accept_block(&task, &PIECE_HEADER, payload, &mut in_flight), Ok(()));
        assert!(!in_flight.contains(task.token));
        finished += 1;
    }
    assert_eq!(in_flight.len(), 0);
    assert!(piece.is_complete());
    assert!(piece.finish().is_ok());
}

#[test]
fn a_full_set_registers_nothing() {
    let mut in_flight = InFlight::new(MAX_CONCURRENT_REQUESTS);
    assert_eq!(in_flight.limit(), 5);
    for token in 0..5 {
        assert!(in_flight.has_room());
        assert!(in_flight.register(token));
    }
    assert!(!in_flight.has_room());
    assert!(!in_flight.register(99));
    assert!(!in_flight.contains(99));
    assert_eq!(in_flight.len(), 5);
    in_flight.release(2);
    assert_eq!(in_flight.len(), 4);
    assert!(in_flight.register(99));
    assert!(in_flight.contains(99));
    in_flight.release(12345);
    assert_eq!(in_flight.len(), 5);
}

#[test]
fn a_set_with_ceiling_zero_stays_empty() {
    let mut in_flight = InFlight::new(0);
    assert!(!in_flight.register(1));
    assert_eq!(in_flight.len(), 0);
    let mut piece = PieceDownload::new(0, 10, digest_hex(&[0u8; 10]), 4);
    assert_eq!(piece.next_request(&mut in_flight, 1), None);
    assert!(!piece.all_requested());
}

#[test]
fn a_token_registered_twice_counts_once() {
    let mut in_flight = InFlight::new(3);
    assert!(in_flight.register(7));
    assert!(in_flight.register(7));
    assert_eq!(in_flight.len(), 1);
}

#[test]
fn schedules_under_fresh_tokens() {
    let mut in_flight = InFlight::new(5);
    let mut piece = PieceDownload::new(2, 40000, digest_hex(&[0u8; 4]), 16384);
    let mut tasks = Vec::new();
    while let Some(task) = piece.schedule(&mut in_flight) {
        assert!(in_flight.contains(task.token));
        tasks.push(task);
    }
    assert_eq!(tasks.len(), 3);
    let shape: Vec<(u32, u32, u32, u32)> = tasks
        .iter()
        .map(|t| (t.piece_index, t.block_index, t.offset, t.length))
        .collect();
    assert_eq!(shape, vec![(2, 0, 0, 16384), (2, 1, 16384, 16384), (2, 2, 32768, 7232)]);
    assert!(in_flight.len() <= 3);
}

#[test]
fn puts_blocks_together_by_index_not_by_arrival() {
    let data: Vec<u8> = (0..34000u32).map(|i| (i % 251) as u8).collect();
    let mut in_flight = InFlight::new(5);
    let mut piece = PieceDownload::new(0, 34000, digest_hex(&data), 16384);
    let tasks = all_tasks(&mut piece, &mut in_flight);
    for task in tasks.iter().rev() {
        let from = task.offset as usize;
        let payload = data[from..from + task.length as usize].to_vec();
        assert!(!piece.is_complete());
        assert_eq!(piece.accept_block(task, &PIECE_HEADER, payload, &mut in_flight), Ok(()));
    }
    assert!(piece.is_complete());
    assert_eq!(in_flight.len(), 0);
    assert_eq!(piece.assemble().unwrap(), data);
    let verified = piece.finish().unwrap();
    assert_eq!(verified.piece_index(), 0);
    assert_eq!(verified.data(), &data);
    assert_eq!(verified.expected_digest(), &digest_hex(&data));
    assert_eq!(verified.into_data(), data);
}

#[test]
fn a_piece_with_another_digest_is_not_accepted() {
    let data = vec![b'x'; 34000];
    let mut in_flight = InFlight::new(5);
    let mut piece = PieceDownload::new(4, 34000, digest_hex(&data), 16384);
    for task in all_tasks(&mut piece, &mut in_flight) {
        let mut payload = vec![b'x'; task.length as usize];
        if task.block_index == 1 {
            payload[5] = b'y';
        }
        assert_eq!(piece.accept_block(&task, &PIECE_HEADER, payload, &mut in_flight), Ok(()));
    }
    assert!(piece.is_complete());
    assert!(matches!(piece.finish(), Err(PeerError::IntegrityError { piece: 4 })));
}

#[test]
fn a_digest_in_uppercase_is_another_digest() {
    let expected = digest_hex(b"abc").to_uppercase();
    assert!(matches!(
        verify_piece(1, b"abc".to_vec(), &expected),
        Err(PeerError::IntegrityError { piece: 1 })
    ));
    let piece = verify_piece(1, b"abc".to_vec(), &digest_hex(b"abc")).unwrap();
    assert_eq!(piece.data(), b"abc");
}

#[test]
fn a_missing_block_is_reported_by_index() {
    let mut in_flight = InFlight::new(5);
    let mut piece = PieceDownload::new(6, 34000, digest_hex(&[0u8; 1]), 16384);
    let tasks = all_tasks(&mut piece, &mut in_flight);
    for task in [&tasks[0], &tasks[2]] {
        let payload = vec![0u8; task.length as usize];
        assert_eq!(piece.accept_block(task, &PIECE_HEADER, payload, &mut in_flight), Ok(()));
    }
    assert!(!piece.is_complete());
    assert_eq!(piece.assemble(), Err(PeerError::PieceIncomplete { piece: 6, block: 1 }));
    assert!(matches!(piece.finish(), Err(PeerError::PieceIncomplete { piece: 6, block: 1 })));
}

#[test]
fn an_answer_that_is_no_piece_message_is_a_violation() {
    let mut in_flight = InFlight::new(5);
    let mut piece = PieceDownload::new(0, 100, digest_hex(&[0u8; 100]), 100);
    let task = piece.next_request(&mut in_flight, 1).unwrap();
    let mut header = PIECE_HEADER;
    header[4] = 6;
    assert_eq!(
        piece.accept_block(&task, &header, vec![0u8; 100], &mut in_flight),
        Err(PeerError::ProtocolViolation)
    );
    // The request is over all the same.
    assert_eq!(in_flight.len(), 0);
    assert!(!piece.is_complete());
}

#[test]
fn a_short_header_or_block_is_a_violation() {
    let mut in_flight = InFlight::new(5);
    let mut piece = PieceDownload::new(0, 100, digest_hex(&[0u8; 100]), 100);
    let task = piece.next_request(&mut in_flight, 1).unwrap();
    assert_eq!(
        piece.accept_block(&task, &PIECE_HEADER[..12], vec![0u8; 100], &mut in_flight),
        Err(PeerError::ProtocolViolation)
    );
    assert_eq!(
        piece.accept_block(&task, &PIECE_HEADER, vec![0u8; 99], &mut in_flight),
        Err(PeerError::ProtocolViolation)
    );
    assert_eq!(
        piece.accept_block(&task, &[], Vec::new(), &mut in_flight),
        Err(PeerError::ProtocolViolation)
    );
    assert!(!piece.is_complete());
}

#[test]
fn an_empty_piece_has_no_blocks() {
    let mut in_flight = InFlight::new(5);
    let mut piece = PieceDownload::new(0, 0, digest_hex(b""), 16384);
    assert_eq!(piece.count_blocks(), 0);
    assert!(piece.all_requested());
    assert_eq!(piece.next_request(&mut in_flight, 1), None);
    assert!(piece.is_complete());
    assert_eq!(piece.finish().unwrap().into_data(), Vec::<u8>::new());
}
