use intray::error::Error;
use intray::pending::{PendingFile, MAX_CHUNKS};
use intray::registry::FileQueue;
use intray::service::{FullUpload, State};
use std::cell::RefCell;
use std::rc::Rc;

type Handle = Rc<RefCell<PendingFile>>;

fn session(size: usize, chunk_size: usize) -> PendingFile {
    PendingFile::new(7, String::from("a.txt"), size, String::from("/tmp/a.txt"), chunk_size)
}

/// Streams `pieces` as chunk `index` into `disk`, writing each accepted piece where the
/// session says.
fn stream_chunk(file: &mut PendingFile, disk: &mut Vec<u8>, index: usize, pieces: &[&[u8]]) -> Result<usize, Error> {
    let mut w = file.begin_chunk(index)?;
    for piece in pieces {
        let at = w.accept(piece)?;
        if disk.len() < at + piece.len() {
            disk.resize(at + piece.len(), 0);
        }
        disk[at..at + piece.len()].copy_from_slice(piece);
    }
    file.end_chunk(w)
}

#[test]
fn chunk_count_rounds_up() {
    assert_eq!(session(10, 4).chunk_number(), 3);
    assert_eq!(session(12, 4).chunk_number(), 3);
    assert_eq!(session(0, 4).chunk_number(), 0);
    assert_eq!(session(1, 4).chunk_number(), 1);
}

#[test]
fn chunks_in_any_order_assemble_the_file() {
    let mut file = session(10, 4);
    let mut disk = Vec::new();
    assert_eq!(stream_chunk(&mut file, &mut disk, 2, &[b"i", b"j"]).unwrap(), 2);
    assert_eq!(stream_chunk(&mut file, &mut disk, 0, &[b"ab", b"cd"]).unwrap(), 4);
    assert_eq!(stream_chunk(&mut file, &mut disk, 1, &[b"efgh"]).unwrap(), 4);
    assert!(file.finish().is_ok());
    assert_eq!(disk, b"abcdefghij".to_vec());
}

#[test]
fn rewriting_a_chunk_is_refused_and_keeps_the_first_data() {
    let mut file = session(8, 4);
    let mut disk = Vec::new();
    stream_chunk(&mut file, &mut disk, 0, &[b"abcd"]).unwrap();
    let again = stream_chunk(&mut file, &mut disk, 0, &[b"WXYZ"]);
    assert!(matches!(again, Err(Error::ChunkAlreadyWritten)));
    assert_eq!(disk, b"abcd".to_vec());
    assert!(matches!(file.write_chunk(0, b"wxyz"), Err(Error::ChunkAlreadyWritten)));
}

#[test]
fn finishing_early_cites_the_first_missing_chunk() {
    let mut file = session(20, 4);
    file.write_chunk(0, b"aaaa").unwrap();
    file.write_chunk(1, b"bbbb").unwrap();
    file.write_chunk(3, b"dddd").unwrap();
    assert_eq!(file.filled(), 3);
    assert!(matches!(file.finish(), Err(Error::FileNotFilledUp(2))));
    file.write_chunk(2, b"cccc").unwrap();
    assert!(matches!(file.finish(), Err(Error::FileNotFilledUp(4))));
    file.write_chunk(4, b"eeee").unwrap();
    assert!(file.finish().is_ok());
    assert!(matches!(file.finish(), Err(Error::InvalidFileToken)));
}

#[test]
fn empty_file_finishes_at_once() {
    let mut file = session(0, 4);
    assert!(matches!(file.write_chunk(0, b""), Err(Error::InvalidChunkIndex)));
    assert!(file.finish().is_ok());
}

#[test]
fn chunk_past_the_end_is_an_invalid_index() {
    let mut file = session(10, 4);
    assert!(matches!(file.write_chunk(5, b"abcd"), Err(Error::InvalidChunkIndex)));
    assert!(matches!(file.write_chunk(3, b""), Err(Error::InvalidChunkIndex)));
    assert!(matches!(file.write_chunk(usize::MAX, b"a"), Err(Error::InvalidChunkIndex)));
    assert!(MAX_CHUNKS > 0);
}

#[test]
fn body_longer_or_shorter_than_its_slot_is_refused() {
    let mut file = session(10, 4);
    assert!(matches!(file.write_chunk(1, b"abcde"), Err(Error::DataNotFitIn(9))));
    assert!(matches!(file.write_chunk(1, b"abc"), Err(Error::DataNotFitIn(7))));
    assert!(matches!(file.write_chunk(2, b"abc"), Err(Error::DataNotFitIn(11))));
    assert_eq!(file.write_chunk(1, b"abcd").unwrap(), 4);
}

#[test]
fn streamed_overrun_reports_the_position_reached() {
    let mut file = session(10, 4);
    let mut w = file.begin_chunk(1).unwrap();
    assert_eq!(w.index(), 1);
    assert_eq!(w.accept(b"ab").unwrap(), 4);
    assert!(matches!(w.accept(b"xyz"), Err(Error::DataNotFitIn(9))));
    assert_eq!(w.accept(b"cd").unwrap(), 6);
    assert_eq!(file.end_chunk(w).unwrap(), 4);
}

#[test]
fn write_begun_for_another_session_is_refused() {
    let other = session(100, 10);
    let w = other.begin_chunk(0).unwrap();
    let mut file = session(10, 4);
    assert!(matches!(file.end_chunk(w), Err(Error::InvalidChunkIndex)));
}

#[test]
fn cancel_asks_for_deletion_once() {
    let mut file = session(10, 4);
    assert!(file.cancel());
    assert!(!file.cancel());
    assert!(matches!(file.write_chunk(0, b"abcd"), Err(Error::InvalidFileToken)));
    let mut done = session(0, 4);
    done.finish().unwrap();
    assert!(!done.cancel());
}

fn start(state: &mut State<Handle>, name: &str, size: usize, chunk_size: usize, now: u64) -> u128 {
    let token = state.new_token();
    let record = PendingFile::new(token, String::from(name), size, String::from(name), chunk_size);
    assert!(state.start_upload(token, Rc::new(RefCell::new(record)), now).is_ok());
    token
}

fn put(state: &mut State<Handle>, token: u128, index: usize, data: &[u8], now: u64) -> Result<usize, Error> {
    let file = state.begin_chunk(token)?;
    let outcome = file.borrow_mut().write_chunk(index, data);
    drop(file);
    state.put_chunk(token, outcome, now)
}

#[test]
fn upload_of_three_chunks_then_finish() {
    let mut state: State<Handle> = State::new(30);
    let t = start(&mut state, "a.txt", 10, 4, 0);
    let mut disk = Vec::new();
    let chunks: [&[u8]; 3] = [b"0123", b"4567", b"89"];
    let expected = [4usize, 4, 2];
    for (i, chunk) in chunks.iter().enumerate() {
        let file = state.begin_chunk(t).unwrap();
        let outcome = stream_chunk(&mut file.borrow_mut(), &mut disk, i, &[chunk]);
        drop(file);
        assert_eq!(state.put_chunk(t, outcome, i as u64 + 1).unwrap(), expected[i]);
    }
    assert_eq!(disk, b"0123456789".to_vec());
    let file = state.finish_upload(t).unwrap();
    assert!(file.borrow_mut().finish().is_ok());
    assert!(matches!(state.finish_upload(t), Err(Error::InvalidFileToken)));
}

#[test]
fn chunk_index_beyond_size_through_the_service() {
    let mut state: State<Handle> = State::new(30);
    let t = start(&mut state, "a.txt", 10, 4, 0);
    assert!(matches!(put(&mut state, t, 5, b"0123", 1), Err(Error::InvalidChunkIndex)));
    // the validation error released the lease: the session is timed again
    assert_eq!(state.expire(31).len(), 1);
}

#[test]
fn idle_session_is_swept_and_its_token_dies() {
    let mut state: State<Handle> = State::new(30);
    let t = start(&mut state, "b.txt", 100, 10, 0);
    assert!(state.expire(29).is_empty());
    let swept = state.expire(30);
    assert_eq!(swept.len(), 1);
    assert_eq!(swept[0].0, t);
    assert!(swept[0].1.borrow_mut().cancel());
    assert!(matches!(put(&mut state, t, 0, b"0123456789", 31), Err(Error::InvalidFileToken)));
    assert!(matches!(state.finish_upload(t), Err(Error::InvalidFileToken)));
}

#[test]
fn activity_restarts_the_inactivity_timer() {
    let mut state: State<Handle> = State::new(30);
    let t = start(&mut state, "b.txt", 100, 10, 0);
    put(&mut state, t, 0, b"0123456789", 20).unwrap();
    assert!(state.expire(30).is_empty());
    assert!(state.expire(49).is_empty());
    assert_eq!(state.expire(50).len(), 1);
}

#[test]
fn held_session_never_expires_and_only_the_last_release_rearms() {
    let mut state: State<Handle> = State::new(30);
    let t = start(&mut state, "c.txt", 100, 10, 0);
    let first = state.begin_chunk(t).unwrap();
    let second = state.begin_chunk(t).unwrap();
    assert!(state.expire(1000).is_empty());
    drop(first);
    assert_eq!(state.put_chunk(t, Ok(10), 1000).unwrap(), 10);
    assert!(state.expire(5000).is_empty());
    drop(second);
    assert_eq!(state.put_chunk(t, Ok(10), 5000).unwrap(), 10);
    assert!(state.expire(5029).is_empty());
    assert_eq!(state.expire(5030).len(), 1);
}

#[test]
fn io_failure_removes_the_session() {
    let mut state: State<Handle> = State::new(30);
    let t = start(&mut state, "d.txt", 10, 4, 0);
    let file = state.begin_chunk(t).unwrap();
    assert!(file.borrow_mut().cancel());
    let failure = Error::Io(std::io::Error::new(std::io::ErrorKind::Other, "disk full"));
    assert!(matches!(state.put_chunk(t, Err(failure), 1), Err(Error::Io(_))));
    assert!(matches!(state.begin_chunk(t), Err(Error::InvalidFileToken)));
}

#[test]
fn io_failure_without_a_lease_is_refused() {
    let mut state: State<Handle> = State::new(30);
    let t = start(&mut state, "d.txt", 10, 4, 0);
    let failure = Error::Io(std::io::Error::new(std::io::ErrorKind::Other, "disk full"));
    assert!(matches!(state.put_chunk(t, Err(failure), 1), Err(Error::InvalidFileToken)));
    assert_eq!(state.expire(30).len(), 1);
}

#[test]
fn release_of_unknown_token_is_refused() {
    let mut state: State<Handle> = State::new(30);
    assert!(matches!(state.put_chunk(42, Ok(4), 0), Err(Error::InvalidFileToken)));
    assert!(matches!(state.begin_chunk(42), Err(Error::InvalidFileToken)));
}

#[test]
fn registering_a_token_twice_is_refused() {
    let mut state: State<Handle> = State::new(30);
    let first = Rc::new(RefCell::new(session(10, 4)));
    let second = Rc::new(RefCell::new(session(20, 4)));
    assert!(state.start_upload(9, first.clone(), 0).is_ok());
    let refused = state.start_upload(9, second.clone(), 0).unwrap_err();
    assert!(Rc::ptr_eq(&refused, &second));
    let held = state.begin_chunk(9).unwrap();
    assert!(Rc::ptr_eq(&held, &first));
}

#[test]
fn leases_hand_out_the_session_own_handle() {
    let mut state: State<Handle> = State::new(30);
    let a = Rc::new(RefCell::new(session(10, 4)));
    let b = Rc::new(RefCell::new(session(20, 4)));
    assert!(state.start_upload(1, a.clone(), 0).is_ok());
    assert!(state.start_upload(2, b.clone(), 0).is_ok());
    assert!(Rc::ptr_eq(&state.begin_chunk(2).unwrap(), &b));
    assert!(Rc::ptr_eq(&state.begin_chunk(1).unwrap(), &a));
    assert!(Rc::ptr_eq(&state.finish_upload(2).unwrap(), &b));
}

#[test]
fn unused_token_counts_past_registered_ones() {
    let mut queue: FileQueue<u8> = FileQueue::new(30);
    for t in 5u128..8 {
        queue.add_file(t, 0, 0).unwrap();
    }
    assert_eq!(queue.unused_token(5), 8);
    assert_eq!(queue.unused_token(3), 3);
    assert_eq!(queue.unused_token(6), 8);
}

#[test]
fn new_token_is_not_registered() {
    let mut state: State<Handle> = State::new(30);
    for _ in 0..20 {
        let t = start(&mut state, "n.txt", 1, 1, 0);
        assert!(matches!(state.begin_chunk(t), Ok(_)));
    }
}

#[test]
fn new_tokens_differ() {
    let state: State<Handle> = State::new(30);
    assert_ne!(state.new_token(), state.new_token());
}

#[test]
fn full_body_longer_than_declared_is_refused() {
    let mut body = FullUpload::new(Some(3));
    assert!(matches!(body.accept(5), Err(Error::DataNotFitIn(5))));
}

#[test]
fn full_body_shorter_than_declared_is_refused() {
    let mut body = FullUpload::new(Some(3));
    assert_eq!(body.accept(2).unwrap(), 2);
    assert!(matches!(body.finish(), Err(Error::DataNotFitIn(2))));
}

#[test]
fn full_body_of_declared_size_in_pieces_is_accepted() {
    let mut body = FullUpload::new(Some(5));
    assert_eq!(body.accept(2).unwrap(), 2);
    assert_eq!(body.accept(3).unwrap(), 5);
    assert_eq!(body.finish().unwrap(), 5);
    assert!(matches!(body.accept(1), Err(Error::DataNotFitIn(6))));
}

#[test]
fn full_body_without_declared_size_takes_anything() {
    let mut body = FullUpload::new(None);
    assert_eq!(body.finish().unwrap(), 0);
    assert_eq!(body.accept(1000).unwrap(), 1000);
    assert!(matches!(body.accept(usize::MAX), Err(Error::DataNotFitIn(usize::MAX))));
    assert_eq!(body.finish().unwrap(), 1000);
}

#[test]
fn io_error_converts_into_the_io_variant() {
    let e: Error = std::io::Error::new(std::io::ErrorKind::NotFound, "gone").into();
    assert!(e.is_io());
    assert!(!Error::InvalidChunkIndex.is_io());
}
