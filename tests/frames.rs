use serial_frame::engine::{Emission, FrameEngine, LoopState, LoopStep, ReadOutcome, StopPoll};
use serial_frame::framing::FrameSplitter;
use serial_frame::line::{convert_frame, Line};
use serial_frame::SerialFrameError;

#[test]
fn it_works() {
    assert_eq!(2 + 2, 4);
}

fn frame_bytes(out: Vec<Emission>) -> Vec<Vec<u8>> {
    out.into_iter()
        .map(|e| match e {
            Emission::Frame(f) => f,
            Emission::Disconnected => panic!("unexpected disconnect"),
        })
        .collect()
}

fn line_text(frame: Vec<u8>) -> String {
    match Line::try_from(frame) {
        Ok(l) => l.0,
        Err(e) => panic!("conversion failed: {:?}", e),
    }
}

#[test]
fn two_lines_in_two_chunks() {
    let mut engine = FrameEngine::new(b'\n');
    assert_eq!(engine.on_stop_poll(StopPoll::Empty), LoopStep::Read);
    let first = frame_bytes(engine.on_read(ReadOutcome::Data(b"ab\n".to_vec())));
    assert_eq!(first.len(), 1);
    assert_eq!(line_text(first[0].clone()), "ab\n");
    assert_eq!(engine.on_stop_poll(StopPoll::Empty), LoopStep::Read);
    let second = frame_bytes(engine.on_read(ReadOutcome::Data(b"cd\n".to_vec())));
    assert_eq!(second.len(), 1);
    assert_eq!(line_text(second[0].clone()), "cd\n");
}

#[test]
fn line_split_across_chunks() {
    let mut engine = FrameEngine::new(b'\n');
    let first = engine.on_read(ReadOutcome::Data(b"ab".to_vec()));
    assert!(first.is_empty());
    let second = frame_bytes(engine.on_read(ReadOutcome::Data(b"c\n".to_vec())));
    assert_eq!(second.len(), 1);
    assert_eq!(line_text(second[0].clone()), "abc\n");
}

#[test]
fn any_chunking_gives_same_frames() {
    let stream: Vec<u8> = b"one\ntwo\n\nthree\nfour".to_vec();
    let expected: Vec<Vec<u8>> = vec![b"one\n".to_vec(), b"two\n".to_vec(), b"\n".to_vec(), b"three\n".to_vec()];
    for size in 1..=stream.len() {
        let mut splitter = FrameSplitter::new(b'\n');
        let mut got: Vec<Vec<u8>> = Vec::new();
        for chunk in stream.chunks(size) {
            got.extend(splitter.push_chunk(chunk));
        }
        assert_eq!(got, expected);
        assert_eq!(splitter.pending(), &b"four".to_vec());
        let mut all: Vec<u8> = got.concat();
        all.extend_from_slice(splitter.pending());
        assert_eq!(all, stream);
    }
}

#[test]
fn frames_end_with_their_only_separator() {
    let mut splitter = FrameSplitter::new(0);
    let frames = splitter.push_chunk(&[1, 2, 0, 0, 3, 0, 4]);
    assert_eq!(frames, vec![vec![1, 2, 0], vec![0], vec![3, 0]]);
    for f in &frames {
        assert_eq!(*f.last().unwrap(), 0);
        assert_eq!(f.iter().filter(|&&b| b == 0).count(), 1);
    }
    assert_eq!(splitter.pending(), &vec![4]);
    assert_eq!(splitter.separator(), 0);
}

#[test]
fn no_separator_keeps_everything_pending() {
    let mut engine = FrameEngine::new(b'\n');
    for _ in 0..5 {
        assert!(engine.on_read(ReadOutcome::Data(b"xyz".to_vec())).is_empty());
    }
    let mut splitter = FrameSplitter::new(b'\n');
    assert!(splitter.push_chunk(b"abc").is_empty());
    assert!(splitter.push_chunk(b"").is_empty());
    assert!(splitter.push_chunk(b"def").is_empty());
    assert_eq!(splitter.pending(), &b"abcdef".to_vec());
}

#[test]
fn timeout_sends_nothing_and_keeps_running() {
    let mut engine = FrameEngine::new(b'\n');
    assert!(engine.on_read(ReadOutcome::Data(b"ab".to_vec())).is_empty());
    assert!(engine.on_read(ReadOutcome::TimedOut).is_empty());
    assert!(engine.is_running());
    let out = frame_bytes(engine.on_read(ReadOutcome::Data(b"\n".to_vec())));
    assert_eq!(out, vec![b"ab\n".to_vec()]);
}

#[test]
fn stop_request_finishes_loop() {
    let mut engine = FrameEngine::new(b'\n');
    assert_eq!(engine.on_stop_poll(StopPoll::Requested), LoopStep::Finish);
    assert_eq!(engine.state(), LoopState::StoppedByRequest);
    assert!(!engine.is_running());
    assert_eq!(engine.on_stop_poll(StopPoll::Empty), LoopStep::Finish);
    assert!(engine.on_read(ReadOutcome::Data(b"a\n".to_vec())).is_empty());
}

#[test]
fn abandoned_stop_handle_keeps_loop_alive() {
    let mut engine = FrameEngine::new(b'\n');
    assert_eq!(engine.on_stop_poll(StopPoll::Abandoned), LoopStep::Idle);
    assert_eq!(engine.state(), LoopState::Running);
}

#[test]
fn fatal_read_reports_disconnect_once() {
    let mut engine = FrameEngine::new(b'\n');
    assert!(engine.on_read(ReadOutcome::Data(b"partial".to_vec())).is_empty());
    let out = engine.on_read(ReadOutcome::Failed);
    assert_eq!(out.len(), 1);
    assert!(matches!(out[0], Emission::Disconnected));
    assert_eq!(engine.state(), LoopState::StoppedByFatalError);
    assert!(engine.on_read(ReadOutcome::Data(b"more\n".to_vec())).is_empty());
    assert!(engine.on_read(ReadOutcome::Failed).is_empty());
    assert_eq!(engine.on_stop_poll(StopPoll::Empty), LoopStep::Finish);
}

#[test]
fn send_failure_ends_loop() {
    let mut engine = FrameEngine::new(b'\n');
    engine.on_send_failed();
    assert_eq!(engine.state(), LoopState::StoppedByAbandonedConsumer);
    assert_eq!(engine.on_stop_poll(StopPoll::Empty), LoopStep::Finish);
}

#[test]
fn invalid_utf8_frame_fails_then_valid_frame_converts() {
    let mut engine = FrameEngine::new(b'\n');
    let frames = frame_bytes(engine.on_read(ReadOutcome::Data(vec![0xff, 0xfe, b'\n', b'o', b'k', b'\n'])));
    assert_eq!(frames.len(), 2);
    match Line::try_from(frames[0].clone()) {
        Err(SerialFrameError::FailedConversion(b)) => assert_eq!(b, vec![0xff, 0xfe, b'\n']),
        other => panic!("expected a failed conversion, got {:?}", other.map(|l| l.0)),
    }
    assert_eq!(line_text(frames[1].clone()), "ok\n");
}

#[test]
fn line_reads_multibyte_text() {
    let l = Line::try_from("h\u{e9}\n".as_bytes().to_vec()).ok().unwrap();
    assert_eq!(l.as_str(), "h\u{e9}\n");
    assert_eq!(l.0.chars().count(), 3);
}

#[test]
fn convert_frame_to_array() {
    let ok: Result<[u8; 2], SerialFrameError> = convert_frame(vec![7, 0]);
    assert_eq!(ok.ok(), Some([7, 0]));
    let bad: Result<[u8; 2], SerialFrameError> = convert_frame(vec![1, 2, 0]);
    match bad {
        Err(SerialFrameError::FailedConversion(b)) => assert_eq!(b, vec![1, 2, 0]),
        _ => panic!("expected a failed conversion"),
    }
}

#[test]
fn convert_frame_to_bytes_passes_through() {
    let r: Result<Vec<u8>, SerialFrameError> = convert_frame(vec![5, 6, 0]);
    assert_eq!(r.ok(), Some(vec![5, 6, 0]));
}
