use bytes::Bytes;
use srp::stream::{
    connect_outcome, AckBatch, AckStep, Halt, RunStep, StreamEvent, StreamRun, Uplink, UplinkStep,
    ACK_BYTES,
};
use srp::{Frame, ResetCode, SendBuffer, DATA_CHUNK};

#[test]
fn shared_buffer_is_mutated_under_lock() {
    let mut tx = SendBuffer::new(64);
    assert_eq!(tx.push(b"abcd"), 4);
    let (offset, data) = tx.next_unsent(64).expect("pending");
    assert_eq!(offset, 0);
    assert_eq!(&data[..], b"abcd");
    tx.ack(4).expect("ack");
    assert!(tx.is_fully_acked());
}

#[test]
fn window_reports_backpressure() {
    let mut tx = SendBuffer::new(4);
    assert_eq!(tx.push(b"abcdef"), 4, "must be cut to the window");
    assert_eq!(tx.writable(), 0);
}

#[test]
fn the_uplink_sends_what_it_has_before_it_reads() {
    let mut up = Uplink::new(5);
    let mut tx = SendBuffer::new(8);
    assert!(matches!(up.step(&mut tx), UplinkStep::Read(8)));
    assert_eq!(up.on_read(b"abcde", &mut tx), Ok(()));
    match up.step(&mut tx) {
        UplinkStep::Send(f) => assert_eq!(
            f,
            Frame::Data { stream_id: 5, offset: 0, data: Bytes::from_static(b"abcde") }
        ),
        other => panic!("{other:?}"),
    }
    assert!(matches!(up.step(&mut tx), UplinkStep::Read(3)));
    assert_eq!(up.on_read(b"fgh", &mut tx), Ok(()));
    assert!(matches!(up.step(&mut tx), UplinkStep::Send(Frame::Data { offset: 5, .. })));
    assert!(matches!(up.step(&mut tx), UplinkStep::Wait), "a full window stops the reading");
    tx.ack(8).unwrap();
    assert!(matches!(up.step(&mut tx), UplinkStep::Read(8)));
}

#[test]
fn the_uplink_is_done_when_all_is_acknowledged() {
    let mut up = Uplink::new(5);
    let mut tx = SendBuffer::new(8);
    assert_eq!(up.on_read(b"ab", &mut tx), Ok(()));
    assert_eq!(up.on_read(b"", &mut tx), Ok(()));
    assert!(matches!(up.step(&mut tx), UplinkStep::Send(Frame::Data { .. })));
    assert!(matches!(up.step(&mut tx), UplinkStep::Send(Frame::Fin { stream_id: 5 })));
    assert!(matches!(up.step(&mut tx), UplinkStep::Wait));

    // The client resumes from the start: everything is sent again.
    assert_eq!(tx.rewind_to(0), Ok(2));
    assert!(matches!(up.step(&mut tx), UplinkStep::Send(Frame::Data { offset: 0, .. })));
    assert!(matches!(up.step(&mut tx), UplinkStep::Wait), "the end is told once");

    tx.ack(2).unwrap();
    assert!(matches!(up.step(&mut tx), UplinkStep::Done));
}

#[test]
fn reading_too_much_is_a_fault() {
    let mut up = Uplink::new(5);
    let mut tx = SendBuffer::new(2);
    assert_eq!(up.on_read(b"abc", &mut tx), Err(Halt::Internal));
    let mut wide = SendBuffer::new(1 << 20);
    match up.step(&mut wide) {
        UplinkStep::Read(n) => assert_eq!(n, DATA_CHUNK),
        other => panic!("{other:?}"),
    }
}

#[test]
fn acknowledgements_are_batched() {
    let mut b = AckBatch::new(3);
    assert_eq!(b.written(10, 10), AckStep::StartTimer);
    assert_eq!(b.written(10, 20), AckStep::Nothing);
    assert_eq!(b.flush(), AckStep::Ack { offset: 20 });
    assert_eq!(b.flush(), AckStep::Nothing);
    assert_eq!(
        b.written(ACK_BYTES as usize, 20 + ACK_BYTES),
        AckStep::Ack { offset: 20 + ACK_BYTES }
    );
    assert_eq!(b.written(1, 21 + ACK_BYTES), AckStep::StartTimer);
    assert_eq!(b.duplicate(21 + ACK_BYTES), AckStep::Ack { offset: 21 + ACK_BYTES });
    assert_eq!(b.flush(), AckStep::Nothing);
}

#[test]
fn a_stream_is_over_when_both_directions_are() {
    let mut run = StreamRun::new(9);
    assert_eq!(run.uplink_ended(Ok(())), RunStep::Report(Some(StreamEvent::EgressDone(9))));
    assert!(!run.is_over());
    assert_eq!(run.downlink_ended(Ok(())), RunStep::Report(None));
    assert!(run.is_over());

    let failed = StreamEvent::Failed { stream_id: 9, reset: Some(ResetCode::Internal) };
    assert_eq!(StreamRun::new(9).uplink_ended(Err(Halt::Io)), RunStep::Fail(failed));
    assert_eq!(StreamRun::new(9).downlink_ended(Err(Halt::Internal)), RunStep::Fail(failed));
    assert_eq!(StreamRun::new(9).downlink_ended(Err(Halt::Closed)), RunStep::Quit);
}

#[test]
fn the_client_is_told_of_the_connection() {
    assert_eq!(connect_outcome(4, Ok(())), (Frame::OpenOk { stream_id: 4 }, None));
    assert_eq!(
        connect_outcome(4, Err("connection refused".into())),
        (
            Frame::OpenErr {
                stream_id: 4,
                code: ResetCode::ConnectFailed,
                msg: "connection refused".into()
            },
            Some(StreamEvent::Failed { stream_id: 4, reset: None })
        )
    );
}
