use bytes::Bytes;
use srp::{RecvTracker, ResumeError, SendBuffer};

#[test]
fn push_send_ack_cycle() {
    let mut b = SendBuffer::new(1024);
    assert_eq!(b.push(b"hello"), 5);
    assert_eq!(b.write_offset(), 5);
    assert!(b.has_pending());

    let (off, data) = b.next_unsent(1024).expect("pending");
    assert_eq!(off, 0);
    assert_eq!(&data[..], b"hello");
    assert!(!b.has_pending());
    assert!(!b.is_fully_acked(), "still awaiting ack");

    b.ack(5).unwrap();
    assert!(b.is_fully_acked());
    assert_eq!(b.acked(), 5);
    assert_eq!(b.writable(), 1024);
}

#[test]
fn respects_window_and_applies_backpressure() {
    let mut b = SendBuffer::new(8);
    assert_eq!(b.push(b"0123456789"), 8, "must clamp to capacity");
    assert_eq!(b.writable(), 0);
    assert_eq!(b.push(b"more"), 0, "window full -> backpressure");

    b.next_unsent(8).unwrap();
    b.ack(4).unwrap();
    assert_eq!(b.writable(), 4);
    assert_eq!(b.push(b"abcd"), 4);
}

#[test]
fn next_unsent_splits_by_max_and_merges_chunks() {
    let mut b = SendBuffer::new(1024);
    b.push(b"abc");
    b.push(b"def");
    b.push(b"ghi");

    let (o1, d1) = b.next_unsent(4).unwrap();
    assert_eq!((o1, &d1[..]), (0, &b"abcd"[..]), "merged across chunks");
    let (o2, d2) = b.next_unsent(4).unwrap();
    assert_eq!((o2, &d2[..]), (4, &b"efgh"[..]));
    let (o3, d3) = b.next_unsent(4).unwrap();
    assert_eq!((o3, &d3[..]), (8, &b"i"[..]));
    assert!(b.next_unsent(4).is_none());
}

#[test]
fn partial_ack_trims_chunk_prefix() {
    let mut b = SendBuffer::new(1024);
    b.push(b"abcdef");
    b.next_unsent(6).unwrap();
    b.ack(2).unwrap();
    assert_eq!(b.acked(), 2);
    let regap = b.rewind_to(2).unwrap();
    assert_eq!(regap, 4);
    let (off, data) = b.next_unsent(64).unwrap();
    assert_eq!(off, 2);
    assert_eq!(&data[..], b"cdef");
}

#[test]
fn duplicate_ack_is_idempotent_and_overshoot_rejected() {
    let mut b = SendBuffer::new(64);
    b.push(b"abcd");
    b.next_unsent(64).unwrap();
    b.ack(4).unwrap();
    b.ack(2).unwrap();
    assert_eq!(b.acked(), 4);
    assert_eq!(
        b.ack(99),
        Err(ResumeError::AckBeyondSent { ack: 99, sent: 4 })
    );
}

#[test]
fn reconnect_resends_exact_gap_without_loss() {
    let mut tx = SendBuffer::new(4096);
    let payload: Vec<u8> = (0..1000u32).map(|i| (i % 251) as u8).collect();
    tx.push(&payload);

    let mut wire = Vec::new();
    while let Some((off, d)) = tx.next_unsent(256) {
        wire.push((off, d));
    }
    assert_eq!(tx.send_cursor(), 1000);

    let mut rx = RecvTracker::new();
    let mut received = Vec::new();
    for (off, d) in &wire {
        if *off >= 400 {
            break;
        }
        let take = ((400 - *off) as usize).min(d.len());
        if let Some(fresh) = rx.accept(*off, d.slice(..take)).unwrap() {
            received.extend_from_slice(&fresh);
        }
    }
    assert_eq!(rx.delivered(), 400);
    assert_eq!(received.len(), 400);

    let gap = tx.rewind_to(rx.delivered()).unwrap();
    assert_eq!(gap, 600, "must resend exactly the missing tail");

    while let Some((off, d)) = tx.next_unsent(256) {
        if let Some(fresh) = rx.accept(off, d).unwrap() {
            received.extend_from_slice(&fresh);
        }
    }

    assert_eq!(received.len(), 1000);
    assert_eq!(
        received, payload,
        "byte stream must be identical: zero loss"
    );
    assert_eq!(rx.delivered(), 1000);
}

#[test]
fn overlapping_retransmit_is_deduplicated() {
    let mut rx = RecvTracker::new();
    let fresh = rx
        .accept(0, Bytes::from_static(b"abcdef"))
        .unwrap()
        .unwrap();
    assert_eq!(&fresh[..], b"abcdef");

    assert_eq!(rx.accept(0, Bytes::from_static(b"abc")).unwrap(), None);
    let fresh = rx.accept(4, Bytes::from_static(b"efgh")).unwrap().unwrap();
    assert_eq!(&fresh[..], b"gh");
    assert_eq!(rx.delivered(), 8);
}

#[test]
fn recv_rejects_gap() {
    let mut rx = RecvTracker::new();
    rx.accept(0, Bytes::from_static(b"ab")).unwrap();
    assert_eq!(
        rx.accept(5, Bytes::from_static(b"z")),
        Err(ResumeError::Gap {
            expected: 2,
            got: 5
        })
    );
}

#[test]
fn rewind_below_acked_is_unrecoverable() {
    let mut tx = SendBuffer::new(64);
    tx.push(b"abcdefgh");
    tx.next_unsent(64).unwrap();
    tx.ack(8).unwrap();
    assert_eq!(
        tx.rewind_to(3),
        Err(ResumeError::GapUnrecoverable {
            peer_recv: 3,
            acked: 8
        })
    );
}

#[test]
fn rewind_beyond_sent_is_rejected() {
    let mut tx = SendBuffer::new(64);
    tx.push(b"abc");
    assert_eq!(
        tx.rewind_to(10),
        Err(ResumeError::AckBeyondSent { ack: 10, sent: 3 })
    );
}

#[test]
fn survives_repeated_disconnects() {
    let mut tx = SendBuffer::new(1 << 16);
    let mut rx = RecvTracker::new();
    let payload: Vec<u8> = (0..5000u32).map(|i| (i % 97) as u8).collect();
    let mut out = Vec::new();
    let mut fed = 0usize;

    for round in 0..4 {
        let end = ((round + 1) * 1250).min(payload.len());
        fed += tx.push(&payload[fed..end]);

        let mut frames = Vec::new();
        while let Some(f) = tx.next_unsent(300) {
            frames.push(f);
        }
        let deliver = frames.len() / 2 + 1;
        for (off, d) in frames.into_iter().take(deliver) {
            if let Some(fresh) = rx.accept(off, d).unwrap() {
                out.extend_from_slice(&fresh);
            }
        }
        tx.rewind_to(rx.delivered()).unwrap();
    }

    while let Some((off, d)) = tx.next_unsent(300) {
        if let Some(fresh) = rx.accept(off, d).unwrap() {
            out.extend_from_slice(&fresh);
        }
    }

    assert_eq!(out.len(), payload.len());
    assert_eq!(out, payload, "stream corrupted across reconnects");
}

#[test]
fn fin_flags_track_state() {
    let mut tx = SendBuffer::new(16);
    assert!(!tx.fin_queued());
    tx.mark_fin();
    assert!(tx.fin_queued());

    let mut rx = RecvTracker::new();
    assert!(!rx.fin_received());
    rx.mark_fin();
    assert!(rx.fin_received());
}

#[test]
fn the_count_and_the_end_of_a_stream_never_go_back() {
    let mut rx = RecvTracker::new();
    let mut handed = 0;
    let frames: [(u64, &'static [u8]); 5] = [(0, b"abc"), (1, b"bcde"), (9, b"x"), (0, b"ab"), (5, b"")];
    for (i, (offset, data)) in frames.into_iter().enumerate() {
        let before = rx.delivered();
        if let Ok(Some(fresh)) = rx.accept(offset, Bytes::from_static(data)) {
            handed += fresh.len() as u64;
        }
        assert_eq!(rx.delivered(), handed);
        assert!(rx.delivered() >= before);
        assert_eq!(rx.fin_received(), i >= 2);
        if i == 1 {
            rx.mark_fin();
            assert_eq!(rx.delivered(), 5);
        }
    }
    assert_eq!(handed, 5);
}

#[test]
fn data_far_ahead_is_a_gap_whatever_its_length() {
    let mut rx = RecvTracker::new();
    assert_eq!(
        rx.accept(u64::MAX, Bytes::from_static(b"xyz")),
        Err(ResumeError::Gap { expected: 0, got: u64::MAX })
    );
    assert_eq!(rx.delivered(), 0);
}
