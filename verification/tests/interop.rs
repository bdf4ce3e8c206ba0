use bytes::{Bytes, BytesMut};
use srp::helper::{HelperAction, HelperSession, SessionConfig};
use srp::mux::{encode_all, MuxState};
use srp::session::{
    handle_command, open_stream, ClientSession, MuxCommand, PendingOpen, SessionAction, SessionStep,
};
use srp::stream::{Downlink, Uplink, UplinkStep};
use srp::{Frame, ResetCode, TargetAddr};

const SESSION: [u8; 16] = [7; 16];

fn target() -> TargetAddr {
    TargetAddr::Domain("example.com".into(), 443)
}

/// The frame as the other end reads it.
fn carried(frame: Frame) -> Frame {
    let mut wire = BytesMut::new();
    encode_all(&[frame], &mut wire);
    let read = Frame::decode(&mut wire).expect("well-formed").expect("complete");
    assert!(wire.is_empty());
    read
}

fn client_sends(actions: Vec<SessionAction>) -> Vec<Frame> {
    let mut out = Vec::new();
    for action in actions {
        if let SessionAction::Send(frame) = action {
            out.push(carried(frame));
        }
    }
    out
}

fn helper_sends(actions: Vec<HelperAction>) -> Vec<Frame> {
    let mut out = Vec::new();
    for action in actions {
        if let HelperAction::Send(frame) = action {
            out.push(carried(frame));
        }
    }
    out
}

fn client_takes(client: &mut ClientSession, frame: Frame, state: &mut MuxState) -> Vec<SessionAction> {
    match client.on_frame(frame, state) {
        SessionStep::Continue(actions) => actions,
        other => panic!("the channel must live on, got {other:?}"),
    }
}

fn helper_takes(helper: &mut HelperSession, frame: Frame) -> Vec<HelperAction> {
    let (actions, go_on) = helper.handle_frame(frame);
    assert!(go_on);
    actions
}

/// Shakes hands on a new channel and passes the questions and answers on.
/// Returns the client's end.
fn connect(state: &mut MuxState, helper: &mut HelperSession) -> ClientSession {
    let (mut client, hello) = ClientSession::start(state, SESSION);
    for ack in helper_sends(helper_takes(helper, carried(hello))) {
        for question in client_sends(client_takes(&mut client, ack, state)) {
            for answer in helper_sends(helper_takes(helper, question)) {
                for again in client_sends(client_takes(&mut client, answer, state)) {
                    helper_takes(helper, again);
                }
            }
        }
    }
    assert!(client.handshake_done);
    client
}

/// What the target is handed.
fn handed(actions: &[HelperAction]) -> Vec<u8> {
    let mut out = Vec::new();
    for action in actions {
        if let HelperAction::Hand { item: Downlink::Data { bytes, .. }, .. } = action {
            out.extend_from_slice(bytes);
        }
    }
    out
}

/// What the local side is handed.
fn delivered(actions: &[SessionAction]) -> Vec<u8> {
    let mut out = Vec::new();
    for action in actions {
        if let SessionAction::Deliver { data, .. } = action {
            out.extend_from_slice(data);
        }
    }
    out
}

/// Everything that the target's side has to send, frame by frame.
fn uplink_frames(helper: &mut HelperSession, up: &mut Uplink, id: u32) -> Vec<Frame> {
    let mut out = Vec::new();
    loop {
        let stream = helper.stream_mut(id).expect("the stream lives");
        match up.step(&mut stream.tx) {
            UplinkStep::Send(frame) => out.push(carried(frame)),
            _ => return out,
        }
    }
}

fn opened(state: &mut MuxState, helper: &mut HelperSession) -> u32 {
    let (id, actions) = open_stream(PendingOpen { addr: target(), request: 1 }, state);
    for frame in client_sends(actions) {
        assert_eq!(
            helper_takes(helper, frame),
            vec![HelperAction::Spawn { stream_id: id, addr: target() }]
        );
    }
    id
}

fn write(state: &mut MuxState, stream_id: u32, data: &'static [u8]) -> Vec<Frame> {
    client_sends(handle_command(
        MuxCommand::LocalData { stream_id, data: Bytes::from_static(data) },
        state,
    ))
}

#[test]
fn both_ends_agree_on_what_goes_on() {
    let mut state = MuxState::new(1 << 20);
    let mut helper = HelperSession::new(SessionConfig::default());
    connect(&mut state, &mut helper);
    let id = opened(&mut state, &mut helper);

    connect(&mut state, &mut helper);
    assert_eq!(state.stream_ids(), vec![id]);
    assert_eq!(helper.stream_count(), 1);

    let mut fresh = HelperSession::new(SessionConfig::default());
    connect(&mut state, &mut fresh);
    assert!(state.is_empty(), "a helper without the streams ends them");
    assert_eq!(fresh.stream_count(), 0);
}

#[test]
fn nothing_is_lost_over_a_reconnect() {
    let mut state = MuxState::new(1 << 20);
    let mut helper = HelperSession::new(SessionConfig::default());
    connect(&mut state, &mut helper);
    let id = opened(&mut state, &mut helper);
    let mut up = Uplink::new(id);
    let mut at_target = Vec::new();
    let mut at_client = Vec::new();

    for frame in write(&mut state, id, b"first ") {
        at_target.extend(handed(&helper_takes(&mut helper, frame)));
    }
    assert!(!write(&mut state, id, b"lost ").is_empty(), "sent, and lost on the way");
    helper.stream_mut(id).expect("alive").tx.push(b"reply ");
    assert_eq!(uplink_frames(&mut helper, &mut up, id).len(), 1, "lost on the way too");

    // The frames that the client sends again arrive within the handshake.
    let (mut client, hello) = ClientSession::start(&state, SESSION);
    for ack in helper_sends(helper_takes(&mut helper, carried(hello))) {
        for question in client_sends(client_takes(&mut client, ack, &mut state)) {
            assert_eq!(question, Frame::Resume { stream_id: id, recv_offset: 0 });
            for answer in helper_sends(helper_takes(&mut helper, question)) {
                assert_eq!(answer, Frame::ResumeOk { stream_id: id, recv_offset: 6 });
                for again in client_sends(client_takes(&mut client, answer, &mut state)) {
                    at_target.extend(handed(&helper_takes(&mut helper, again)));
                }
            }
        }
    }
    for frame in write(&mut state, id, b"last") {
        at_target.extend(handed(&helper_takes(&mut helper, frame)));
    }
    helper.stream_mut(id).expect("alive").tx.push(b"goes on");
    for frame in uplink_frames(&mut helper, &mut up, id) {
        at_client.extend(delivered(&client_takes(&mut client, frame, &mut state)));
    }
    assert_eq!(at_target, b"first lost last");
    assert_eq!(at_client, b"reply goes on");
}

#[test]
fn a_frame_that_comes_twice_is_handed_over_once() {
    let mut state = MuxState::new(1 << 20);
    let mut helper = HelperSession::new(SessionConfig::default());
    let mut client = connect(&mut state, &mut helper);
    let id = opened(&mut state, &mut helper);

    let frames = write(&mut state, id, b"once");
    assert_eq!(frames.len(), 1);
    assert_eq!(handed(&helper_takes(&mut helper, frames[0].clone())), b"once");
    assert_eq!(handed(&helper_takes(&mut helper, frames[0].clone())), b"");

    let mut up = Uplink::new(id);
    helper.stream_mut(id).expect("alive").tx.push(b"back");
    let frames = uplink_frames(&mut helper, &mut up, id);
    assert_eq!(frames.len(), 1);
    let first = client_takes(&mut client, frames[0].clone(), &mut state);
    assert_eq!(delivered(&first), b"back");
    let second = client_takes(&mut client, frames[0].clone(), &mut state);
    assert_eq!(delivered(&second), b"");
}

#[test]
fn acknowledged_bytes_are_released_and_no_others() {
    let mut state = MuxState::new(1 << 20);
    let mut helper = HelperSession::new(SessionConfig::default());
    let mut client = connect(&mut state, &mut helper);
    let id = opened(&mut state, &mut helper);
    for frame in write(&mut state, id, b"0123456789") {
        helper_takes(&mut helper, frame);
    }
    let taken = helper.stream_mut(id).expect("alive").recv.delivered();
    assert_eq!(taken, 10);
    client_takes(&mut client, Frame::Ack { stream_id: id, offset: 4 }, &mut state);
    let tx = &state.get_mut(id).expect("alive").tx;
    assert_eq!((tx.acked(), tx.write_offset()), (4, 10));
    assert!(!tx.is_fully_acked());

    // More than was ever sent ends the stream.
    let actions = client_takes(&mut client, Frame::Ack { stream_id: id, offset: 11 }, &mut state);
    assert!(actions.iter().any(|a| matches!(
        a,
        SessionAction::Terminate { code: ResetCode::Internal, .. }
    )));
}
