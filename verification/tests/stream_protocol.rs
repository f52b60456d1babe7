use dashdust::stream::{socket_url, stream_start, stream_step, StreamAction, StreamEvent, StreamState};

fn sent_index(a: &StreamAction) -> Option<usize> {
    match a {
        StreamAction::SendSnapshot { index } => Some(*index),
        _ => None,
    }
}

#[test]
fn replays_every_snapshot_then_goes_live() {
    let (mut state, mut action) = stream_start(3);
    let mut sent = Vec::new();
    while let Some(i) = sent_index(&action) {
        sent.push(i);
        let next = stream_step(state, 3, StreamEvent::Sent);
        state = next.0;
        action = next.1;
    }
    assert_eq!(sent, vec![0, 1, 2]);
    assert!(matches!(state, StreamState::Live));
    assert!(matches!(action, StreamAction::AwaitLive));
    let (state, action) = stream_step(state, 3, StreamEvent::Received);
    assert!(matches!(action, StreamAction::SendLive));
    let (state, action) = stream_step(state, 3, StreamEvent::Sent);
    assert!(matches!(action, StreamAction::AwaitLive));
    let (state, action) = stream_step(state, 3, StreamEvent::ReceiveFailed);
    assert!(matches!(state, StreamState::Closed));
    assert!(matches!(action, StreamAction::Stop));
}

#[test]
fn empty_history_starts_live() {
    let (state, action) = stream_start(0);
    assert!(matches!(state, StreamState::Live));
    assert!(matches!(action, StreamAction::AwaitLive));
}

#[test]
fn failed_send_stops() {
    let (state, _) = stream_start(5);
    let (state, action) = stream_step(state, 5, StreamEvent::SendFailed);
    assert!(matches!(state, StreamState::Closed));
    assert!(matches!(action, StreamAction::Stop));
    let (state, action) = stream_step(state, 5, StreamEvent::Received);
    assert!(matches!(state, StreamState::Closed));
    assert!(matches!(action, StreamAction::Stop));
}

#[test]
fn socket_url_follows_page_scheme() {
    assert_eq!(
        socket_url(&"https:".to_string(), &"dash.example:8443".to_string()),
        "wss://dash.example:8443/ws"
    );
    assert_eq!(socket_url(&"http:".to_string(), &"localhost:3000".to_string()), "ws://localhost:3000/ws");
    assert_eq!(socket_url(&"".to_string(), &"h".to_string()), "ws://h/ws");
}
