use vstd::prelude::*;

verus! {

/// Where a dashboard connection stands: replaying the kept snapshots
/// (`next` is the one being sent), forwarding live snapshots, or over.
pub enum StreamState {
    Replaying { next: usize },
    Live,
    Closed,
}

/// What happened since the last action.
pub enum StreamEvent {
    /// The message handed to the client went out.
    Sent,
    /// The client could not be written to.
    SendFailed,
    /// A live snapshot arrived from the collector.
    Received,
    /// The collector's channel closed or this connection fell behind it.
    ReceiveFailed,
}

/// What the connection does next.
pub enum StreamAction {
    /// Send the kept snapshot at `index`.
    SendSnapshot { index: usize },
    /// Wait for the next live snapshot.
    AwaitLive,
    /// Send the live snapshot just received.
    SendLive,
    /// Close the connection.
    Stop,
}

/// The first step of a connection that has `n` kept snapshots to replay.
pub open spec fn stream_opening(n: nat) -> (StreamState, StreamAction) {
    if n > 0 {
        (StreamState::Replaying { next: 0 }, StreamAction::SendSnapshot { index: 0 })
    } else {
        (StreamState::Live, StreamAction::AwaitLive)
    }
}

/// The next state and action of a connection replaying `n` kept snapshots.
pub open spec fn stream_next(state: StreamState, n: nat, event: StreamEvent) -> (
    StreamState,
    StreamAction,
) {
    match (state, event) {
        (StreamState::Closed, _) => (StreamState::Closed, StreamAction::Stop),
        (_, StreamEvent::SendFailed) => (StreamState::Closed, StreamAction::Stop),
        (StreamState::Replaying { next }, StreamEvent::Sent) => {
            if next + 1 < n {
                (
                    StreamState::Replaying { next: (next + 1) as usize },
                    StreamAction::SendSnapshot { index: (next + 1) as usize },
                )
            } else {
                (StreamState::Live, StreamAction::AwaitLive)
            }
        },
        (StreamState::Replaying { .. }, _) => (StreamState::Closed, StreamAction::Stop),
        (StreamState::Live, StreamEvent::Sent) => (StreamState::Live, StreamAction::AwaitLive),
        (StreamState::Live, StreamEvent::Received) => (StreamState::Live, StreamAction::SendLive),
        (StreamState::Live, StreamEvent::ReceiveFailed) => (StreamState::Closed, StreamAction::Stop),
    }
}

/// How a connection opens: with the first kept snapshot, or waiting for
/// live ones when none is kept.
pub fn stream_start(snapshot_len: usize) -> (r: (StreamState, StreamAction))
    ensures
        r == stream_opening(snapshot_len as nat),
        snapshot_len > 0 ==> r == (
            StreamState::Replaying { next: 0 },
            StreamAction::SendSnapshot { index: 0 },
        ),
        snapshot_len == 0 ==> r == (StreamState::Live, StreamAction::AwaitLive),
{
    if snapshot_len > 0 {
        (StreamState::Replaying { next: 0 }, StreamAction::SendSnapshot { index: 0 })
    } else {
        (StreamState::Live, StreamAction::AwaitLive)
    }
}

/// One decision of a connection: every kept snapshot is sent in order,
/// then each live snapshot as it arrives; the first failure ends it.
pub fn stream_step(state: StreamState, snapshot_len: usize, event: StreamEvent) -> (r: (
    StreamState,
    StreamAction,
))
    ensures
        r == stream_next(state, snapshot_len as nat, event),
        state is Replaying && event is Sent && state->next + 1 < snapshot_len ==> r == (
            StreamState::Replaying { next: (state->next + 1) as usize },
            StreamAction::SendSnapshot { index: (state->next + 1) as usize },
        ),
        state is Replaying && event is Sent && state->next + 1 >= snapshot_len ==> r == (StreamState::Live, StreamAction::AwaitLive),
        event is SendFailed ==> r == (StreamState::Closed, StreamAction::Stop),
        state is Closed ==> r == (StreamState::Closed, StreamAction::Stop),
        state is Live && event is Received ==> r == (StreamState::Live, StreamAction::SendLive),
        state is Live && event is Sent ==> r == (StreamState::Live, StreamAction::AwaitLive),
        state is Live && (event is ReceiveFailed || event is SendFailed) ==> r == (
            StreamState::Closed,
            StreamAction::Stop,
        ),
{
    match state {
        StreamState::Closed => (StreamState::Closed, StreamAction::Stop),
        StreamState::Replaying { next } => match event {
            StreamEvent::Sent => {
                if next < snapshot_len && next + 1 < snapshot_len {
                    (
                        StreamState::Replaying { next: next + 1 },
                        StreamAction::SendSnapshot { index: next + 1 },
                    )
                } else {
                    (StreamState::Live, StreamAction::AwaitLive)
                }
            },
            _ => (StreamState::Closed, StreamAction::Stop),
        },
        StreamState::Live => match event {
            StreamEvent::Sent => (StreamState::Live, StreamAction::AwaitLive),
            StreamEvent::Received => (StreamState::Live, StreamAction::SendLive),
            _ => (StreamState::Closed, StreamAction::Stop),
        },
    }
}

/// The state and action after the opening step and `k` successful sends.
pub open spec fn after_sends(n: nat, k: nat) -> (StreamState, StreamAction)
    decreases k,
{
    if k == 0 {
        stream_opening(n)
    } else {
        stream_next(after_sends(n, (k - 1) as nat).0, n, StreamEvent::Sent)
    }
}

/// Replay order: while every send succeeds, the `k`-th action sends kept
/// snapshot `k`, and once all `n` are out the connection waits for live ones.
pub proof fn lemma_replay_in_order(n: nat, k: nat)
    requires
        n <= usize::MAX,
    ensures
        k < n ==> after_sends(n, k) == (
            StreamState::Replaying { next: k as usize },
            StreamAction::SendSnapshot { index: k as usize },
        ),
        k >= n ==> after_sends(n, k) == (StreamState::Live, StreamAction::AwaitLive),
    decreases k,
{
    if k > 0 {
        lemma_replay_in_order(n, (k - 1) as nat);
    }
}

/// A closed connection stays closed whatever happens.
pub proof fn lemma_closed_is_final(n: nat, event: StreamEvent)
    ensures
        stream_next(StreamState::Closed, n, event) == (StreamState::Closed, StreamAction::Stop),
{
}

/// A failed send always closes the connection.
pub proof fn lemma_send_failure_closes(state: StreamState, n: nat)
    ensures
        stream_next(state, n, StreamEvent::SendFailed) == (StreamState::Closed, StreamAction::Stop),
{
}

/// The WebSocket endpoint a dashboard served at `host` over `protocol`
/// connects to: secure when the page itself came over HTTPS.
pub open spec fn socket_url_text(protocol: Seq<char>, host: Seq<char>) -> Seq<char> {
    let scheme = if protocol == seq!['h', 't', 't', 'p', 's', ':'] {
        seq!['w', 's', 's']
    } else {
        seq!['w', 's']
    };
    scheme + seq![':', '/', '/'] + host + seq!['/', 'w', 's']
}

/// The WebSocket address of the server for a page loaded from `host`
/// with the URL scheme `protocol` (as `"https:"`).
pub fn socket_url(protocol: &String, host: &String) -> (url: String)
    ensures
        url@ == socket_url_text(protocol@, host@),
        url@ == (if protocol@ == seq!['h', 't', 't', 'p', 's', ':'] {
            seq!['w', 's', 's']
        } else {
            seq!['w', 's']
        }) + seq![':', '/', '/'] + host@ + seq!['/', 'w', 's'],
        url@.len() >= host@.len() + 3,
        url@.subrange(url@.len() - host@.len() - 3, url@.len() as int) == host@ + seq!['/', 'w', 's'],
{
    proof { reveal_strlit("https:"); }
    let secure = String::from_str("https:");
    assert(secure@ =~= seq!['h', 't', 't', 'p', 's', ':']);
    let mut url = if *protocol == secure {
        proof { reveal_strlit("wss://"); }
        let u = String::from_str("wss://");
        assert(u@ =~= seq!['w', 's', 's', ':', '/', '/']);
        u
    } else {
        proof { reveal_strlit("ws://"); }
        let u = String::from_str("ws://");
        assert(u@ =~= seq!['w', 's', ':', '/', '/']);
        u
    };
    url.append(host.as_str());
    proof { reveal_strlit("/ws"); }
    url.append("/ws");
    proof {
        assert(url@ =~= socket_url_text(protocol@, host@));
        lemma_socket_url_shape(protocol@, host@);
    }
    url
}

/// What the WebSocket address is made of: `wss://` exactly when the page
/// came over `https:` and `ws://` otherwise, then the page's host exactly
/// as given, then `/ws`, and nothing else; in particular it ends with the
/// host followed by `/ws`.
pub proof fn lemma_socket_url_shape(protocol: Seq<char>, host: Seq<char>)
    ensures
        socket_url_text(protocol, host) == (if protocol == seq!['h', 't', 't', 'p', 's', ':'] {
            seq!['w', 's', 's']
        } else {
            seq!['w', 's']
        }) + seq![':', '/', '/'] + host + seq!['/', 'w', 's'],
        socket_url_text(protocol, host).len() == (if protocol == seq!['h', 't', 't', 'p', 's', ':'] {
            6
        } else {
            5int
        }) + host.len() + 3,
        socket_url_text(protocol, host).subrange(
            socket_url_text(protocol, host).len() - host.len() - 3,
            socket_url_text(protocol, host).len() as int,
        ) == host + seq!['/', 'w', 's'],
{
    let u = socket_url_text(protocol, host);
    assert(u.subrange(u.len() - host.len() - 3, u.len() as int) =~= host + seq!['/', 'w', 's']);
}

/// In the live phase every snapshot received is sent on, a completed send
/// waits for the next one and any failure ends the connection, whatever
/// the number of kept snapshots.
pub proof fn lemma_live_forwards_every_snapshot(n: nat, other: nat, event: StreamEvent)
    ensures
        stream_next(StreamState::Live, n, StreamEvent::Received) == (
            StreamState::Live,
            StreamAction::SendLive,
        ),
        stream_next(StreamState::Live, n, StreamEvent::Sent) == (
            StreamState::Live,
            StreamAction::AwaitLive,
        ),
        stream_next(StreamState::Live, n, StreamEvent::ReceiveFailed) == (
            StreamState::Closed,
            StreamAction::Stop,
        ),
        stream_next(StreamState::Live, n, event) == stream_next(StreamState::Live, other, event),
{
}

} // verus!
