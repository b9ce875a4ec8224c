use rtc_signaling::negotiation::{Controller, NegotiationStage};
use rtc_signaling::registry::Registry;
use rtc_signaling::session::{route, RelayError, Session, SessionEvent, SessionPhase};
use rtc_signaling::wire::{ClientMsg, IceCandidate, PeerId, ServerMsg, Signal};

fn unused_id(reg: &Registry) -> PeerId {
    let mut candidate = PeerId { value: 1 };
    while reg.contains(candidate) {
        candidate = PeerId { value: candidate.value + 1 };
    }
    candidate
}

fn sorted_values(peers: &[PeerId]) -> Vec<u128> {
    let mut values: Vec<u128> = peers.iter().map(|p| p.value).collect();
    values.sort();
    values
}

#[test]
fn register_allocates_distinct_live_ids() {
    let mut reg = Registry::new();
    let a = reg.register();
    let b = reg.register();
    assert_ne!(a, b);
    assert!(reg.contains(a));
    assert!(reg.contains(b));
}

#[test]
fn snapshot_tracks_connects_and_disconnects() {
    let mut reg = Registry::new();
    assert!(reg.snapshot(None).is_empty());

    let a = reg.register();
    let b = reg.register();
    let c = reg.register();
    let mut expected = sorted_values(&[a, b, c]);
    assert_eq!(sorted_values(&reg.snapshot(None)), expected);

    reg.unregister(b);
    expected = sorted_values(&[a, c]);
    assert_eq!(sorted_values(&reg.snapshot(None)), expected);

    let excluding_a = reg.snapshot(Some(a));
    assert_eq!(sorted_values(&excluding_a), sorted_values(&[c]));
}

#[test]
fn unregister_is_idempotent() {
    let mut reg = Registry::new();
    let a = reg.register();
    let b = reg.register();

    reg.unregister(a);
    assert!(!reg.contains(a));
    reg.unregister(a);
    assert!(!reg.contains(a));
    assert!(reg.contains(b));
    assert_eq!(sorted_values(&reg.snapshot(None)), sorted_values(&[b]));
}

#[test]
fn signal_delivered_with_true_sender_and_payload() {
    let mut reg = Registry::new();
    let a = reg.register();
    let b = reg.register();

    let cand = IceCandidate {
        candidate: "candidate:1 1 UDP 2122252543 192.0.2.1 54400 typ host".to_string(),
        sdp_mid: Some("0".to_string()),
        sdp_m_line_index: Some(0),
    };
    let r = route(&mut reg, a, b, Signal::NewIceCandidate { candidate: cand.clone() });
    assert!(r.is_ok());
    assert_eq!(
        reg.pop_outbound(b),
        Some(ClientMsg::Signal {
            signal: Signal::NewIceCandidate { candidate: cand },
            sender: a,
        })
    );
    assert_eq!(reg.pop_outbound(b), None);

    reg.unregister(b);
    let r = route(&mut reg, a, b, Signal::Offer { sdp: "late".to_string() });
    assert_eq!(r, Err(RelayError::UnknownRecipient));
}

#[test]
fn routing_to_unknown_id_affects_no_other_session() {
    let mut reg = Registry::new();
    let a = reg.register();
    let b = reg.register();
    route(&mut reg, a, b, Signal::Offer { sdp: "kept".to_string() }).unwrap();

    let ghost_peer = unused_id(&reg);
    let r = route(&mut reg, a, ghost_peer, Signal::Offer { sdp: "lost".to_string() });
    assert_eq!(r, Err(RelayError::UnknownRecipient));

    // b's pending delivery and everyone's registration are untouched
    assert!(reg.contains(a));
    assert!(reg.contains(b));
    assert_eq!(
        reg.pop_outbound(b),
        Some(ClientMsg::Signal { signal: Signal::Offer { sdp: "kept".to_string() }, sender: a })
    );
}

#[test]
fn session_lifecycle_runs_connecting_to_closed() {
    let mut reg = Registry::new();
    let mut session = Session::connect();
    assert_eq!(session.current_phase(), SessionPhase::Connecting);
    assert_eq!(session.peer_id(), None);

    session.register_with(&mut reg);
    assert_eq!(session.current_phase(), SessionPhase::Registered);
    let id = session.peer_id().expect("registered session has an id");
    assert!(reg.contains(id));

    let r = session.step(&mut reg, SessionEvent::CloseRequested);
    assert_eq!(r, Err(RelayError::TransportClosed));
    assert_eq!(session.current_phase(), SessionPhase::Closing);
    assert!(!reg.contains(id));

    session.finish_close();
    assert_eq!(session.current_phase(), SessionPhase::Closed);
}

#[test]
fn transport_error_deregisters_session() {
    let mut reg = Registry::new();
    let mut session = Session::connect();
    session.register_with(&mut reg);
    let id = session.peer_id().unwrap();

    let r = session.step(&mut reg, SessionEvent::TransportError);
    assert_eq!(r, Err(RelayError::TransportClosed));
    assert_eq!(session.current_phase(), SessionPhase::Closing);
    assert!(!reg.contains(id));
}

#[test]
fn malformed_frame_is_dropped_and_connection_kept() {
    let mut reg = Registry::new();
    let mut session = Session::connect();
    session.register_with(&mut reg);
    let id = session.peer_id().unwrap();

    let r = session.step(&mut reg, SessionEvent::Malformed);
    assert_eq!(r, Err(RelayError::MalformedMessage));
    assert_eq!(session.current_phase(), SessionPhase::Registered);
    assert!(reg.contains(id));
    assert_eq!(reg.pop_outbound(id), None);
}

#[test]
fn scenario_unknown_recipient_keeps_sender_session_usable() {
    let mut reg = Registry::new();
    let mut sa = Session::connect();
    sa.register_with(&mut reg);
    let a = sa.peer_id().unwrap();

    let ghost_peer = unused_id(&reg);
    let r = sa.step(
        &mut reg,
        SessionEvent::Frame(ServerMsg::Signal {
            signal: Signal::Offer { sdp: "nobody-home".to_string() },
            recipient: ghost_peer,
        }),
    );
    assert_eq!(r, Err(RelayError::UnknownRecipient));
    assert_eq!(sa.current_phase(), SessionPhase::Registered);

    // the session still serves requests afterwards
    let r = sa.step(&mut reg, SessionEvent::Frame(ServerMsg::ListPeers));
    assert!(r.is_ok());
    assert_eq!(reg.pop_outbound(a), Some(ClientMsg::ListPeers { peers: vec![] }));
}

#[test]
fn scenario_two_peers_list_and_signal() {
    let mut reg = Registry::new();
    let mut sa = Session::connect();
    sa.register_with(&mut reg);
    let a = sa.peer_id().unwrap();
    let mut sb = Session::connect();
    sb.register_with(&mut reg);
    let b = sb.peer_id().unwrap();

    // A requests the peer list and receives exactly {peers: [B]}
    let r = sa.step(&mut reg, SessionEvent::Frame(ServerMsg::ListPeers));
    assert!(r.is_ok());
    assert_eq!(reg.pop_outbound(a), Some(ClientMsg::ListPeers { peers: vec![b] }));

    // A sends an offer addressed to B; B receives it tagged with sender A
    let r = sa.step(
        &mut reg,
        SessionEvent::Frame(ServerMsg::Signal {
            signal: Signal::Offer { sdp: "offer-sdp".to_string() },
            recipient: b,
        }),
    );
    assert!(r.is_ok());
    assert_eq!(
        reg.pop_outbound(b),
        Some(ClientMsg::Signal { signal: Signal::Offer { sdp: "offer-sdp".to_string() }, sender: a })
    );

    // B replies with an answer addressed to A
    let r = sb.step(
        &mut reg,
        SessionEvent::Frame(ServerMsg::Signal {
            signal: Signal::Answer { sdp: "answer-sdp".to_string() },
            recipient: a,
        }),
    );
    assert!(r.is_ok());
    assert_eq!(
        reg.pop_outbound(a),
        Some(ClientMsg::Signal {
            signal: Signal::Answer { sdp: "answer-sdp".to_string() },
            sender: b,
        })
    );
}

#[test]
fn scenario_full_exchange_connects_both_controllers() {
    let mut reg = Registry::new();
    let mut sa = Session::connect();
    sa.register_with(&mut reg);
    let a = sa.peer_id().unwrap();
    let mut sb = Session::connect();
    sb.register_with(&mut reg);
    let b = sb.peer_id().unwrap();

    let mut ctl_a = Controller::new();
    let mut ctl_b = Controller::new();

    // A initiates towards B and sends the engine's offer through the relay
    ctl_a.initiate(b);
    let outgoing = ctl_a.offer_created(b, "sdp-from-a".to_string()).unwrap();
    assert_eq!(ctl_a.stage_of(b), Some(NegotiationStage::OfferSent));
    sa.step(&mut reg, SessionEvent::Frame(outgoing)).unwrap();

    // B receives the relayed offer, tagged with A, and answers
    let delivered = reg.pop_outbound(b).expect("offer relayed to B");
    match delivered {
        ClientMsg::Signal { signal, sender } => {
            assert_eq!(sender, a);
            ctl_b.handle_signal(sender, signal).unwrap();
        }
        other => panic!("unexpected delivery: {:?}", other),
    }
    assert_eq!(ctl_b.stage_of(a), Some(NegotiationStage::OfferReceived));
    let reply = ctl_b.answer_created(a, "sdp-from-b".to_string()).unwrap();
    assert_eq!(ctl_b.stage_of(a), Some(NegotiationStage::AnswerSent));
    sb.step(&mut reg, SessionEvent::Frame(reply)).unwrap();

    // A receives the relayed answer and transitions OfferSent -> Connected
    let delivered = reg.pop_outbound(a).expect("answer relayed to A");
    match delivered {
        ClientMsg::Signal { signal, sender } => {
            assert_eq!(sender, b);
            ctl_a.handle_signal(sender, signal).unwrap();
        }
        other => panic!("unexpected delivery: {:?}", other),
    }
    assert_eq!(ctl_a.stage_of(b), Some(NegotiationStage::Connected));
}

#[test]
fn lookup_exposes_pending_queue_without_error_on_miss() {
    let mut reg = Registry::new();
    let a = reg.register();
    let b = reg.register();
    assert!(reg.lookup(unused_id(&reg)).is_none());
    assert_eq!(reg.lookup(b).map(|q| q.len()), Some(0));

    route(&mut reg, a, b, Signal::Offer { sdp: "o".to_string() }).unwrap();
    assert_eq!(reg.lookup(b).map(|q| q.len()), Some(1));
    assert_eq!(reg.lookup(a).map(|q| q.len()), Some(0));
}
