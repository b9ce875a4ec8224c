use rtc_signaling::negotiation::{
    Controller, EngineCmd, NegotiationError, NegotiationStage,
};
use rtc_signaling::wire::{IceCandidate, PeerId, ServerMsg, Signal};

fn cand(tag: &str) -> IceCandidate {
    IceCandidate {
        candidate: format!("candidate:{} 1 UDP 2122252543 192.0.2.1 54400 typ host", tag),
        sdp_mid: Some("0".to_string()),
        sdp_m_line_index: Some(0),
    }
}

#[test]
fn initiate_then_answer_reaches_connected() {
    let mut ctl = Controller::new();
    let remote = PeerId { value: 11 };

    let cmds = ctl.initiate(remote);
    assert_eq!(
        cmds,
        vec![
            EngineCmd::AttachLocalTracks { remote },
            EngineCmd::CreateOffer { remote },
        ]
    );
    assert_eq!(ctl.stage_of(remote), Some(NegotiationStage::Idle));

    let msg = ctl.offer_created(remote, "offer-sdp".to_string());
    assert_eq!(
        msg,
        Some(ServerMsg::Signal {
            signal: Signal::Offer { sdp: "offer-sdp".to_string() },
            recipient: remote,
        })
    );
    assert_eq!(ctl.stage_of(remote), Some(NegotiationStage::OfferSent));

    let cmds = ctl.handle_answer(remote, "answer-sdp".to_string()).unwrap();
    assert_eq!(
        cmds,
        vec![EngineCmd::SetRemoteAnswer { remote, sdp: "answer-sdp".to_string() }]
    );
    assert_eq!(ctl.stage_of(remote), Some(NegotiationStage::Connected));
}

#[test]
fn unsolicited_answer_is_discarded_and_creates_no_state() {
    let mut ctl = Controller::new();
    let remote = PeerId { value: 9 };
    let r = ctl.handle_answer(remote, "sdp".to_string());
    assert_eq!(r, Err(NegotiationError::UnsolicitedAnswer));
    assert_eq!(ctl.stage_of(remote), None);
}

#[test]
fn answer_in_wrong_stage_is_unsolicited() {
    let mut ctl = Controller::new();
    let remote = PeerId { value: 12 };
    ctl.initiate(remote);
    ctl.offer_created(remote, "offer".to_string());
    ctl.handle_answer(remote, "answer".to_string()).unwrap();
    // a second answer arrives after the pair is connected
    let r = ctl.handle_answer(remote, "again".to_string());
    assert_eq!(r, Err(NegotiationError::UnsolicitedAnswer));
    assert_eq!(ctl.stage_of(remote), Some(NegotiationStage::Connected));
}

#[test]
fn unsolicited_candidate_is_discarded() {
    let mut ctl = Controller::new();
    let remote = PeerId { value: 3 };
    let r = ctl.handle_remote_candidate(remote, cand("stray"));
    assert_eq!(r, Err(NegotiationError::UnsolicitedCandidate));
    assert_eq!(ctl.stage_of(remote), None);
}

#[test]
fn early_candidates_buffered_then_flushed_in_arrival_order() {
    let mut ctl = Controller::new();
    let remote = PeerId { value: 5 };
    ctl.initiate(remote);
    ctl.offer_created(remote, "offer".to_string());

    let first = cand("first");
    let second = cand("second");
    assert_eq!(ctl.handle_remote_candidate(remote, first.clone()), Ok(vec![]));
    assert_eq!(ctl.handle_remote_candidate(remote, second.clone()), Ok(vec![]));
    assert_eq!(ctl.buffered_candidates(remote), 2);

    let cmds = ctl.handle_answer(remote, "answer".to_string()).unwrap();
    assert_eq!(
        cmds,
        vec![
            EngineCmd::SetRemoteAnswer { remote, sdp: "answer".to_string() },
            EngineCmd::AddIceCandidate { remote, candidate: first },
            EngineCmd::AddIceCandidate { remote, candidate: second },
        ]
    );
    assert_eq!(ctl.buffered_candidates(remote), 0);

    // with the remote description set, further candidates pass straight through
    let third = cand("third");
    assert_eq!(
        ctl.handle_remote_candidate(remote, third.clone()),
        Ok(vec![EngineCmd::AddIceCandidate { remote, candidate: third }])
    );
    assert_eq!(ctl.buffered_candidates(remote), 0);
}

#[test]
fn callee_path_answers_incoming_offer() {
    let mut ctl = Controller::new();
    let remote = PeerId { value: 21 };

    let cmds = ctl.handle_offer(remote, "their-offer".to_string());
    assert_eq!(
        cmds,
        vec![
            EngineCmd::AttachLocalTracks { remote },
            EngineCmd::SetRemoteOffer { remote, sdp: "their-offer".to_string() },
            EngineCmd::CreateAnswer { remote },
        ]
    );
    assert_eq!(ctl.stage_of(remote), Some(NegotiationStage::OfferReceived));

    let msg = ctl.answer_created(remote, "my-answer".to_string());
    assert_eq!(
        msg,
        Some(ServerMsg::Signal {
            signal: Signal::Answer { sdp: "my-answer".to_string() },
            recipient: remote,
        })
    );
    assert_eq!(ctl.stage_of(remote), Some(NegotiationStage::AnswerSent));
}

#[test]
fn last_offer_wins_replaces_state_on_glare() {
    let mut ctl = Controller::new();
    let remote = PeerId { value: 8 };
    ctl.initiate(remote);
    ctl.offer_created(remote, "mine".to_string());
    ctl.handle_remote_candidate(remote, cand("early")).unwrap();
    assert_eq!(ctl.buffered_candidates(remote), 1);

    // both sides offered at once; the incoming offer replaces our state
    let cmds = ctl.handle_offer(remote, "theirs".to_string());
    assert_eq!(
        cmds,
        vec![
            EngineCmd::AttachLocalTracks { remote },
            EngineCmd::SetRemoteOffer { remote, sdp: "theirs".to_string() },
            EngineCmd::CreateAnswer { remote },
        ]
    );
    assert_eq!(ctl.stage_of(remote), Some(NegotiationStage::OfferReceived));
    // replaced, not merged: the old buffer is gone
    assert_eq!(ctl.buffered_candidates(remote), 0);

    // an answer to the abandoned offer is now unsolicited
    let r = ctl.handle_answer(remote, "stale".to_string());
    assert_eq!(r, Err(NegotiationError::UnsolicitedAnswer));
}

#[test]
fn stale_engine_completions_are_discarded() {
    let mut ctl = Controller::new();
    let remote = PeerId { value: 30 };

    // an offer completion with no pair at all
    assert_eq!(ctl.offer_created(remote, "ghost".to_string()), None);
    // an answer completion in the wrong stage
    ctl.initiate(remote);
    assert_eq!(ctl.answer_created(remote, "ghost".to_string()), None);
    assert_eq!(ctl.stage_of(remote), Some(NegotiationStage::Idle));

    // a second offer completion after the first went out
    ctl.offer_created(remote, "real".to_string());
    assert_eq!(ctl.offer_created(remote, "late".to_string()), None);
    assert_eq!(ctl.stage_of(remote), Some(NegotiationStage::OfferSent));
}

#[test]
fn handle_signal_dispatches_like_the_dedicated_operations() {
    let mut ctl = Controller::new();
    let peer = PeerId { value: 40 };

    let r = ctl.handle_signal(peer, Signal::Offer { sdp: "o".to_string() });
    assert_eq!(
        r,
        Ok(vec![
            EngineCmd::AttachLocalTracks { remote: peer },
            EngineCmd::SetRemoteOffer { remote: peer, sdp: "o".to_string() },
            EngineCmd::CreateAnswer { remote: peer },
        ])
    );

    let c = cand("relayed");
    let r = ctl.handle_signal(peer, Signal::NewIceCandidate { candidate: c.clone() });
    assert_eq!(r, Ok(vec![EngineCmd::AddIceCandidate { remote: peer, candidate: c }]));

    let r = ctl.handle_signal(PeerId { value: 41 }, Signal::Answer { sdp: "a".to_string() });
    assert_eq!(r, Err(NegotiationError::UnsolicitedAnswer));
}

#[test]
fn local_candidates_are_addressed_to_the_remote() {
    let mut ctl = Controller::new();
    let remote = PeerId { value: 50 };
    let c = cand("local");

    assert_eq!(ctl.local_candidate(remote, c.clone()), None);

    ctl.initiate(remote);
    assert_eq!(
        ctl.local_candidate(remote, c.clone()),
        Some(ServerMsg::Signal {
            signal: Signal::NewIceCandidate { candidate: c },
            recipient: remote,
        })
    );
}

#[test]
fn teardown_drops_only_that_pair() {
    let mut ctl = Controller::new();
    let one = PeerId { value: 61 };
    let two = PeerId { value: 62 };
    ctl.initiate(one);
    ctl.initiate(two);

    ctl.teardown(one);
    assert_eq!(ctl.stage_of(one), None);
    assert_eq!(ctl.stage_of(two), Some(NegotiationStage::Idle));

    // tearing down an absent pair is a no-op
    ctl.teardown(one);
    assert_eq!(ctl.stage_of(two), Some(NegotiationStage::Idle));
}
