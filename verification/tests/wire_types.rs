use rtc_signaling::wire::{ClientMsg, IceCandidate, PeerId, PeerList, ServerMsg, Signal};

#[test]
fn it_works() {
    assert_eq!(2 + 2, 4);
}

#[test]
fn wire_values_compare_by_content() {
    let cand = IceCandidate {
        candidate: "candidate:1 1 UDP 2122252543 192.0.2.1 54400 typ host".to_string(),
        sdp_mid: Some("0".to_string()),
        sdp_m_line_index: Some(0),
    };
    let a = Signal::NewIceCandidate { candidate: cand.clone() };
    let b = Signal::NewIceCandidate { candidate: cand.clone() };
    assert_eq!(a, b);
    assert_ne!(
        Signal::Offer { sdp: "x".to_string() },
        Signal::Answer { sdp: "x".to_string() }
    );

    let sender = PeerId { value: 7 };
    let msg = ClientMsg::Signal { signal: a.clone(), sender };
    assert_eq!(msg, ClientMsg::Signal { signal: b, sender });

    let list = PeerList { peers: vec![PeerId { value: 1 }, PeerId { value: 2 }] };
    assert_eq!(list.clone(), list);

    let request = ServerMsg::Signal { signal: a, recipient: PeerId { value: 2 } };
    assert_ne!(request, ServerMsg::ListPeers);
}
