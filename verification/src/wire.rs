//! The wire-level data model: peer identities, opaque signaling payloads,
//! and the tagged message envelopes exchanged between a client and the
//! relay. Each executable type has a mathematical view used by contracts.

use vstd::prelude::*;

verus! {

/// The identity of a connected peer: an opaque 128-bit value allocated by
/// the relay when the connection is accepted. It is the sole namespace for
/// routing.
#[derive(Clone, Copy, Debug, PartialEq, Eq, Hash, Structural)]
pub struct PeerId {
    pub value: u128,
}

/// A structured ICE connectivity candidate: the candidate string, an
/// optional media-line identifier and an optional media-line index.
#[derive(Clone, Debug, PartialEq)]
pub struct IceCandidate {
    pub candidate: String,
    pub sdp_mid: Option<String>,
    pub sdp_m_line_index: Option<u16>,
}

/// Mathematical view of an [`IceCandidate`].
pub struct IceCandidateV {
    pub candidate: Seq<char>,
    pub sdp_mid: Option<Seq<char>>,
    pub sdp_m_line_index: Option<u16>,
}

impl View for IceCandidate {
    type V = IceCandidateV;

    open spec fn view(&self) -> IceCandidateV {
        IceCandidateV {
            candidate: self.candidate@,
            sdp_mid: match self.sdp_mid {
                Some(ref s) => Some(s@),
                None => None,
            },
            sdp_m_line_index: self.sdp_m_line_index,
        }
    }
}

/// An opaque signaling payload: a session-description offer or answer, or
/// a newly discovered ICE candidate. The relay transports these without
/// interpreting them.
#[derive(Clone, Debug, PartialEq)]
pub enum Signal {
    Offer { sdp: String },
    Answer { sdp: String },
    NewIceCandidate { candidate: IceCandidate },
}

/// Mathematical view of a [`Signal`].
pub enum SignalV {
    Offer { sdp: Seq<char> },
    Answer { sdp: Seq<char> },
    NewIceCandidate { candidate: IceCandidateV },
}

impl View for Signal {
    type V = SignalV;

    open spec fn view(&self) -> SignalV {
        match self {
            Signal::Offer { sdp } => SignalV::Offer { sdp: sdp@ },
            Signal::Answer { sdp } => SignalV::Answer { sdp: sdp@ },
            Signal::NewIceCandidate { candidate } => SignalV::NewIceCandidate {
                candidate: candidate@,
            },
        }
    }
}

/// A message from the relay to a client: either a signal relayed from
/// another peer, tagged with the true sender, or the current peer list.
#[derive(Clone, Debug, PartialEq)]
pub enum ClientMsg {
    Signal { signal: Signal, sender: PeerId },
    ListPeers { peers: Vec<PeerId> },
}

/// Mathematical view of a [`ClientMsg`].
pub enum ClientMsgV {
    Signal { signal: SignalV, sender: PeerId },
    ListPeers { peers: Seq<PeerId> },
}

impl View for ClientMsg {
    type V = ClientMsgV;

    open spec fn view(&self) -> ClientMsgV {
        match self {
            ClientMsg::Signal { signal, sender } => ClientMsgV::Signal {
                signal: signal@,
                sender: *sender,
            },
            ClientMsg::ListPeers { peers } => ClientMsgV::ListPeers { peers: peers@ },
        }
    }
}

/// A message from a client to the relay: a signal to deliver to a named
/// recipient, or a request for the current peer list.
#[derive(Clone, Debug, PartialEq)]
pub enum ServerMsg {
    Signal { signal: Signal, recipient: PeerId },
    ListPeers,
}

/// Mathematical view of a [`ServerMsg`].
pub enum ServerMsgV {
    Signal { signal: SignalV, recipient: PeerId },
    ListPeers,
}

impl View for ServerMsg {
    type V = ServerMsgV;

    open spec fn view(&self) -> ServerMsgV {
        match self {
            ServerMsg::Signal { signal, recipient } => ServerMsgV::Signal {
                signal: signal@,
                recipient: *recipient,
            },
            ServerMsg::ListPeers => ServerMsgV::ListPeers,
        }
    }
}

/// A bare list of peer identities, as carried by a peer-list reply.
#[derive(Clone, Debug, PartialEq)]
pub struct PeerList {
    pub peers: Vec<PeerId>,
}

impl View for PeerList {
    type V = Seq<PeerId>;

    open spec fn view(&self) -> Seq<PeerId> {
        self.peers@
    }
}

} // verus!
