//! One relay session per physical connection: it registers the peer in
//! the shared registry, turns each inbound frame into registry
//! operations (peer-list replies and signal routing), and deregisters
//! before the session's delivery consumer terminates. Routing to an
//! absent peer is a defined failure that leaves every other session
//! untouched and the sender's session open.

use vstd::prelude::*;

use crate::registry::Registry;
use crate::wire::{ClientMsg, ClientMsgV, PeerId, ServerMsg, ServerMsgV, Signal, SignalV};

verus! {

/// Where a session stands in its life cycle. A session deregisters on
/// entering `Closing`, before its delivery consumer stops, so no message
/// is routed to a half-closed session; `Closed` means all session
/// resources may be released.
#[derive(Clone, Copy, Debug, PartialEq, Eq, Structural)]
pub enum SessionPhase {
    Connecting,
    Registered,
    Closing,
    Closed,
}

/// The relay-side failure taxonomy. A malformed frame is dropped and the
/// connection kept; an unknown recipient drops the signal silently; a
/// transport error or close frame terminates the session.
#[derive(Clone, Copy, Debug, PartialEq, Eq, Structural)]
pub enum RelayError {
    MalformedMessage,
    UnknownRecipient,
    TransportClosed,
}

/// One input to a registered session: a decoded frame, an undecodable
/// frame, a clean close request, or a transport read error.
pub enum SessionEvent {
    Frame(ServerMsg),
    Malformed,
    CloseRequested,
    TransportError,
}

/// What routing does to the registry view: on a hit, the relayed signal
/// is appended to the recipient's queue, stamped with the true sender;
/// on a miss, nothing changes.
pub open spec fn spec_route(
    m: Map<PeerId, Seq<ClientMsgV>>,
    sender: PeerId,
    recipient: PeerId,
    signal: SignalV,
) -> Map<PeerId, Seq<ClientMsgV>> {
    if m.contains_key(recipient) {
        m.insert(recipient, m[recipient].push(ClientMsgV::Signal { signal, sender }))
    } else {
        m
    }
}

/// A correct peer-list payload for `me`: every registered peer except
/// `me` itself, each exactly once.
pub open spec fn is_peer_snapshot(
    ps: Seq<PeerId>,
    m: Map<PeerId, Seq<ClientMsgV>>,
    me: PeerId,
) -> bool {
    &&& ps.no_duplicates()
    &&& forall|p: PeerId| #[trigger] ps.contains(p) <==> (m.contains_key(p) && p != me)
}

/// Deliver a signal to `recipient`, stamped with `sender`'s identity.
/// The signal lands on the recipient's queue, payload intact, exactly
/// when the recipient is registered at the moment of routing; otherwise
/// the result is `UnknownRecipient` and the registry is untouched.
pub fn route(
    reg: &mut Registry,
    sender: PeerId,
    recipient: PeerId,
    signal: Signal,
) -> (r: Result<(), RelayError>)
    requires
        old(reg).wf(),
    ensures
        final(reg).wf(),
        final(reg)@ == spec_route(old(reg)@, sender, recipient, signal@),
        r is Ok <==> old(reg)@.contains_key(recipient),
        r matches Err(e) ==> e is UnknownRecipient,
{
    let msg = ClientMsg::Signal { signal, sender };
    if reg.enqueue(recipient, msg) {
        Ok(())
    } else {
        Err(RelayError::UnknownRecipient)
    }
}

/// Law: routing to an absent or already-departed recipient has no
/// observable effect on any queue.
pub proof fn lemma_route_to_absent_is_silent(
    m: Map<PeerId, Seq<ClientMsgV>>,
    sender: PeerId,
    recipient: PeerId,
    signal: SignalV,
)
    requires
        !m.contains_key(recipient),
    ensures
        spec_route(m, sender, recipient, signal) == m,
{
}

/// Law: routing touches no session other than the recipient: every other
/// peer keeps its registration and its queue, and no peer appears or
/// disappears.
pub proof fn lemma_route_touches_only_recipient(
    m: Map<PeerId, Seq<ClientMsgV>>,
    sender: PeerId,
    recipient: PeerId,
    signal: SignalV,
    other: PeerId,
)
    requires
        other != recipient,
    ensures
        spec_route(m, sender, recipient, signal).contains_key(other) == m.contains_key(other),
        m.contains_key(other) ==> spec_route(m, sender, recipient, signal)[other] == m[other],
        spec_route(m, sender, recipient, signal).dom() =~= m.dom(),
{
}

/// One relay session: the bridge between a physical connection and the
/// shared registry.
pub struct Session {
    id: Option<PeerId>,
    phase: SessionPhase,
}

impl Session {
    /// Well-formed: a session has an identity exactly once it has moved
    /// past the connecting phase.
    pub closed spec fn wf(&self) -> bool {
        self.phase is Connecting <==> self.id is None
    }

    /// The session's life-cycle phase.
    pub closed spec fn lifecycle(&self) -> SessionPhase {
        self.phase
    }

    /// The identity the registry assigned to this session, once any.
    pub closed spec fn peer(&self) -> Option<PeerId> {
        self.id
    }

    /// A session for a freshly accepted connection, not yet registered.
    pub fn connect() -> (s: Session)
        ensures
            s.wf(),
            s.lifecycle() is Connecting,
            s.peer() is None,
    {
        Session { id: None, phase: SessionPhase::Connecting }
    }

    /// Read the current phase.
    pub fn current_phase(&self) -> (p: SessionPhase)
        ensures
            p == self.lifecycle(),
    {
        self.phase
    }

    /// Read the assigned identity, if registration has happened.
    pub fn peer_id(&self) -> (r: Option<PeerId>)
        ensures
            r == self.peer(),
    {
        self.id
    }

    /// Enter the registry under a fresh identity and become `Registered`.
    pub fn register_with(&mut self, reg: &mut Registry)
        requires
            old(self).wf(),
            old(self).lifecycle() is Connecting,
            old(reg).wf(),
        ensures
            final(self).wf(),
            final(reg).wf(),
            final(self).lifecycle() is Registered,
            final(self).peer() matches Some(id) && !old(reg)@.contains_key(id) && final(reg)@
                == old(reg)@.insert(id, Seq::<ClientMsgV>::empty()),
    {
        let id = reg.register();
        self.id = Some(id);
        self.phase = SessionPhase::Registered;
    }

    /// Deregister from the registry and enter `Closing`. From this point
    /// no further message can be routed to this session.
    pub fn begin_close(&mut self, reg: &mut Registry)
        requires
            old(self).wf(),
            old(self).lifecycle() is Registered,
            old(reg).wf(),
        ensures
            final(self).wf(),
            final(reg).wf(),
            final(self).lifecycle() is Closing,
            final(self).peer() == old(self).peer(),
            final(reg)@ == old(reg)@.remove(old(self).peer().unwrap()),
    {
        reg.unregister(self.id.unwrap());
        self.phase = SessionPhase::Closing;
    }

    /// Release the session once its delivery consumer has stopped.
    pub fn finish_close(&mut self)
        requires
            old(self).wf(),
            old(self).lifecycle() is Closing,
        ensures
            final(self).wf(),
            final(self).lifecycle() is Closed,
            final(self).peer() == old(self).peer(),
    {
        self.phase = SessionPhase::Closed;
    }

    /// Handle one event on a registered session.
    ///
    /// A peer-list request appends the reply, listing every peer but
    /// this one, to this session's own queue. A signal frame is routed
    /// to its recipient; an unknown recipient is reported but leaves the
    /// session open and everything else unchanged. A malformed frame is
    /// dropped, keeping the connection. A close request or transport
    /// error deregisters the session and moves it to `Closing`.
    pub fn step(&mut self, reg: &mut Registry, ev: SessionEvent) -> (r: Result<(), RelayError>)
        requires
            old(self).wf(),
            old(self).lifecycle() is Registered,
            old(reg).wf(),
            old(reg)@.contains_key(old(self).peer().unwrap()),
        ensures
            final(self).wf(),
            final(reg).wf(),
            final(self).peer() == old(self).peer(),
            ev matches SessionEvent::Frame(m) && m is ListPeers ==> {
                &&& r is Ok
                &&& final(self).lifecycle() is Registered
                &&& exists|ps: Seq<PeerId>|
                    #[trigger] is_peer_snapshot(ps, old(reg)@, old(self).peer().unwrap())
                        && final(reg)@ == old(reg)@.insert(
                        old(self).peer().unwrap(),
                        old(reg)@[old(self).peer().unwrap()].push(
                            ClientMsgV::ListPeers { peers: ps },
                        ),
                    )
            },
            ev matches SessionEvent::Frame(m) ==> (m matches ServerMsg::Signal {
                signal,
                recipient,
            } ==> {
                &&& final(self).lifecycle() is Registered
                &&& final(reg)@ == spec_route(
                    old(reg)@,
                    old(self).peer().unwrap(),
                    recipient,
                    signal@,
                )
                &&& (r is Ok <==> old(reg)@.contains_key(recipient))
                &&& (r matches Err(e) ==> e is UnknownRecipient)
            }),
            ev is Malformed ==> {
                &&& final(self).lifecycle() is Registered
                &&& final(reg)@ == old(reg)@
                &&& r matches Err(e) && e is MalformedMessage
            },
            (ev is CloseRequested || ev is TransportError) ==> {
                &&& final(self).lifecycle() is Closing
                &&& final(reg)@ == old(reg)@.remove(old(self).peer().unwrap())
                &&& r matches Err(e) && e is TransportClosed
            },
    {
        let me = self.id.unwrap();
        match ev {
            SessionEvent::Frame(ServerMsg::ListPeers) => {
                let peers = reg.snapshot(Some(me));
                let ghost ps = peers@;
                let _delivered = reg.enqueue(me, ClientMsg::ListPeers { peers });
                proof {
                    assert(is_peer_snapshot(ps, old(reg)@, me));
                }
                Ok(())
            },
            SessionEvent::Frame(ServerMsg::Signal { signal, recipient }) => {
                route(reg, me, recipient, signal)
            },
            SessionEvent::Malformed => Err(RelayError::MalformedMessage),
            SessionEvent::CloseRequested => {
                self.begin_close(reg);
                Err(RelayError::TransportClosed)
            },
            SessionEvent::TransportError => {
                self.begin_close(reg);
                Err(RelayError::TransportClosed)
            },
        }
    }
}

} // verus!
