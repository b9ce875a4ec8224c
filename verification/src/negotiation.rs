//! The client-side negotiation controller: one state machine per remote
//! peer, driving the local media engine through the offer/answer/ICE
//! exchange. The engine itself (an external real-time media stack) is
//! commanded through [`EngineCmd`] values and reports completions back
//! as calls; candidates that arrive before the remote description is
//! set are buffered and flushed in arrival order the moment it lands.

use vstd::prelude::*;

use crate::pairmap::{
    distinct_keys, lemma_map_of_contains, lemma_map_of_index, lemma_map_of_push,
    lemma_map_of_remove, lemma_map_of_update, lemma_remove_insert_is_update, map_of,
};
use crate::wire::{IceCandidate, IceCandidateV, PeerId, ServerMsg, ServerMsgV, Signal, SignalV};

verus! {

/// Where a negotiation with one remote peer stands. `Idle` has asked the
/// engine for an offer that has not gone out yet; `OfferSent` awaits the
/// remote answer; `OfferReceived` has applied a remote offer and awaits
/// the engine's answer; `AnswerSent` is the callee's terminal stage;
/// `Connected` is the caller's.
#[derive(Clone, Copy, Debug, PartialEq, Eq, Structural)]
pub enum NegotiationStage {
    Idle,
    OfferSent,
    OfferReceived,
    AnswerSent,
    Connected,
}

/// A signal that refers to a negotiation this controller does not have.
#[derive(Clone, Copy, Debug, PartialEq, Eq, Structural)]
pub enum NegotiationError {
    UnsolicitedAnswer,
    UnsolicitedCandidate,
}

/// One command for the local media engine.
#[derive(Clone, Debug, PartialEq)]
pub enum EngineCmd {
    AttachLocalTracks { remote: PeerId },
    CreateOffer { remote: PeerId },
    SetRemoteOffer { remote: PeerId, sdp: String },
    CreateAnswer { remote: PeerId },
    SetRemoteAnswer { remote: PeerId, sdp: String },
    AddIceCandidate { remote: PeerId, candidate: IceCandidate },
}

/// Mathematical view of an [`EngineCmd`].
pub enum EngineCmdV {
    AttachLocalTracks { remote: PeerId },
    CreateOffer { remote: PeerId },
    SetRemoteOffer { remote: PeerId, sdp: Seq<char> },
    CreateAnswer { remote: PeerId },
    SetRemoteAnswer { remote: PeerId, sdp: Seq<char> },
    AddIceCandidate { remote: PeerId, candidate: IceCandidateV },
}

impl View for EngineCmd {
    type V = EngineCmdV;

    open spec fn view(&self) -> EngineCmdV {
        match self {
            EngineCmd::AttachLocalTracks { remote } => EngineCmdV::AttachLocalTracks {
                remote: *remote,
            },
            EngineCmd::CreateOffer { remote } => EngineCmdV::CreateOffer { remote: *remote },
            EngineCmd::SetRemoteOffer { remote, sdp } => EngineCmdV::SetRemoteOffer {
                remote: *remote,
                sdp: sdp@,
            },
            EngineCmd::CreateAnswer { remote } => EngineCmdV::CreateAnswer { remote: *remote },
            EngineCmd::SetRemoteAnswer { remote, sdp } => EngineCmdV::SetRemoteAnswer {
                remote: *remote,
                sdp: sdp@,
            },
            EngineCmd::AddIceCandidate { remote, candidate } => EngineCmdV::AddIceCandidate {
                remote: *remote,
                candidate: candidate@,
            },
        }
    }
}

/// The view of a command list.
pub open spec fn cmd_views(s: Seq<EngineCmd>) -> Seq<EngineCmdV> {
    s.map_values(|c: EngineCmd| c@)
}

/// The view of a candidate buffer.
pub open spec fn cands_view(s: Seq<IceCandidate>) -> Seq<IceCandidateV> {
    s.map_values(|c: IceCandidate| c@)
}

/// The state this controller keeps for one remote peer: the stage of
/// the exchange and the candidates waiting for the remote description.
pub struct PairState {
    pub stage: NegotiationStage,
    pub pending: Vec<IceCandidate>,
}

/// Mathematical view of a [`PairState`].
pub struct PairStateV {
    pub stage: NegotiationStage,
    pub pending: Seq<IceCandidateV>,
}

impl View for PairState {
    type V = PairStateV;

    open spec fn view(&self) -> PairStateV {
        PairStateV { stage: self.stage, pending: cands_view(self.pending@) }
    }
}

/// Whether a stage has the remote description applied; from then on
/// candidates go straight to the engine instead of the buffer.
pub open spec fn remote_description_set(stage: NegotiationStage) -> bool {
    stage is OfferReceived || stage is AnswerSent || stage is Connected
}

/// What initiating does to the state map: the pair (created fresh if
/// absent) asks the engine for a new offer; an existing buffer is kept.
pub open spec fn spec_initiate(m: Map<PeerId, PairStateV>, remote: PeerId) -> Map<
    PeerId,
    PairStateV,
> {
    if m.contains_key(remote) {
        m.insert(remote, PairStateV { stage: NegotiationStage::Idle, pending: m[remote].pending })
    } else {
        m.insert(remote, PairStateV { stage: NegotiationStage::Idle, pending: Seq::empty() })
    }
}

/// What an engine offer completion does: only a pair still waiting in
/// `Idle` moves to `OfferSent`; a stale completion changes nothing.
pub open spec fn spec_offer_created(m: Map<PeerId, PairStateV>, remote: PeerId) -> Map<
    PeerId,
    PairStateV,
> {
    if m.contains_key(remote) && m[remote].stage is Idle {
        m.insert(
            remote,
            PairStateV { stage: NegotiationStage::OfferSent, pending: m[remote].pending },
        )
    } else {
        m
    }
}

/// What a remote offer does: last offer wins. Whatever state existed for
/// the pair is replaced, not merged, and the buffer starts empty.
pub open spec fn spec_handle_offer(m: Map<PeerId, PairStateV>, remote: PeerId) -> Map<
    PeerId,
    PairStateV,
> {
    m.insert(remote, PairStateV { stage: NegotiationStage::OfferReceived, pending: Seq::empty() })
}

/// What an engine answer completion does: only a pair in
/// `OfferReceived` moves to `AnswerSent`; a stale completion changes
/// nothing.
pub open spec fn spec_answer_created(m: Map<PeerId, PairStateV>, remote: PeerId) -> Map<
    PeerId,
    PairStateV,
> {
    if m.contains_key(remote) && m[remote].stage is OfferReceived {
        m.insert(
            remote,
            PairStateV { stage: NegotiationStage::AnswerSent, pending: m[remote].pending },
        )
    } else {
        m
    }
}

/// What a remote answer does to the state map: valid only from
/// `OfferSent`, where the pair becomes `Connected` and its buffer is
/// emptied by the flush; anything else is unsolicited and changes
/// nothing.
pub open spec fn spec_handle_answer(m: Map<PeerId, PairStateV>, remote: PeerId) -> Map<
    PeerId,
    PairStateV,
> {
    if m.contains_key(remote) && m[remote].stage is OfferSent {
        m.insert(remote, PairStateV { stage: NegotiationStage::Connected, pending: Seq::empty() })
    } else {
        m
    }
}

/// The engine commands a valid remote answer produces: apply the answer
/// as the remote description, then hand over every buffered candidate,
/// in arrival order, each exactly once.
pub open spec fn spec_answer_flush(
    m: Map<PeerId, PairStateV>,
    remote: PeerId,
    sdp: Seq<char>,
) -> Seq<EngineCmdV> {
    seq![EngineCmdV::SetRemoteAnswer { remote, sdp }] + m[remote].pending.map_values(
        |c: IceCandidateV| EngineCmdV::AddIceCandidate { remote, candidate: c },
    )
}

/// What a remote candidate does to the state map: with no pair it is
/// unsolicited; with the remote description set it is forwarded and the
/// state is unchanged; otherwise it joins the back of the buffer.
pub open spec fn spec_handle_candidate(
    m: Map<PeerId, PairStateV>,
    remote: PeerId,
    c: IceCandidateV,
) -> Map<PeerId, PairStateV> {
    if !m.contains_key(remote) {
        m
    } else if remote_description_set(m[remote].stage) {
        m
    } else {
        m.insert(remote, PairStateV { stage: m[remote].stage, pending: m[remote].pending.push(c) })
    }
}

/// What one relayed signal from `sender` does to the state map.
pub open spec fn spec_handle_signal(
    m: Map<PeerId, PairStateV>,
    sender: PeerId,
    sig: SignalV,
) -> Map<PeerId, PairStateV> {
    match sig {
        SignalV::Offer { sdp: _ } => spec_handle_offer(m, sender),
        SignalV::Answer { sdp: _ } => spec_handle_answer(m, sender),
        SignalV::NewIceCandidate { candidate } => spec_handle_candidate(m, sender, candidate),
    }
}

/// The view of the controller's pair sequence.
pub open spec fn pair_views(s: Seq<(PeerId, PairState)>) -> Seq<(PeerId, PairStateV)> {
    s.map_values(|e: (PeerId, PairState)| (e.0, e.1@))
}

proof fn lemma_pair_views_basic(s: Seq<(PeerId, PairState)>)
    ensures
        pair_views(s).len() == s.len(),
        forall|i: int|
            0 <= i < s.len() ==> (#[trigger] pair_views(s)[i]) == ((s[i]).0, (s[i]).1@),
{
}

proof fn lemma_pair_views_distinct(s: Seq<(PeerId, PairState)>)
    requires
        distinct_keys(s),
    ensures
        distinct_keys(pair_views(s)),
{
    lemma_pair_views_basic(s);
    assert forall|i: int, j: int|
        0 <= i < j < pair_views(s).len() implies (#[trigger] pair_views(s)[i]).0
        != (#[trigger] pair_views(s)[j]).0 by {
        assert((s[i]).0 != (s[j]).0);
    }
}

proof fn lemma_pair_views_push(s: Seq<(PeerId, PairState)>, e: (PeerId, PairState))
    ensures
        pair_views(s.push(e)) == pair_views(s).push((e.0, e.1@)),
{
    lemma_pair_views_basic(s);
    lemma_pair_views_basic(s.push(e));
    assert(pair_views(s.push(e)) =~= pair_views(s).push((e.0, e.1@)));
}

proof fn lemma_pair_views_update(s: Seq<(PeerId, PairState)>, i: int, e: (PeerId, PairState))
    requires
        0 <= i < s.len(),
    ensures
        pair_views(s.update(i, e)) == pair_views(s).update(i, (e.0, e.1@)),
{
    lemma_pair_views_basic(s);
    lemma_pair_views_basic(s.update(i, e));
    assert(pair_views(s.update(i, e)) =~= pair_views(s).update(i, (e.0, e.1@)));
}

proof fn lemma_pair_views_remove(s: Seq<(PeerId, PairState)>, i: int)
    requires
        0 <= i < s.len(),
    ensures
        pair_views(s.remove(i)) == pair_views(s).remove(i),
{
    lemma_pair_views_basic(s);
    lemma_pair_views_basic(s.remove(i));
    assert(pair_views(s.remove(i)) =~= pair_views(s).remove(i)) by {
        assert forall|j: int| 0 <= j < s.remove(i).len() implies pair_views(s.remove(i))[j]
            == pair_views(s).remove(i)[j] by {
            if j < i {
                assert(s.remove(i)[j] == s[j]);
            } else {
                assert(s.remove(i)[j] == s[j + 1]);
            }
        }
    }
}

/// With distinct keys, the entry at `i` is the view's binding of its key.
proof fn lemma_pair_at(s: Seq<(PeerId, PairState)>, i: int)
    requires
        distinct_keys(s),
        0 <= i < s.len(),
    ensures
        map_of(pair_views(s)).contains_key((s[i]).0),
        map_of(pair_views(s))[(s[i]).0] == (s[i]).1@,
{
    lemma_pair_views_basic(s);
    lemma_pair_views_distinct(s);
    lemma_map_of_index(pair_views(s));
    assert(pair_views(s)[i] == ((s[i]).0, (s[i]).1@));
}

/// A key no entry carries is not in the view.
proof fn lemma_pair_absent(s: Seq<(PeerId, PairState)>, p: PeerId)
    requires
        forall|i: int| 0 <= i < s.len() ==> (#[trigger] s[i]).0 != p,
    ensures
        !map_of(pair_views(s)).contains_key(p),
{
    lemma_pair_views_basic(s);
    lemma_map_of_contains(pair_views(s));
    if map_of(pair_views(s)).contains_key(p) {
        let i = choose|i: int|
            0 <= i < pair_views(s).len() && (#[trigger] pair_views(s)[i]).0 == p;
        assert(pair_views(s)[i] == ((s[i]).0, (s[i]).1@));
        assert(false);
    }
}

proof fn lemma_cands_view_push(s: Seq<IceCandidate>, c: IceCandidate)
    ensures
        cands_view(s.push(c)) == cands_view(s).push(c@),
{
    assert(cands_view(s.push(c)) =~= cands_view(s).push(c@));
}

/// The negotiation controller of one local endpoint: the states of all
/// its pairwise negotiations, keyed by the remote peer, exactly one per
/// remote.
pub struct Controller {
    pairs: Vec<(PeerId, PairState)>,
}

impl View for Controller {
    type V = Map<PeerId, PairStateV>;

    closed spec fn view(&self) -> Map<PeerId, PairStateV> {
        map_of(pair_views(self.pairs@))
    }
}

impl Controller {
    /// Well-formed: no remote peer has two negotiation states.
    pub closed spec fn wf(&self) -> bool {
        distinct_keys(self.pairs@)
    }

    /// A controller with no negotiations underway.
    pub fn new() -> (r: Controller)
        ensures
            r.wf(),
            r@ == Map::<PeerId, PairStateV>::empty(),
    {
        let r = Controller { pairs: Vec::new() };
        proof {
            assert(pair_views(r.pairs@) =~= Seq::<(PeerId, PairStateV)>::empty());
        }
        r
    }

    fn find_index(&self, remote: PeerId) -> (r: Option<usize>)
        ensures
            match r {
                Some(i) => i < self.pairs@.len() && (self.pairs@[i as int]).0 == remote,
                None => forall|i: int|
                    0 <= i < self.pairs@.len() ==> (#[trigger] self.pairs@[i]).0 != remote,
            },
    {
        let mut i: usize = 0;
        while i < self.pairs.len()
            invariant
                i <= self.pairs@.len(),
                forall|j: int| 0 <= j < i ==> (#[trigger] self.pairs@[j]).0 != remote,
            decreases self.pairs@.len() - i,
        {
            if self.pairs[i].0 == remote {
                return Some(i);
            }
            i = i + 1;
        }
        None
    }

    /// The stage of the negotiation with `remote`, if one exists.
    pub fn stage_of(&self, remote: PeerId) -> (r: Option<NegotiationStage>)
        requires
            self.wf(),
        ensures
            match r {
                Some(st) => self@.contains_key(remote) && st == self@[remote].stage,
                None => !self@.contains_key(remote),
            },
    {
        match self.find_index(remote) {
            Some(i) => {
                proof {
                    lemma_pair_at(self.pairs@, i as int);
                }
                Some(self.pairs[i].1.stage)
            },
            None => {
                proof {
                    lemma_pair_absent(self.pairs@, remote);
                }
                None
            },
        }
    }

    /// How many candidates are buffered for `remote`, awaiting the
    /// remote description.
    pub fn buffered_candidates(&self, remote: PeerId) -> (r: usize)
        requires
            self.wf(),
        ensures
            self@.contains_key(remote) ==> r == self@[remote].pending.len(),
            !self@.contains_key(remote) ==> r == 0,
    {
        match self.find_index(remote) {
            Some(i) => {
                proof {
                    lemma_pair_at(self.pairs@, i as int);
                }
                self.pairs[i].1.pending.len()
            },
            None => {
                proof {
                    lemma_pair_absent(self.pairs@, remote);
                }
                0
            },
        }
    }

    /// Start (or restart) a negotiation with `remote`: make sure a state
    /// exists, attach the local tracks, and ask the engine for an offer.
    pub fn initiate(&mut self, remote: PeerId) -> (cmds: Vec<EngineCmd>)
        requires
            old(self).wf(),
        ensures
            final(self).wf(),
            final(self)@ == spec_initiate(old(self)@, remote),
            cmd_views(cmds@) == seq![
                EngineCmdV::AttachLocalTracks { remote },
                EngineCmdV::CreateOffer { remote },
            ],
    {
        let ghost s0 = self.pairs@;
        match self.find_index(remote) {
            Some(i) => {
                proof {
                    lemma_pair_at(s0, i as int);
                }
                let mut e = self.pairs.remove(i);
                e.1.stage = NegotiationStage::Idle;
                let ghost e1 = e;
                self.pairs.insert(i, e);
                proof {
                    lemma_remove_insert_is_update(s0, i as int, e1);
                    lemma_pair_views_update(s0, i as int, e1);
                    lemma_pair_views_basic(s0);
                    assert(pair_views(s0)[i as int] == ((s0[i as int]).0, (s0[i as int]).1@));
                    lemma_map_of_update(pair_views(s0), i as int, e1.1@);
                    assert(e1.1@ == PairStateV {
                        stage: NegotiationStage::Idle,
                        pending: old(self)@[remote].pending,
                    });
                    assert forall|x: int, y: int|
                        0 <= x < y < self.pairs@.len() implies (#[trigger] self.pairs@[x]).0
                        != (#[trigger] self.pairs@[y]).0 by {
                        assert(self.pairs@ == s0.update(i as int, e1));
                    }
                }
            },
            None => {
                proof {
                    lemma_pair_absent(s0, remote);
                }
                let state = PairState { stage: NegotiationStage::Idle, pending: Vec::new() };
                self.pairs.push((remote, state));
                proof {
                    let e = self.pairs@.last();
                    lemma_pair_views_push(s0, e);
                    lemma_map_of_push(pair_views(s0), remote, e.1@);
                    assert(cands_view(e.1.pending@) =~= Seq::<IceCandidateV>::empty());
                    assert(e.1@ == PairStateV {
                        stage: NegotiationStage::Idle,
                        pending: Seq::<IceCandidateV>::empty(),
                    });
                    assert forall|x: int, y: int|
                        0 <= x < y < self.pairs@.len() implies (#[trigger] self.pairs@[x]).0
                        != (#[trigger] self.pairs@[y]).0 by {
                        if y < s0.len() {
                            assert(self.pairs@[x] == s0[x]);
                            assert(self.pairs@[y] == s0[y]);
                        } else {
                            assert(self.pairs@[x] == s0[x]);
                        }
                    }
                }
            },
        }
        let mut cmds: Vec<EngineCmd> = Vec::new();
        cmds.push(EngineCmd::AttachLocalTracks { remote });
        cmds.push(EngineCmd::CreateOffer { remote });
        proof {
            assert(cmd_views(cmds@) =~= seq![
                EngineCmdV::AttachLocalTracks { remote },
                EngineCmdV::CreateOffer { remote },
            ]);
        }
        cmds
    }

    /// The engine finished creating the offer requested by `initiate`:
    /// if the pair still waits in `Idle`, the offer goes out to `remote`
    /// through the relay and the pair moves to `OfferSent`; a stale
    /// completion is discarded.
    pub fn offer_created(&mut self, remote: PeerId, sdp: String) -> (r: Option<ServerMsg>)
        requires
            old(self).wf(),
        ensures
            final(self).wf(),
            final(self)@ == spec_offer_created(old(self)@, remote),
            (old(self)@.contains_key(remote) && old(self)@[remote].stage is Idle) ==> (
            r matches Some(msg) && msg@ == ServerMsgV::Signal {
                signal: SignalV::Offer { sdp: sdp@ },
                recipient: remote,
            }),
            !(old(self)@.contains_key(remote) && old(self)@[remote].stage is Idle) ==> r is None,
    {
        let ghost s0 = self.pairs@;
        match self.find_index(remote) {
            Some(i) => {
                proof {
                    lemma_pair_at(s0, i as int);
                }
                let st = self.pairs[i].1.stage;
                if st == NegotiationStage::Idle {
                    let mut e = self.pairs.remove(i);
                    e.1.stage = NegotiationStage::OfferSent;
                    let ghost e1 = e;
                    self.pairs.insert(i, e);
                    proof {
                        lemma_remove_insert_is_update(s0, i as int, e1);
                        lemma_pair_views_update(s0, i as int, e1);
                        lemma_pair_views_basic(s0);
                        assert(pair_views(s0)[i as int] == ((s0[i as int]).0, (s0[i as int]).1@));
                        lemma_map_of_update(pair_views(s0), i as int, e1.1@);
                        assert(e1.1@ == PairStateV {
                            stage: NegotiationStage::OfferSent,
                            pending: old(self)@[remote].pending,
                        });
                        assert forall|x: int, y: int|
                            0 <= x < y < self.pairs@.len() implies (#[trigger] self.pairs@[x]).0
                            != (#[trigger] self.pairs@[y]).0 by {
                            assert(self.pairs@ == s0.update(i as int, e1));
                        }
                    }
                    Some(ServerMsg::Signal { signal: Signal::Offer { sdp }, recipient: remote })
                } else {
                    None
                }
            },
            None => {
                proof {
                    lemma_pair_absent(s0, remote);
                }
                None
            },
        }
    }

    /// A remote offer arrived from `remote`: apply the last-offer-wins
    /// policy, replacing any existing state for the pair, set the offer
    /// as the remote description and ask the engine for an answer.
    pub fn handle_offer(&mut self, remote: PeerId, sdp: String) -> (cmds: Vec<EngineCmd>)
        requires
            old(self).wf(),
        ensures
            final(self).wf(),
            final(self)@ == spec_handle_offer(old(self)@, remote),
            cmd_views(cmds@) == seq![
                EngineCmdV::AttachLocalTracks { remote },
                EngineCmdV::SetRemoteOffer { remote, sdp: sdp@ },
                EngineCmdV::CreateAnswer { remote },
            ],
    {
        let ghost s0 = self.pairs@;
        let ghost sdp0 = sdp@;
        let state = PairState { stage: NegotiationStage::OfferReceived, pending: Vec::new() };
        match self.find_index(remote) {
            Some(i) => {
                let mut e = self.pairs.remove(i);
                e.1 = state;
                let ghost e1 = e;
                self.pairs.insert(i, e);
                proof {
                    lemma_remove_insert_is_update(s0, i as int, e1);
                    lemma_pair_views_update(s0, i as int, e1);
                    lemma_pair_views_basic(s0);
                    assert(pair_views(s0)[i as int] == ((s0[i as int]).0, (s0[i as int]).1@));
                    lemma_map_of_update(pair_views(s0), i as int, e1.1@);
                    assert(cands_view(e1.1.pending@) =~= Seq::<IceCandidateV>::empty());
                    assert(e1.1@ == PairStateV {
                        stage: NegotiationStage::OfferReceived,
                        pending: Seq::<IceCandidateV>::empty(),
                    });
                    assert forall|x: int, y: int|
                        0 <= x < y < self.pairs@.len() implies (#[trigger] self.pairs@[x]).0
                        != (#[trigger] self.pairs@[y]).0 by {
                        assert(self.pairs@ == s0.update(i as int, e1));
                    }
                }
            },
            None => {
                proof {
                    lemma_pair_absent(s0, remote);
                }
                self.pairs.push((remote, state));
                proof {
                    let e = self.pairs@.last();
                    lemma_pair_views_push(s0, e);
                    lemma_map_of_push(pair_views(s0), remote, e.1@);
                    assert(cands_view(e.1.pending@) =~= Seq::<IceCandidateV>::empty());
                    assert(e.1@ == PairStateV {
                        stage: NegotiationStage::OfferReceived,
                        pending: Seq::<IceCandidateV>::empty(),
                    });
                    assert forall|x: int, y: int|
                        0 <= x < y < self.pairs@.len() implies (#[trigger] self.pairs@[x]).0
                        != (#[trigger] self.pairs@[y]).0 by {
                        if y < s0.len() {
                            assert(self.pairs@[x] == s0[x]);
                            assert(self.pairs@[y] == s0[y]);
                        } else {
                            assert(self.pairs@[x] == s0[x]);
                        }
                    }
                }
            },
        }
        let mut cmds: Vec<EngineCmd> = Vec::new();
        cmds.push(EngineCmd::AttachLocalTracks { remote });
        cmds.push(EngineCmd::SetRemoteOffer { remote, sdp });
        cmds.push(EngineCmd::CreateAnswer { remote });
        proof {
            assert(cmd_views(cmds@) =~= seq![
                EngineCmdV::AttachLocalTracks { remote },
                EngineCmdV::SetRemoteOffer { remote, sdp: sdp0 },
                EngineCmdV::CreateAnswer { remote },
            ]);
        }
        cmds
    }

    /// The engine finished creating the answer requested after a remote
    /// offer: if the pair still stands in `OfferReceived`, the answer
    /// goes out to `remote` and the pair moves to `AnswerSent`; a stale
    /// completion is discarded.
    pub fn answer_created(&mut self, remote: PeerId, sdp: String) -> (r: Option<ServerMsg>)
        requires
            old(self).wf(),
        ensures
            final(self).wf(),
            final(self)@ == spec_answer_created(old(self)@, remote),
            (old(self)@.contains_key(remote) && old(self)@[remote].stage is OfferReceived) ==> (
            r matches Some(msg) && msg@ == ServerMsgV::Signal {
                signal: SignalV::Answer { sdp: sdp@ },
                recipient: remote,
            }),
            !(old(self)@.contains_key(remote) && old(self)@[remote].stage is OfferReceived)
                ==> r is None,
    {
        let ghost s0 = self.pairs@;
        match self.find_index(remote) {
            Some(i) => {
                proof {
                    lemma_pair_at(s0, i as int);
                }
                let st = self.pairs[i].1.stage;
                if st == NegotiationStage::OfferReceived {
                    let mut e = self.pairs.remove(i);
                    e.1.stage = NegotiationStage::AnswerSent;
                    let ghost e1 = e;
                    self.pairs.insert(i, e);
                    proof {
                        lemma_remove_insert_is_update(s0, i as int, e1);
                        lemma_pair_views_update(s0, i as int, e1);
                        lemma_pair_views_basic(s0);
                        assert(pair_views(s0)[i as int] == ((s0[i as int]).0, (s0[i as int]).1@));
                        lemma_map_of_update(pair_views(s0), i as int, e1.1@);
                        assert(e1.1@ == PairStateV {
                            stage: NegotiationStage::AnswerSent,
                            pending: old(self)@[remote].pending,
                        });
                        assert forall|x: int, y: int|
                            0 <= x < y < self.pairs@.len() implies (#[trigger] self.pairs@[x]).0
                            != (#[trigger] self.pairs@[y]).0 by {
                            assert(self.pairs@ == s0.update(i as int, e1));
                        }
                    }
                    Some(ServerMsg::Signal { signal: Signal::Answer { sdp }, recipient: remote })
                } else {
                    None
                }
            },
            None => {
                proof {
                    lemma_pair_absent(s0, remote);
                }
                None
            },
        }
    }

    /// A remote answer arrived from `remote`. Valid only from
    /// `OfferSent`: the answer becomes the remote description, every
    /// buffered candidate is handed to the engine in arrival order, and
    /// the pair is `Connected`. In any other situation the answer is
    /// unsolicited: it is discarded and no state is created or changed.
    pub fn handle_answer(&mut self, remote: PeerId, sdp: String) -> (r: Result<
        Vec<EngineCmd>,
        NegotiationError,
    >)
        requires
            old(self).wf(),
        ensures
            final(self).wf(),
            final(self)@ == spec_handle_answer(old(self)@, remote),
            (old(self)@.contains_key(remote) && old(self)@[remote].stage is OfferSent) ==> (
            r matches Ok(cmds) && cmd_views(cmds@) == spec_answer_flush(old(self)@, remote, sdp@)),
            !(old(self)@.contains_key(remote) && old(self)@[remote].stage is OfferSent) ==> (
            r matches Err(e) && e is UnsolicitedAnswer),
    {
        let ghost s0 = self.pairs@;
        let ghost sdp0 = sdp@;
        match self.find_index(remote) {
            Some(i) => {
                proof {
                    lemma_pair_at(s0, i as int);
                }
                let st = self.pairs[i].1.stage;
                if st == NegotiationStage::OfferSent {
                    let mut e = self.pairs.remove(i);
                    let ghost pend0 = e.1.pending@;
                    let mut cmds: Vec<EngineCmd> = Vec::new();
                    cmds.push(EngineCmd::SetRemoteAnswer { remote, sdp });
                    while e.1.pending.len() > 0
                        invariant
                            e.0 == remote,
                            1 <= cmds@.len(),
                            cmds@.len() - 1 + e.1.pending@.len() == pend0.len(),
                            e.1.pending@ =~= pend0.skip(cmds@.len() - 1),
                            (cmds@[0])@ == (EngineCmdV::SetRemoteAnswer { remote, sdp: sdp0 }),
                            forall|k: int|
                                0 <= k < cmds@.len() - 1 ==> (#[trigger] cmds@[k + 1])@
                                    == (EngineCmdV::AddIceCandidate {
                                    remote,
                                    candidate: pend0[k]@,
                                }),
                        decreases e.1.pending@.len(),
                    {
                        let ghost done = cmds@.len() - 1;
                        let c = e.1.pending.remove(0);
                        let ghost c0 = c;
                        cmds.push(EngineCmd::AddIceCandidate { remote, candidate: c });
                        proof {
                            assert(c0 == pend0[done]);
                            assert(cmds@[done + 1] == EngineCmd::AddIceCandidate {
                                remote,
                                candidate: c0,
                            });
                            assert(e.1.pending@ =~= pend0.skip(done + 1));
                        }
                    }
                    e.1.stage = NegotiationStage::Connected;
                    let ghost e1 = e;
                    self.pairs.insert(i, e);
                    proof {
                        lemma_remove_insert_is_update(s0, i as int, e1);
                        lemma_pair_views_update(s0, i as int, e1);
                        lemma_pair_views_basic(s0);
                        assert(pair_views(s0)[i as int] == ((s0[i as int]).0, (s0[i as int]).1@));
                        lemma_map_of_update(pair_views(s0), i as int, e1.1@);
                        assert(cands_view(e1.1.pending@) =~= Seq::<IceCandidateV>::empty());
                        assert(e1.1@ == PairStateV {
                            stage: NegotiationStage::Connected,
                            pending: Seq::<IceCandidateV>::empty(),
                        });
                        assert(old(self)@[remote].pending == cands_view(pend0));
                        let flush = spec_answer_flush(old(self)@, remote, sdp0);
                        assert(cmd_views(cmds@) == flush) by {
                            assert(flush.len() == 1 + cands_view(pend0).len());
                            assert(cmds@.len() == 1 + pend0.len());
                            assert forall|j: int| 0 <= j < cmds@.len() implies cmd_views(
                                cmds@,
                            )[j] == flush[j] by {
                                if j == 0 {
                                    assert(cmd_views(cmds@)[0] == (cmds@[0])@);
                                } else {
                                    assert(cmd_views(cmds@)[j] == (cmds@[j])@);
                                    assert((cmds@[(j - 1) + 1])@ == EngineCmdV::AddIceCandidate {
                                        remote,
                                        candidate: pend0[j - 1]@,
                                    });
                                    assert(cands_view(pend0)[j - 1] == pend0[j - 1]@);
                                    assert(flush[j] == cands_view(pend0).map_values(
                                        |cc: IceCandidateV| EngineCmdV::AddIceCandidate {
                                            remote,
                                            candidate: cc,
                                        },
                                    )[j - 1]);
                                }
                            }
                            assert(cmd_views(cmds@) =~= flush);
                        }
                        assert forall|x: int, y: int|
                            0 <= x < y < self.pairs@.len() implies (#[trigger] self.pairs@[x]).0
                            != (#[trigger] self.pairs@[y]).0 by {
                            assert(self.pairs@ == s0.update(i as int, e1));
                        }
                    }
                    Ok(cmds)
                } else {
                    Err(NegotiationError::UnsolicitedAnswer)
                }
            },
            None => {
                proof {
                    lemma_pair_absent(s0, remote);
                }
                Err(NegotiationError::UnsolicitedAnswer)
            },
        }
    }

    /// A candidate arrived from `remote`: forwarded at once when the
    /// remote description is set, buffered until then, and unsolicited
    /// when no negotiation with `remote` exists.
    pub fn handle_remote_candidate(&mut self, remote: PeerId, candidate: IceCandidate) -> (r:
        Result<Vec<EngineCmd>, NegotiationError>)
        requires
            old(self).wf(),
        ensures
            final(self).wf(),
            final(self)@ == spec_handle_candidate(old(self)@, remote, candidate@),
            !old(self)@.contains_key(remote) ==> (r matches Err(e) && e is UnsolicitedCandidate),
            (old(self)@.contains_key(remote) && remote_description_set(
                old(self)@[remote].stage,
            )) ==> (r matches Ok(cmds) && cmd_views(cmds@) == seq![
                EngineCmdV::AddIceCandidate { remote, candidate: candidate@ },
            ]),
            (old(self)@.contains_key(remote) && !remote_description_set(
                old(self)@[remote].stage,
            )) ==> (r matches Ok(cmds) && cmds@.len() == 0),
    {
        let ghost s0 = self.pairs@;
        let ghost c0 = candidate;
        match self.find_index(remote) {
            Some(i) => {
                proof {
                    lemma_pair_at(s0, i as int);
                }
                let st = self.pairs[i].1.stage;
                let direct = match st {
                    NegotiationStage::OfferReceived => true,
                    NegotiationStage::AnswerSent => true,
                    NegotiationStage::Connected => true,
                    _ => false,
                };
                if direct {
                    let mut cmds: Vec<EngineCmd> = Vec::new();
                    cmds.push(EngineCmd::AddIceCandidate { remote, candidate });
                    proof {
                        assert(cmd_views(cmds@) =~= seq![
                            EngineCmdV::AddIceCandidate { remote, candidate: c0@ },
                        ]);
                    }
                    Ok(cmds)
                } else {
                    let mut e = self.pairs.remove(i);
                    let ghost pend0 = e.1.pending@;
                    e.1.pending.push(candidate);
                    let ghost e1 = e;
                    self.pairs.insert(i, e);
                    proof {
                        lemma_remove_insert_is_update(s0, i as int, e1);
                        lemma_pair_views_update(s0, i as int, e1);
                        lemma_pair_views_basic(s0);
                        assert(pair_views(s0)[i as int] == ((s0[i as int]).0, (s0[i as int]).1@));
                        lemma_map_of_update(pair_views(s0), i as int, e1.1@);
                        lemma_cands_view_push(pend0, c0);
                        assert(e1.1@ == PairStateV {
                            stage: old(self)@[remote].stage,
                            pending: old(self)@[remote].pending.push(c0@),
                        });
                        assert forall|x: int, y: int|
                            0 <= x < y < self.pairs@.len() implies (#[trigger] self.pairs@[x]).0
                            != (#[trigger] self.pairs@[y]).0 by {
                            assert(self.pairs@ == s0.update(i as int, e1));
                        }
                    }
                    Ok(Vec::new())
                }
            },
            None => {
                proof {
                    lemma_pair_absent(s0, remote);
                }
                Err(NegotiationError::UnsolicitedCandidate)
            },
        }
    }

    /// One relayed signal from `sender`, dispatched to the matching
    /// operation.
    pub fn handle_signal(&mut self, sender: PeerId, signal: Signal) -> (r: Result<
        Vec<EngineCmd>,
        NegotiationError,
    >)
        requires
            old(self).wf(),
        ensures
            final(self).wf(),
            final(self)@ == spec_handle_signal(old(self)@, sender, signal@),
            signal@ matches SignalV::Offer { sdp } ==> (r matches Ok(cmds) && cmd_views(cmds@)
                == seq![
                EngineCmdV::AttachLocalTracks { remote: sender },
                EngineCmdV::SetRemoteOffer { remote: sender, sdp },
                EngineCmdV::CreateAnswer { remote: sender },
            ]),
            signal@ matches SignalV::Answer { sdp } ==> {
                &&& ((old(self)@.contains_key(sender) && old(self)@[sender].stage is OfferSent)
                    ==> (r matches Ok(cmds) && cmd_views(cmds@) == spec_answer_flush(
                    old(self)@,
                    sender,
                    sdp,
                )))
                &&& (!(old(self)@.contains_key(sender) && old(self)@[sender].stage is OfferSent)
                    ==> (r matches Err(e) && e is UnsolicitedAnswer))
            },
            signal@ matches SignalV::NewIceCandidate { candidate } ==> {
                &&& (!old(self)@.contains_key(sender) ==> (r matches Err(e)
                    && e is UnsolicitedCandidate))
                &&& ((old(self)@.contains_key(sender) && remote_description_set(
                    old(self)@[sender].stage,
                )) ==> (r matches Ok(cmds) && cmd_views(cmds@) == seq![
                    EngineCmdV::AddIceCandidate { remote: sender, candidate },
                ]))
                &&& ((old(self)@.contains_key(sender) && !remote_description_set(
                    old(self)@[sender].stage,
                )) ==> (r matches Ok(cmds) && cmds@.len() == 0))
            },
    {
        match signal {
            Signal::Offer { sdp } => Ok(self.handle_offer(sender, sdp)),
            Signal::Answer { sdp } => self.handle_answer(sender, sdp),
            Signal::NewIceCandidate { candidate } => self.handle_remote_candidate(
                sender,
                candidate,
            ),
        }
    }

    /// Announce a locally discovered candidate for the negotiation with
    /// `remote`: it is addressed to `remote` for transport by the relay.
    /// With no negotiation underway the event is discarded.
    pub fn local_candidate(&self, remote: PeerId, candidate: IceCandidate) -> (r: Option<
        ServerMsg,
    >)
        requires
            self.wf(),
        ensures
            self@.contains_key(remote) ==> (r matches Some(msg) && msg@ == ServerMsgV::Signal {
                signal: SignalV::NewIceCandidate { candidate: candidate@ },
                recipient: remote,
            }),
            !self@.contains_key(remote) ==> r is None,
    {
        match self.find_index(remote) {
            Some(i) => {
                proof {
                    lemma_pair_at(self.pairs@, i as int);
                }
                Some(
                    ServerMsg::Signal {
                        signal: Signal::NewIceCandidate { candidate },
                        recipient: remote,
                    },
                )
            },
            None => {
                proof {
                    lemma_pair_absent(self.pairs@, remote);
                }
                None
            },
        }
    }

    /// Drop the negotiation state for `remote`, if any: a peer that
    /// disconnected is abandoned, and dropping an absent pair changes
    /// nothing.
    pub fn teardown(&mut self, remote: PeerId)
        requires
            old(self).wf(),
        ensures
            final(self).wf(),
            final(self)@ == old(self)@.remove(remote),
    {
        let ghost s0 = self.pairs@;
        match self.find_index(remote) {
            Some(i) => {
                self.pairs.remove(i);
                proof {
                    lemma_pair_views_distinct(s0);
                    lemma_pair_views_basic(s0);
                    lemma_map_of_remove(pair_views(s0), i as int);
                    lemma_pair_views_remove(s0, i as int);
                    assert forall|x: int, y: int|
                        0 <= x < y < self.pairs@.len() implies (#[trigger] self.pairs@[x]).0
                        != (#[trigger] self.pairs@[y]).0 by {
                        if y < i {
                            assert(self.pairs@[x] == s0[x]);
                            assert(self.pairs@[y] == s0[y]);
                        } else if x < i {
                            assert(self.pairs@[x] == s0[x]);
                            assert(self.pairs@[y] == s0[y + 1]);
                        } else {
                            assert(self.pairs@[x] == s0[x + 1]);
                            assert(self.pairs@[y] == s0[y + 1]);
                        }
                    }
                }
            },
            None => {
                proof {
                    lemma_pair_absent(s0, remote);
                    assert(old(self)@.remove(remote) =~= old(self)@);
                }
            },
        }
    }
}

/// Law: initiating towards a remote peer, sending the engine's offer,
/// and applying the peer's answer reaches `Connected` with an empty
/// candidate buffer.
pub proof fn lemma_offer_answer_reaches_connected(m: Map<PeerId, PairStateV>, remote: PeerId)
    ensures
        ({
            let after = spec_handle_answer(
                spec_offer_created(spec_initiate(m, remote), remote),
                remote,
            );
            &&& after.contains_key(remote)
            &&& after[remote].stage is Connected
            &&& after[remote].pending == Seq::<IceCandidateV>::empty()
        }),
{
}

/// Law: an answer for a pair that never negotiated is rejected without
/// creating or changing any state.
pub proof fn lemma_unsolicited_answer_leaves_no_state(m: Map<PeerId, PairStateV>, remote: PeerId)
    requires
        !m.contains_key(remote) || !(m[remote].stage is OfferSent),
    ensures
        spec_handle_answer(m, remote) == m,
{
}

/// Law: a candidate buffered while the answer is still outstanding is
/// flushed exactly once, appended at the end of the flush in arrival
/// order; and the flush leaves the buffer empty, so nothing is ever
/// delivered twice.
pub proof fn lemma_buffered_candidates_flush_in_order(
    m: Map<PeerId, PairStateV>,
    remote: PeerId,
    c: IceCandidateV,
    sdp: Seq<char>,
)
    requires
        m.contains_key(remote),
        m[remote].stage is OfferSent,
    ensures
        spec_answer_flush(spec_handle_candidate(m, remote, c), remote, sdp) == spec_answer_flush(
            m,
            remote,
            sdp,
        ).push(EngineCmdV::AddIceCandidate { remote, candidate: c }),
        spec_handle_answer(m, remote)[remote].pending == Seq::<IceCandidateV>::empty(),
{
    let m1 = spec_handle_candidate(m, remote, c);
    assert(m1[remote].pending == m[remote].pending.push(c));
    assert(spec_answer_flush(m1, remote, sdp) =~= spec_answer_flush(m, remote, sdp).push(
        EngineCmdV::AddIceCandidate { remote, candidate: c },
    ));
}

} // verus!
