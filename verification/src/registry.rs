//! The relay's peer registry: the process-wide mapping from peer
//! identity to that peer's outbound delivery queue. Registration
//! allocates a fresh identity, unregistration is idempotent, lookup on an
//! absent identity is not an error, and a snapshot lists the live peers
//! minus an optional exclusion. The registry is viewed as a map from
//! `PeerId` to the ordered sequence of messages awaiting delivery.

use vstd::prelude::*;

use crate::pairmap::{
    distinct_keys, lemma_map_of_contains, lemma_map_of_index, lemma_map_of_push,
    lemma_map_of_remove, lemma_map_of_update, lemma_remove_insert_is_update, map_of,
};
use crate::wire::{ClientMsg, ClientMsgV, PeerId};

verus! {

/// The view of a delivery queue: the messages it holds, oldest first.
pub open spec fn msgs_view(q: Seq<ClientMsg>) -> Seq<ClientMsgV> {
    q.map_values(|m: ClientMsg| m@)
}

/// The view of the registry's entry sequence.
pub open spec fn entry_views(s: Seq<(PeerId, Vec<ClientMsg>)>) -> Seq<(PeerId, Seq<ClientMsgV>)> {
    s.map_values(|e: (PeerId, Vec<ClientMsg>)| (e.0, msgs_view(e.1@)))
}

proof fn lemma_entry_views_basic(s: Seq<(PeerId, Vec<ClientMsg>)>)
    ensures
        entry_views(s).len() == s.len(),
        forall|i: int|
            0 <= i < s.len() ==> (#[trigger] entry_views(s)[i]) == (
                (s[i]).0,
                msgs_view((s[i]).1@),
            ),
{
}

proof fn lemma_entry_views_distinct(s: Seq<(PeerId, Vec<ClientMsg>)>)
    requires
        distinct_keys(s),
    ensures
        distinct_keys(entry_views(s)),
{
    lemma_entry_views_basic(s);
    assert forall|i: int, j: int|
        0 <= i < j < entry_views(s).len() implies (#[trigger] entry_views(s)[i]).0
        != (#[trigger] entry_views(s)[j]).0 by {
        assert((s[i]).0 != (s[j]).0);
    }
}

proof fn lemma_entry_views_push(s: Seq<(PeerId, Vec<ClientMsg>)>, e: (PeerId, Vec<ClientMsg>))
    ensures
        entry_views(s.push(e)) == entry_views(s).push((e.0, msgs_view(e.1@))),
{
    lemma_entry_views_basic(s);
    lemma_entry_views_basic(s.push(e));
    assert(entry_views(s.push(e)) =~= entry_views(s).push((e.0, msgs_view(e.1@))));
}

proof fn lemma_entry_views_update(
    s: Seq<(PeerId, Vec<ClientMsg>)>,
    i: int,
    e: (PeerId, Vec<ClientMsg>),
)
    requires
        0 <= i < s.len(),
    ensures
        entry_views(s.update(i, e)) == entry_views(s).update(i, (e.0, msgs_view(e.1@))),
{
    lemma_entry_views_basic(s);
    lemma_entry_views_basic(s.update(i, e));
    assert(entry_views(s.update(i, e)) =~= entry_views(s).update(i, (e.0, msgs_view(e.1@))));
}

proof fn lemma_entry_views_remove(s: Seq<(PeerId, Vec<ClientMsg>)>, i: int)
    requires
        0 <= i < s.len(),
    ensures
        entry_views(s.remove(i)) == entry_views(s).remove(i),
{
    lemma_entry_views_basic(s);
    lemma_entry_views_basic(s.remove(i));
    assert(entry_views(s.remove(i)) =~= entry_views(s).remove(i)) by {
        assert forall|j: int| 0 <= j < s.remove(i).len() implies entry_views(s.remove(i))[j]
            == entry_views(s).remove(i)[j] by {
            if j < i {
                assert(s.remove(i)[j] == s[j]);
            } else {
                assert(s.remove(i)[j] == s[j + 1]);
            }
        }
    }
}

/// The key of any entry is in the view.
proof fn lemma_entry_present(s: Seq<(PeerId, Vec<ClientMsg>)>, i: int)
    requires
        0 <= i < s.len(),
    ensures
        map_of(entry_views(s)).contains_key((s[i]).0),
{
    lemma_entry_views_basic(s);
    lemma_map_of_contains(entry_views(s));
    assert(entry_views(s)[i] == ((s[i]).0, msgs_view((s[i]).1@)));
}

/// With distinct keys, the entry at `i` is the view's binding of its key.
proof fn lemma_entry_at(s: Seq<(PeerId, Vec<ClientMsg>)>, i: int)
    requires
        distinct_keys(s),
        0 <= i < s.len(),
    ensures
        map_of(entry_views(s)).contains_key((s[i]).0),
        map_of(entry_views(s))[(s[i]).0] == msgs_view((s[i]).1@),
{
    lemma_entry_views_basic(s);
    lemma_entry_views_distinct(s);
    lemma_map_of_index(entry_views(s));
    assert(entry_views(s)[i] == ((s[i]).0, msgs_view((s[i]).1@)));
}

/// A key no entry carries is not in the view.
proof fn lemma_entry_absent(s: Seq<(PeerId, Vec<ClientMsg>)>, p: PeerId)
    requires
        forall|i: int| 0 <= i < s.len() ==> (#[trigger] s[i]).0 != p,
    ensures
        !map_of(entry_views(s)).contains_key(p),
{
    lemma_entry_views_basic(s);
    lemma_map_of_contains(entry_views(s));
    if map_of(entry_views(s)).contains_key(p) {
        let i = choose|i: int|
            0 <= i < entry_views(s).len() && (#[trigger] entry_views(s)[i]).0 == p;
        assert(entry_views(s)[i] == ((s[i]).0, msgs_view((s[i]).1@)));
        assert(false);
    }
}

proof fn lemma_msgs_view_push(q: Seq<ClientMsg>, m: ClientMsg)
    ensures
        msgs_view(q.push(m)) == msgs_view(q).push(m@),
{
    assert(msgs_view(q.push(m)) =~= msgs_view(q).push(m@));
}

proof fn lemma_msgs_view_remove_first(q: Seq<ClientMsg>)
    requires
        q.len() > 0,
    ensures
        msgs_view(q.remove(0)) == msgs_view(q).drop_first(),
{
    assert(msgs_view(q.remove(0)) =~= msgs_view(q).drop_first()) by {
        assert forall|j: int| 0 <= j < q.remove(0).len() implies msgs_view(q.remove(0))[j]
            == msgs_view(q).drop_first()[j] by {
            assert(q.remove(0)[j] == q[j + 1]);
        }
    }
}

/// The identity values of an entry sequence, as mathematical integers.
pub open spec fn key_vals(s: Seq<(PeerId, Vec<ClientMsg>)>) -> Seq<int> {
    s.map_values(|e: (PeerId, Vec<ClientMsg>)| e.0.value as int)
}

proof fn lemma_taken_candidate(s: Seq<(PeerId, Vec<ClientMsg>)>, v: int)
    requires
        0 <= v <= u128::MAX,
        map_of(entry_views(s)).contains_key(PeerId { value: v as u128 }),
    ensures
        key_vals(s).to_set().contains(v),
{
    lemma_map_of_contains(entry_views(s));
    lemma_entry_views_basic(s);
    let p = PeerId { value: v as u128 };
    let i = choose|i: int|
        0 <= i < entry_views(s).len() && (#[trigger] entry_views(s)[i]).0 == p;
    assert(entry_views(s)[i] == ((s[i]).0, msgs_view((s[i]).1@)));
    assert(key_vals(s)[i] == v);
    assert(key_vals(s).contains(v));
}

/// Relies on `uuid::Uuid::new_v4`, which draws a fresh random 128-bit
/// version-4 identifier; nothing is assumed of the value drawn.
#[verifier::external_body]
fn fresh_id_value() -> u128 {
    uuid::Uuid::new_v4().as_u128()
}

/// The relay's registry of live peers, each with its ordered outbound
/// delivery queue.
pub struct Registry {
    entries: Vec<(PeerId, Vec<ClientMsg>)>,
}

impl View for Registry {
    type V = Map<PeerId, Seq<ClientMsgV>>;

    closed spec fn view(&self) -> Map<PeerId, Seq<ClientMsgV>> {
        map_of(entry_views(self.entries@))
    }
}

impl Registry {
    /// Well-formed: no peer identity occurs twice.
    pub closed spec fn wf(&self) -> bool {
        distinct_keys(self.entries@)
    }

    /// An empty registry: no peer is connected.
    pub fn new() -> (r: Registry)
        ensures
            r.wf(),
            r@ == Map::<PeerId, Seq<ClientMsgV>>::empty(),
    {
        let r = Registry { entries: Vec::new() };
        proof {
            assert(entry_views(r.entries@) =~= Seq::<(PeerId, Seq<ClientMsgV>)>::empty());
        }
        r
    }

    fn find_index(&self, id: PeerId) -> (r: Option<usize>)
        ensures
            match r {
                Some(i) => i < self.entries@.len() && (self.entries@[i as int]).0 == id,
                None => forall|i: int|
                    0 <= i < self.entries@.len() ==> (#[trigger] self.entries@[i]).0 != id,
            },
    {
        let mut i: usize = 0;
        while i < self.entries.len()
            invariant
                i <= self.entries@.len(),
                forall|j: int| 0 <= j < i ==> (#[trigger] self.entries@[j]).0 != id,
            decreases self.entries@.len() - i,
        {
            if self.entries[i].0 == id {
                return Some(i);
            }
            i = i + 1;
        }
        None
    }

    /// Whether a peer is currently registered.
    pub fn contains(&self, id: PeerId) -> (r: bool)
        ensures
            r == self@.contains_key(id),
    {
        match self.find_index(id) {
            Some(i) => {
                proof {
                    lemma_entry_present(self.entries@, i as int);
                }
                true
            },
            None => {
                proof {
                    lemma_entry_absent(self.entries@, id);
                }
                false
            },
        }
    }

    /// An identity that no current entry uses. The randomly drawn
    /// identity practically never collides; if it does, the candidates
    /// `0 ..= n` for `n` current entries cannot all be taken, so a scan
    /// of them finds a free one.
    fn first_free_id(&self) -> (id: PeerId)
        requires
            self.wf(),
        ensures
            !self@.contains_key(id),
    {
        let n = self.entries.len();
        let mut k: usize = 0;
        while k < n
            invariant
                k <= n,
                n == self.entries@.len(),
                self.wf(),
                forall|j: int|
                    0 <= j < k ==> #[trigger] key_vals(self.entries@).to_set().contains(j),
            decreases n - k,
        {
            let candidate = PeerId { value: k as u128 };
            if !self.contains(candidate) {
                return candidate;
            }
            proof {
                lemma_taken_candidate(self.entries@, k as int);
            }
            k = k + 1;
        }
        let candidate = PeerId { value: n as u128 };
        if !self.contains(candidate) {
            return candidate;
        }
        proof {
            lemma_taken_candidate(self.entries@, n as int);
            broadcast use vstd::seq_lib::seq_to_set_is_finite;

            key_vals(self.entries@).lemma_cardinality_of_set();
            vstd::set_lib::lemma_int_range(0, n as int + 1);
            assert(vstd::set_lib::set_int_range(0, n as int + 1).subset_of(
                key_vals(self.entries@).to_set(),
            ));
            vstd::set_lib::lemma_len_subset(
                vstd::set_lib::set_int_range(0, n as int + 1),
                key_vals(self.entries@).to_set(),
            );
            assert(key_vals(self.entries@).len() == self.entries@.len());
            assert(false);
        }
        PeerId { value: 0 }
    }

    /// Allocate a fresh identity, insert it with an empty delivery queue,
    /// and hand it back. The identity returned was not registered before.
    pub fn register(&mut self) -> (id: PeerId)
        requires
            old(self).wf(),
        ensures
            final(self).wf(),
            !old(self)@.contains_key(id),
            final(self)@ == old(self)@.insert(id, Seq::<ClientMsgV>::empty()),
    {
        let draw = PeerId { value: fresh_id_value() };
        let id = if !self.contains(draw) {
            draw
        } else {
            self.first_free_id()
        };
        let ghost s0 = self.entries@;
        proof {
            lemma_map_of_contains(entry_views(s0));
            lemma_entry_views_basic(s0);
        }
        let queue: Vec<ClientMsg> = Vec::new();
        self.entries.push((id, queue));
        proof {
            let e = self.entries@.last();
            assert(self.entries@ == s0.push(e));
            lemma_entry_views_push(s0, e);
            lemma_map_of_push(entry_views(s0), id, msgs_view(e.1@));
            assert(msgs_view(e.1@) =~= Seq::<ClientMsgV>::empty());
            assert forall|x: int, y: int|
                0 <= x < y < self.entries@.len() implies (#[trigger] self.entries@[x]).0
                != (#[trigger] self.entries@[y]).0 by {
                if y < s0.len() {
                    assert(self.entries@[x] == s0[x]);
                    assert(self.entries@[y] == s0[y]);
                } else {
                    assert(self.entries@[x] == s0[x]);
                    lemma_entry_present(s0, x);
                }
            }
        }
        id
    }

    /// Remove a peer's registration and delivery queue; removing an
    /// absent peer changes nothing.
    pub fn unregister(&mut self, id: PeerId)
        requires
            old(self).wf(),
        ensures
            final(self).wf(),
            final(self)@ == old(self)@.remove(id),
    {
        let ghost s0 = self.entries@;
        match self.find_index(id) {
            Some(i) => {
                self.entries.remove(i);
                proof {
                    lemma_entry_views_distinct(s0);
                    lemma_entry_views_basic(s0);
                    lemma_map_of_remove(entry_views(s0), i as int);
                    lemma_entry_views_remove(s0, i as int);
                    assert forall|x: int, y: int|
                        0 <= x < y < self.entries@.len() implies (#[trigger] self.entries@[x]).0
                        != (#[trigger] self.entries@[y]).0 by {
                        if y < i {
                            assert(self.entries@[x] == s0[x]);
                            assert(self.entries@[y] == s0[y]);
                        } else if x < i {
                            assert(self.entries@[x] == s0[x]);
                            assert(self.entries@[y] == s0[y + 1]);
                        } else {
                            assert(self.entries@[x] == s0[x + 1]);
                            assert(self.entries@[y] == s0[y + 1]);
                        }
                    }
                }
            },
            None => {
                proof {
                    lemma_map_of_contains(entry_views(s0));
                    lemma_entry_views_basic(s0);
                    assert(!old(self)@.contains_key(id));
                    assert(old(self)@.remove(id) =~= old(self)@);
                }
            },
        }
    }

    /// Append a message to a registered peer's delivery queue; reports
    /// whether the peer was registered, and changes nothing when not.
    pub fn enqueue(&mut self, id: PeerId, msg: ClientMsg) -> (delivered: bool)
        requires
            old(self).wf(),
        ensures
            final(self).wf(),
            delivered == old(self)@.contains_key(id),
            delivered ==> final(self)@ == old(self)@.insert(id, old(self)@[id].push(msg@)),
            !delivered ==> final(self)@ == old(self)@,
    {
        let ghost s0 = self.entries@;
        let ghost m0 = msg;
        proof {
            lemma_map_of_contains(entry_views(s0));
            lemma_entry_views_basic(s0);
            lemma_entry_views_distinct(s0);
            lemma_map_of_index(entry_views(s0));
        }
        match self.find_index(id) {
            Some(i) => {
                let ghost q0 = (s0[i as int]).1@;
                let mut e = self.entries.remove(i);
                e.1.push(msg);
                let ghost e1 = e;
                self.entries.insert(i, e);
                proof {
                    assert(e1.1@ == q0.push(m0));
                    lemma_remove_insert_is_update(s0, i as int, e1);
                    lemma_entry_views_update(s0, i as int, e1);
                    lemma_msgs_view_push(q0, m0);
                    assert((entry_views(s0)[i as int]).0 == id);
                    assert(old(self)@[id] == msgs_view(q0));
                    lemma_map_of_update(entry_views(s0), i as int, msgs_view(q0).push(m0@));
                    assert forall|x: int, y: int|
                        0 <= x < y < self.entries@.len() implies (#[trigger] self.entries@[x]).0
                        != (#[trigger] self.entries@[y]).0 by {
                        assert(self.entries@ == s0.update(i as int, e1));
                    }
                }
                true
            },
            None => {
                false
            },
        }
    }

    /// Take the oldest message off a peer's delivery queue, if any.
    pub fn pop_outbound(&mut self, id: PeerId) -> (r: Option<ClientMsg>)
        requires
            old(self).wf(),
        ensures
            final(self).wf(),
            match r {
                Some(m) => {
                    &&& old(self)@.contains_key(id)
                    &&& old(self)@[id].len() > 0
                    &&& m@ == old(self)@[id][0]
                    &&& final(self)@ == old(self)@.insert(id, old(self)@[id].drop_first())
                },
                None => {
                    &&& !old(self)@.contains_key(id) || old(self)@[id].len() == 0
                    &&& final(self)@ == old(self)@
                },
            },
    {
        let ghost s0 = self.entries@;
        proof {
            lemma_map_of_contains(entry_views(s0));
            lemma_entry_views_basic(s0);
            lemma_entry_views_distinct(s0);
            lemma_map_of_index(entry_views(s0));
        }
        match self.find_index(id) {
            Some(i) => {
                let ghost q0 = (s0[i as int]).1@;
                proof {
                    assert((entry_views(s0)[i as int]).0 == id);
                    assert(old(self)@[id] == msgs_view(q0));
                }
                if self.entries[i].1.len() > 0 {
                    let mut e = self.entries.remove(i);
                    let m = e.1.remove(0);
                    let ghost e1 = e;
                    self.entries.insert(i, e);
                    proof {
                        assert(e1.1@ == q0.remove(0));
                        lemma_remove_insert_is_update(s0, i as int, e1);
                        lemma_entry_views_update(s0, i as int, e1);
                        lemma_msgs_view_remove_first(q0);
                        lemma_map_of_update(entry_views(s0), i as int, msgs_view(q0).drop_first());
                        assert(msgs_view(q0)[0] == q0[0]@);
                        assert forall|x: int, y: int|
                            0 <= x < y < self.entries@.len() implies (
                            #[trigger] self.entries@[x]).0 != (#[trigger] self.entries@[y]).0 by {
                            assert(self.entries@ == s0.update(i as int, e1));
                        }
                    }
                    Some(m)
                } else {
                    proof {
                        assert(old(self)@[id].len() == 0);
                    }
                    None
                }
            },
            None => {
                None
            },
        }
    }

    /// Borrow a registered peer's delivery queue; absent peers yield
    /// `None`, which is not an error at the registry level.
    pub fn lookup(&self, id: PeerId) -> (r: Option<&Vec<ClientMsg>>)
        requires
            self.wf(),
        ensures
            match r {
                Some(q) => self@.contains_key(id) && msgs_view(q@) == self@[id],
                None => !self@.contains_key(id),
            },
    {
        match self.find_index(id) {
            Some(i) => {
                proof {
                    lemma_entry_at(self.entries@, i as int);
                }
                Some(&self.entries[i].1)
            },
            None => {
                proof {
                    lemma_entry_absent(self.entries@, id);
                }
                None
            },
        }
    }

    /// The set of currently registered peers, optionally excluding one
    /// (a session asking for its own peer list excludes itself). The
    /// result lists each qualifying peer exactly once.
    pub fn snapshot(&self, exclude: Option<PeerId>) -> (peers: Vec<PeerId>)
        requires
            self.wf(),
        ensures
            peers@.no_duplicates(),
            forall|p: PeerId|
                #[trigger] peers@.contains(p) <==> (self@.contains_key(p) && exclude != Some(p)),
    {
        let mut out: Vec<PeerId> = Vec::new();
        let mut i: usize = 0;
        while i < self.entries.len()
            invariant
                i <= self.entries@.len(),
                distinct_keys(self.entries@),
                out@.no_duplicates(),
                forall|p: PeerId|
                    #[trigger] out@.contains(p) <==> (exists|j: int|
                        0 <= j < i && (#[trigger] self.entries@[j]).0 == p && exclude != Some(p)),
            decreases self.entries@.len() - i,
        {
            let id = self.entries[i].0;
            let keep = match exclude {
                Some(e) => !(e == id),
                None => true,
            };
            let ghost out0 = out@;
            if keep {
                proof {
                    if out0.contains(id) {
                        let j = choose|j: int|
                            0 <= j < i && (#[trigger] self.entries@[j]).0 == id && exclude != Some(
                                id,
                            );
                        assert(false);
                    }
                }
                out.push(id);
                proof {
                    assert forall|p: PeerId| #[trigger] out@.contains(p) implies (exists|j: int|
                        0 <= j < i + 1 && (#[trigger] self.entries@[j]).0 == p && exclude != Some(
                            p,
                        )) by {
                        let k = choose|k: int| 0 <= k < out@.len() && out@[k] == p;
                        if k < out0.len() {
                            assert(out0[k] == p);
                            assert(out0.contains(p));
                        } else {
                            assert(p == id);
                            assert((self.entries@[i as int]).0 == p);
                        }
                    }
                    assert forall|p: PeerId| (exists|j: int|
                        0 <= j < i + 1 && (#[trigger] self.entries@[j]).0 == p && exclude != Some(
                            p,
                        )) implies #[trigger] out@.contains(p) by {
                        let j = choose|j: int|
                            0 <= j < i + 1 && (#[trigger] self.entries@[j]).0 == p && exclude
                                != Some(p);
                        if j < i {
                            assert(out0.contains(p));
                            let k = choose|k: int| 0 <= k < out0.len() && out0[k] == p;
                            assert(out@[k] == p);
                        } else {
                            assert(out@[out0.len() as int] == id);
                        }
                    }
                    assert(out@.no_duplicates()) by {
                        assert forall|x: int, y: int|
                            0 <= x < out@.len() && 0 <= y < out@.len() && x != y implies out@[x]
                            != out@[y] by {
                            if x < out0.len() && y < out0.len() {
                            } else if x < out0.len() {
                                assert(out0.contains(out0[x]));
                            } else if y < out0.len() {
                                assert(out0.contains(out0[y]));
                            }
                        }
                    }
                }
            } else {
                proof {
                    assert forall|p: PeerId| (exists|j: int|
                        0 <= j < i + 1 && (#[trigger] self.entries@[j]).0 == p && exclude != Some(
                            p,
                        )) implies #[trigger] out@.contains(p) by {
                        let j = choose|j: int|
                            0 <= j < i + 1 && (#[trigger] self.entries@[j]).0 == p && exclude
                                != Some(p);
                        if j == i {
                            assert((self.entries@[i as int]).0 == id);
                            assert(exclude == Some(id));
                            assert(false);
                        }
                    }
                }
            }
            i = i + 1;
        }
        proof {
            assert forall|p: PeerId| #[trigger] out@.contains(p) implies (self@.contains_key(p)
                && exclude != Some(p)) by {
                let j = choose|j: int|
                    0 <= j < self.entries@.len() && (#[trigger] self.entries@[j]).0 == p
                        && exclude != Some(p);
                lemma_entry_present(self.entries@, j);
            }
            assert forall|p: PeerId| self@.contains_key(p) && exclude != Some(p)
                implies #[trigger] out@.contains(p) by {
                lemma_map_of_contains(entry_views(self.entries@));
                lemma_entry_views_basic(self.entries@);
                let j = choose|j: int|
                    0 <= j < entry_views(self.entries@).len() && (#[trigger] entry_views(
                        self.entries@,
                    )[j]).0 == p;
                assert(entry_views(self.entries@)[j] == (
                    (self.entries@[j]).0,
                    msgs_view((self.entries@[j]).1@),
                ));
                assert((self.entries@[j]).0 == p);
            }
        }
        out
    }
}

/// Law: registering a fresh peer and then unregistering it restores the
/// registry view exactly; a snapshot after the pair of operations shows
/// the same peers as before.
pub proof fn lemma_register_then_unregister_restores(
    m: Map<PeerId, Seq<ClientMsgV>>,
    id: PeerId,
)
    requires
        !m.contains_key(id),
    ensures
        m.insert(id, Seq::<ClientMsgV>::empty()).remove(id) == m,
{
    assert(m.insert(id, Seq::<ClientMsgV>::empty()).remove(id) =~= m);
}

/// Law: unregistering is idempotent; unregistering an id that is already
/// gone is a no-op, not a failure.
pub proof fn lemma_unregister_idempotent(m: Map<PeerId, Seq<ClientMsgV>>, id: PeerId)
    ensures
        m.remove(id).remove(id) == m.remove(id),
{
    assert(m.remove(id).remove(id) =~= m.remove(id));
}

} // verus!
