//! The iterative lookup: the state of one search for the peers closest to a
//! target, and the decisions that drive it. The node façade sends the
//! find-node requests this state asks for and feeds back what comes in.

use crate::id::{distance, same_id, Identifier};
use crate::kbucket::{ascending, has_id, insert_closest};
use crate::node::Peer;
use vstd::prelude::*;

verus! {

/// Most rounds of queries one lookup sends.
pub const MAX_ROUNDS: u32 = 20;

/// State of one lookup.
pub struct Lookup {
    target: Identifier,
    local: Identifier,
    k: usize,
    alpha: usize,
    shortlist: Vec<Peer>,
    queried: Vec<Identifier>,
    in_flight: Vec<Identifier>,
    rounds: u32,
    progress: bool,
}

/// Value of a lookup: the target, the searching node, how many peers it
/// keeps (`k`) and asks at once (`alpha`), the shortlist in ascending
/// distance to the target, the peers asked so far and those still awaited,
/// the rounds sent, and whether the current round brought a peer into the
/// shortlist.
pub struct LookupView {
    pub target: Identifier,
    pub local: Identifier,
    pub k: nat,
    pub alpha: nat,
    pub shortlist: Seq<Peer>,
    pub queried: Seq<Identifier>,
    pub in_flight: Seq<Identifier>,
    pub rounds: nat,
    pub progress: bool,
}

impl View for Lookup {
    type V = LookupView;

    closed spec fn view(&self) -> LookupView {
        LookupView {
            target: self.target,
            local: self.local,
            k: self.k as nat,
            alpha: self.alpha as nat,
            shortlist: self.shortlist@,
            queried: self.queried@,
            in_flight: self.in_flight@,
            rounds: self.rounds as nat,
            progress: self.progress,
        }
    }
}

/// `id` is one of `s`.
pub open spec fn id_in(s: Seq<Identifier>, id: Identifier) -> bool {
    exists|j: int| 0 <= j < s.len() && (#[trigger] s[j])@ == id@
}

/// A shortlist peer that may be asked: neither asked before nor awaited.
pub open spec fn askable(v: LookupView) -> spec_fn(Peer) -> bool {
    |p: Peer| !id_in(v.queried, p.id) && !id_in(v.in_flight, p.id)
}

/// The invariant of a lookup: the shortlist is in strictly ascending
/// distance to the target, at most `k` long, and never holds the searching
/// node.
pub open spec fn lookup_wf(v: LookupView) -> bool {
    &&& ascending(v.shortlist, v.target)
    &&& v.shortlist.len() <= v.k
    &&& !has_id(v.shortlist, v.local)
    &&& v.rounds <= MAX_ROUNDS
}

/// `new` is the shortlist `old` after merging `peers`: still in strictly
/// ascending distance to `t` and at most `k` long, made of peers of `old`
/// and `peers`, without `local`; a peer of either whose identifier did not
/// make it is farther than every peer kept, and was left out only because
/// `k` were kept.
pub open spec fn merges(
    old: Seq<Peer>,
    peers: Seq<Peer>,
    new: Seq<Peer>,
    t: Identifier,
    k: nat,
    local: Identifier,
) -> bool {
    &&& ascending(new, t)
    &&& new.len() <= k
    &&& !has_id(new, local)
    &&& forall|x: Peer| #[trigger] new.contains(x) ==> old.contains(x) || peers.contains(x)
    &&& forall|q: Peer|
        #![trigger old.contains(q)]
        #![trigger peers.contains(q)]
        (old.contains(q) || (peers.contains(q) && q.id@ != local@)) && !has_id(new, q.id)
            ==> new.len() == k && forall|m: int|
            0 <= m < new.len() ==> distance((#[trigger] new[m]).id@, t@) < distance(q.id@, t@)
}

/// Whether `id` is one of `v`.
fn contains_id(v: &Vec<Identifier>, id: &Identifier) -> (r: bool)
    ensures
        r == id_in(v@, *id),
{
    let mut j: usize = 0;
    while j < v.len()
        invariant
            j <= v@.len(),
            forall|m: int| 0 <= m < j ==> (#[trigger] v@[m])@ != id@,
        decreases v@.len() - j,
    {
        if same_id(&v[j], id) {
            return true;
        }
        j = j + 1;
    }
    false
}

/// Whether a peer of `s` has identifier `id`.
fn list_has_id(s: &Vec<Peer>, id: &Identifier) -> (r: bool)
    ensures
        r == has_id(s@, *id),
{
    let mut j: usize = 0;
    while j < s.len()
        invariant
            j <= s@.len(),
            forall|m: int| 0 <= m < j ==> (#[trigger] s@[m]).id@ != id@,
        decreases s@.len() - j,
    {
        if same_id(&s[j].id, id) {
            return true;
        }
        j = j + 1;
    }
    false
}

/// Merges `peers` into the shortlist `list`; returns whether the shortlist
/// now holds an identifier it did not hold before.
fn merge_peers(list: &mut Vec<Peer>, peers: &Vec<Peer>, t: &Identifier, k: usize, local: &Identifier) -> (r:
    bool)
    requires
        ascending(old(list)@, *t),
        old(list)@.len() <= k,
        !has_id(old(list)@, *local),
    ensures
        merges(old(list)@, peers@, final(list)@, *t, k as nat, *local),
        r == exists|m: int|
            0 <= m < final(list)@.len() && !has_id(old(list)@, (#[trigger] final(list)@[m]).id),
{
    let ghost o = list@;
    let mut old_ids: Vec<Identifier> = Vec::new();
    let mut j: usize = 0;
    while j < list.len()
        invariant
            list@ == o,
            j <= o.len(),
            old_ids@.len() == j,
            forall|m: int| 0 <= m < j ==> (#[trigger] old_ids@[m]) == o[m].id,
        decreases o.len() - j,
    {
        old_ids.push(list[j].id);
        j = j + 1;
    }
    assert forall|x: Peer| #[trigger] list@.contains(x) implies o.contains(x) || peers@.take(0).contains(x) by {}
    let mut i: usize = 0;
    while i < peers.len()
        invariant
            i <= peers@.len(),
            merges(o, peers@.take(i as int), list@, *t, k as nat, *local),
        decreases peers@.len() - i,
    {
        let p = peers[i];
        let ghost before = list@;
        let ghost seen = peers@.take(i as int);
        let ghost seen2 = peers@.take(i + 1);
        assert(seen2 =~= seen.push(p));
        assert forall|x: Peer| seen.contains(x) implies #[trigger] seen2.contains(x) by {
            let m = choose|m: int| 0 <= m < seen.len() && seen[m] == x;
            assert(seen2[m] == x);
        }
        assert(seen2.contains(p)) by {
            assert(seen2[i as int] == p);
        }
        if !same_id(&p.id, local) && !list_has_id(list, &p.id) {
            insert_closest(list, p, t, k);
            proof {
                let after = list@;
                assert forall|m: int| 0 <= m < after.len() implies (#[trigger] after[m]).id@ != local@ by {
                    if after[m] != p {
                        assert(before.contains(after[m]));
                        let b = choose|b: int| 0 <= b < before.len() && before[b] == after[m];
                    }
                }
                assert forall|q: Peer|
                    #![trigger o.contains(q)]
                    #![trigger seen2.contains(q)]
                    (o.contains(q) || (seen2.contains(q) && q.id@ != local@)) && !has_id(after, q.id)
                        implies after.len() == k && forall|m: int|
                    0 <= m < after.len() ==> distance((#[trigger] after[m]).id@, t@) < distance(q.id@, t@) by {
                    if q == p {
                        assert(!after.contains(p)) by {
                            if after.contains(p) {
                                let m = choose|m: int| 0 <= m < after.len() && after[m] == p;
                            }
                        }
                    } else {
                        if q != p && seen2.contains(q) {
                            let m = choose|m: int| 0 <= m < seen2.len() && seen2[m] == q;
                            assert(m < i);
                            assert(seen[m] == q);
                            assert(seen.contains(q));
                        }
                        if has_id(before, q.id) {
                            let b = choose|b: int| 0 <= b < before.len() && (#[trigger] before[b]).id@ == q.id@;
                            let y = before[b];
                            assert(before.contains(y));
                            if after.contains(y) {
                                let m = choose|m: int| 0 <= m < after.len() && after[m] == y;
                                assert(after[m].id@ == q.id@);
                            }
                            assert(distance(y.id@, t@) == distance(q.id@, t@));
                        } else {
                            assert(before.len() == k);
                            assert forall|m: int| 0 <= m < after.len() implies distance(
                                (#[trigger] after[m]).id@,
                                t@,
                            ) < distance(q.id@, t@) by {
                                if after[m] == p {
                                    assert(distance(before.last().id@, t@) < distance(q.id@, t@));
                                } else {
                                    assert(before.contains(after[m]));
                                    let b = choose|b: int| 0 <= b < before.len() && before[b] == after[m];
                                    assert(distance(before[b].id@, t@) < distance(q.id@, t@));
                                }
                            }
                        }
                    }
                }
                assert forall|x: Peer| #[trigger] after.contains(x) implies o.contains(x) || seen2.contains(x) by {
                    let m = choose|m: int| 0 <= m < after.len() && after[m] == x;
                    if x != p {
                        assert(before.contains(x));
                    }
                }
            }
        } else {
            proof {
                let after = list@;
                assert forall|q: Peer|
                    #![trigger o.contains(q)]
                    #![trigger seen2.contains(q)]
                    (o.contains(q) || (seen2.contains(q) && q.id@ != local@)) && !has_id(after, q.id)
                        implies after.len() == k && forall|m: int|
                    0 <= m < after.len() ==> distance((#[trigger] after[m]).id@, t@) < distance(q.id@, t@) by {
                    if q != p && seen2.contains(q) {
                        let m = choose|m: int| 0 <= m < seen2.len() && seen2[m] == q;
                        assert(seen[m] == q);
                        assert(seen.contains(q));
                    }
                }
                assert forall|x: Peer| #[trigger] after.contains(x) implies o.contains(x) || seen2.contains(x) by {
                    assert(o.contains(x) || seen.contains(x));
                }
            }
        }
        i = i + 1;
    }
    assert(peers@.take(i as int) =~= peers@);
    let mut fresh = false;
    let mut m: usize = 0;
    while m < list.len()
        invariant
            m <= list@.len(),
            forall|x: int| 0 <= x < old_ids@.len() ==> (#[trigger] old_ids@[x]) == o[x].id,
            old_ids@.len() == o.len(),
            fresh == exists|x: int| 0 <= x < m && !has_id(o, (#[trigger] list@[x]).id),
        decreases list@.len() - m,
    {
        if !contains_id(&old_ids, &list[m].id) {
            fresh = true;
        }
        proof {
            let id = list@[m as int].id;
            assert(id_in(old_ids@, id) <==> has_id(o, id)) by {
                if id_in(old_ids@, id) {
                    let x = choose|x: int| 0 <= x < old_ids@.len() && (#[trigger] old_ids@[x])@ == id@;
                    assert(o[x].id@ == id@);
                }
                if has_id(o, id) {
                    let x = choose|x: int| 0 <= x < o.len() && (#[trigger] o[x]).id@ == id@;
                    assert(old_ids@[x]@ == id@);
                }
            }
        }
        m = m + 1;
    }
    fresh
}

/// Identifiers of `s`, in order.
pub open spec fn ids_of(s: Seq<Peer>) -> Seq<Identifier> {
    s.map_values(|p: Peer| p.id)
}

/// Some shortlist peer may be asked.
pub open spec fn has_askable(v: LookupView) -> bool {
    exists|m: int| 0 <= m < v.shortlist.len() && askable(v)(#[trigger] v.shortlist[m])
}

/// Whether the lookup is over: nothing is awaited, and the rounds are used
/// up, or no shortlist peer is left to ask, or the last round brought no
/// peer into the shortlist.
pub open spec fn finished(v: LookupView) -> bool {
    v.in_flight.len() == 0 && (v.rounds >= MAX_ROUNDS || !has_askable(v) || (v.rounds > 0
        && !v.progress))
}

/// The identifiers of `v` other than `id`.
fn without_id(v: &Vec<Identifier>, id: &Identifier) -> (r: Vec<Identifier>)
    ensures
        r@.len() <= v@.len(),
        forall|x: Identifier| id_in(r@, x) <==> (id_in(v@, x) && x@ != id@),
{
    let mut rest: Vec<Identifier> = Vec::new();
    let mut i: usize = 0;
    while i < v.len()
        invariant
            i <= v@.len(),
            rest@.len() <= i,
            forall|j: int| 0 <= j < rest@.len() ==> (#[trigger] rest@[j])@ != id@ && id_in(v@, rest@[j]),
            forall|j: int| 0 <= j < i && (#[trigger] v@[j])@ != id@ ==> id_in(rest@, v@[j]),
        decreases v@.len() - i,
    {
        let x = v[i];
        let ghost before = rest@;
        if !same_id(&x, id) {
            rest.push(x);
            proof {
                assert forall|j: int| 0 <= j < i + 1 && (#[trigger] v@[j])@ != id@ implies id_in(rest@, v@[j]) by {
                    if j < i {
                        let m = choose|m: int| 0 <= m < before.len() && (#[trigger] before[m])@ == v@[j]@;
                        assert(rest@[m] == before[m]);
                    } else {
                        assert(rest@[rest@.len() - 1] == v@[j]);
                    }
                }
                assert(id_in(v@, x)) by {
                    assert(v@[i as int] == x);
                }
            }
        }
        i = i + 1;
    }
    proof {
        assert forall|x: Identifier| id_in(rest@, x) <==> (id_in(v@, x) && x@ != id@) by {
            if id_in(rest@, x) {
                let j = choose|j: int| 0 <= j < rest@.len() && (#[trigger] rest@[j])@ == x@;
                let m = choose|m: int| 0 <= m < v@.len() && (#[trigger] v@[m])@ == rest@[j]@;
            }
            if id_in(v@, x) && x@ != id@ {
                let m = choose|m: int| 0 <= m < v@.len() && (#[trigger] v@[m])@ == x@;
                let j = choose|j: int| 0 <= j < rest@.len() && (#[trigger] rest@[j])@ == v@[m]@;
            }
        }
    }
    rest
}

impl Lookup {
    /// The invariant holds.
    pub open spec fn wf(&self) -> bool {
        lookup_wf(self@)
    }

    /// A lookup of `target` by the node `local`, keeping `k` peers and
    /// asking `alpha` at once, seeded with `seeds` (the closest peers the
    /// local table knows).
    pub fn new(local: Identifier, target: Identifier, seeds: &Vec<Peer>, k: usize, alpha: usize) -> (r:
        Lookup)
        ensures
            r.wf(),
            r@.target == target,
            r@.local == local,
            r@.k == k,
            r@.alpha == alpha,
            merges(Seq::empty(), seeds@, r@.shortlist, target, k as nat, local),
            r@.queried == Seq::<Identifier>::empty(),
            r@.in_flight == Seq::<Identifier>::empty(),
            r@.rounds == 0,
            !r@.progress,
    {
        let mut shortlist: Vec<Peer> = Vec::new();
        merge_peers(&mut shortlist, seeds, &target, k, &local);
        Lookup {
            target,
            local,
            k,
            alpha,
            shortlist,
            queried: Vec::new(),
            in_flight: Vec::new(),
            rounds: 0,
            progress: false,
        }
    }

    /// Starts the next round: up to `alpha` shortlist peers, closest first,
    /// that were neither asked nor are awaited. They are marked asked and
    /// awaited; the caller sends each a find-node request for the target.
    /// Nothing is chosen once `MAX_ROUNDS` rounds were sent.
    pub fn next_round(&mut self) -> (r: Vec<Peer>)
        requires
            old(self).wf(),
        ensures
            final(self).wf(),
            old(self)@.rounds >= MAX_ROUNDS ==> r@.len() == 0 && final(self)@ == old(self)@,
            old(self)@.rounds < MAX_ROUNDS ==> {
                let cands = old(self)@.shortlist.filter(askable(old(self)@));
                &&& r@.len() == if cands.len() < old(self)@.alpha {
                    cands.len()
                } else {
                    old(self)@.alpha
                }
                &&& r@ == cands.take(r@.len() as int)
                &&& final(self)@ == LookupView {
                    queried: old(self)@.queried + ids_of(r@),
                    in_flight: old(self)@.in_flight + ids_of(r@),
                    rounds: if r@.len() > 0 {
                        old(self)@.rounds + 1
                    } else {
                        old(self)@.rounds
                    },
                    progress: if r@.len() > 0 {
                        false
                    } else {
                        old(self)@.progress
                    },
                    ..old(self)@
                }
            },
    {
        if self.rounds >= MAX_ROUNDS {
            return Vec::new();
        }
        let ghost v = self@;
        let mut sel: Vec<Peer> = Vec::new();
        let mut i: usize = 0;
        while i < self.shortlist.len() && sel.len() < self.alpha
            invariant
                self@ == v,
                i <= v.shortlist.len(),
                sel@.len() <= v.alpha,
                sel@ == v.shortlist.take(i as int).filter(askable(v)),
            decreases v.shortlist.len() - i,
        {
            let p = self.shortlist[i];
            proof {
                assert(self.queried@ == v.queried && self.in_flight@ == v.in_flight);
                assert(askable(v)(p) == (!id_in(v.queried, p.id) && !id_in(v.in_flight, p.id)));
                v.shortlist.take(i as int).lemma_filter_push(p, askable(v));
                assert(v.shortlist.take(i + 1) =~= v.shortlist.take(i as int).push(p));
            }
            if !contains_id(&self.queried, &p.id) && !contains_id(&self.in_flight, &p.id) {
                sel.push(p);
            }
            i = i + 1;
        }
        proof {
            let cands = v.shortlist.filter(askable(v));
            let front = v.shortlist.take(i as int);
            let back = v.shortlist.skip(i as int);
            assert(front + back =~= v.shortlist);
            Seq::filter_distributes_over_add(front, back, askable(v));
            assert(cands == front.filter(askable(v)) + back.filter(askable(v)));
            assert(cands.take(sel@.len() as int) =~= sel@);
        }
        let mut m: usize = 0;
        while m < sel.len()
            invariant
                m <= sel@.len(),
                self.shortlist@ == v.shortlist,
                self.target == v.target,
                self.local == v.local,
                self.k == v.k,
                self.alpha == v.alpha,
                self.rounds == v.rounds,
                self.progress == v.progress,
                self.queried@ == v.queried + ids_of(sel@.take(m as int)),
                self.in_flight@ == v.in_flight + ids_of(sel@.take(m as int)),
            decreases sel@.len() - m,
        {
            let id = sel[m].id;
            self.queried.push(id);
            self.in_flight.push(id);
            assert(ids_of(sel@.take(m + 1)) =~= ids_of(sel@.take(m as int)).push(id));
            m = m + 1;
        }
        assert(sel@.take(m as int) =~= sel@);
        if sel.len() > 0 {
            self.rounds = self.rounds + 1;
            self.progress = false;
        }
        sel
    }

    /// The response, or failure (`None`), of the peer `from`: it is no longer
    /// awaited, and the peers it returned are merged into the shortlist. The
    /// round has made progress once a response brings in an identifier the
    /// shortlist did not hold.
    pub fn on_response(&mut self, from: &Identifier, reply: Option<Vec<Peer>>)
        requires
            old(self).wf(),
        ensures
            final(self).wf(),
            forall|x: Identifier|
                id_in(final(self)@.in_flight, x) <==> (id_in(old(self)@.in_flight, x) && x@ != from@),
            final(self)@.in_flight.len() <= old(self)@.in_flight.len(),
            final(self)@.target == old(self)@.target,
            final(self)@.local == old(self)@.local,
            final(self)@.k == old(self)@.k,
            final(self)@.alpha == old(self)@.alpha,
            final(self)@.queried == old(self)@.queried,
            final(self)@.rounds == old(self)@.rounds,
            reply is None ==> final(self)@.shortlist == old(self)@.shortlist && final(self)@.progress
                == old(self)@.progress,
            reply is Some ==> merges(
                old(self)@.shortlist,
                reply->0@,
                final(self)@.shortlist,
                old(self)@.target,
                old(self)@.k,
                old(self)@.local,
            ) && final(self)@.progress == (old(self)@.progress || exists|m: int|
                0 <= m < final(self)@.shortlist.len() && !has_id(
                    old(self)@.shortlist,
                    (#[trigger] final(self)@.shortlist[m]).id,
                )),
    {
        let rest = without_id(&self.in_flight, from);
        self.in_flight = rest;
        if let Some(peers) = reply {
            let fresh = merge_peers(&mut self.shortlist, &peers, &self.target, self.k, &self.local);
            self.progress = self.progress || fresh;
        }
    }

    /// Whether the lookup is over.
    pub fn is_finished(&self) -> (r: bool)
        ensures
            r == finished(self@),
    {
        if self.in_flight.len() != 0 {
            return false;
        }
        if self.rounds >= MAX_ROUNDS {
            return true;
        }
        if self.rounds > 0 && !self.progress {
            return true;
        }
        let ghost v = self@;
        let mut m: usize = 0;
        while m < self.shortlist.len()
            invariant
                self@ == v,
                v.in_flight.len() == 0,
                v.rounds < MAX_ROUNDS,
                !(v.rounds > 0 && !v.progress),
                m <= v.shortlist.len(),
                forall|x: int| 0 <= x < m ==> !askable(v)(#[trigger] v.shortlist[x]),
            decreases v.shortlist.len() - m,
        {
            let id = self.shortlist[m].id;
            if !contains_id(&self.queried, &id) && !contains_id(&self.in_flight, &id) {
                proof {
                    assert(self.queried@ == v.queried && self.in_flight@ == v.in_flight);
                    assert(askable(v)(v.shortlist[m as int]));
                    assert(has_askable(v));
                }
                return false;
            }
            m = m + 1;
        }
        true
    }

    /// The peers found: the shortlist, in ascending distance to the target.
    pub fn result(&self) -> (r: Vec<Peer>)
        ensures
            r@ == self@.shortlist,
    {
        let mut r: Vec<Peer> = Vec::new();
        let mut m: usize = 0;
        while m < self.shortlist.len()
            invariant
                m <= self.shortlist@.len(),
                r@ == self.shortlist@.take(m as int),
            decreases self.shortlist@.len() - m,
        {
            r.push(self.shortlist[m]);
            assert(self.shortlist@.take(m + 1) =~= self.shortlist@.take(m as int).push(self.shortlist@[m as int]));
            m = m + 1;
        }
        assert(self.shortlist@.take(m as int) =~= self.shortlist@);
        r
    }

    /// Number of rounds sent.
    pub fn rounds(&self) -> (r: u32)
        ensures
            r == self@.rounds,
    {
        self.rounds
    }
}

} // verus!
