//! The routing table: 256 buckets of peers, indexed by XOR distance from the
//! local identifier (bucket 0 holds distance 1, bucket 255 the largest
//! distances).

use crate::id::{
    bucket_index, closer, distance, is_bucket_of, lemma_bucket_index_range, lemma_bucket_unique,
    lemma_distance_injective,
    same_id, xor_bucket_index, Identifier,
};
use crate::node::{Peer, K, MAX_BUCKETS};
use vstd::prelude::*;

verus! {

/// The peers of one distance class, in the order they were added.
pub struct Bucket {
    peers: Vec<Peer>,
}

/// A routing table owned by the node `id`.
pub struct KbucketTable {
    id: Identifier,
    limit: usize,
    buckets: Vec<Bucket>,
}

/// Value of a routing table: its owner, the capacity of each bucket, and the
/// peers of each bucket in insertion order.
pub struct TableView {
    pub local: Identifier,
    pub limit: nat,
    pub buckets: Seq<Seq<Peer>>,
}

impl View for Bucket {
    type V = Seq<Peer>;

    closed spec fn view(&self) -> Seq<Peer> {
        self.peers@
    }
}

impl View for KbucketTable {
    type V = TableView;

    closed spec fn view(&self) -> TableView {
        TableView {
            local: self.id,
            limit: self.limit as nat,
            buckets: Seq::new(self.buckets@.len(), |i: int| self.buckets@[i]@),
        }
    }
}

/// Some peer of `s` has identifier `id`.
pub open spec fn has_id(s: Seq<Peer>, id: Identifier) -> bool {
    exists|j: int| 0 <= j < s.len() && (#[trigger] s[j]).id@ == id@
}

/// `p` is one of the peers of the table.
pub open spec fn table_has(v: TableView, p: Peer) -> bool {
    exists|i: int, j: int|
        0 <= i < v.buckets.len() && 0 <= j < v.buckets[i].len() && #[trigger] v.buckets[i][j] == p
}

/// The invariant of a routing table: 256 buckets, each within capacity,
/// holding only peers of its own distance class, never the owner, and no
/// identifier twice.
pub open spec fn table_wf(v: TableView) -> bool {
    &&& v.buckets.len() == 256
    &&& forall|i: int| 0 <= i < 256 ==> (#[trigger] v.buckets[i]).len() <= v.limit
    &&& forall|i: int, j: int|
        0 <= i < 256 && 0 <= j < v.buckets[i].len() ==> (#[trigger] v.buckets[i][j]).id@
            != v.local@ && is_bucket_of(i, distance(v.local@, v.buckets[i][j].id@))
    &&& forall|i: int, j1: int, j2: int|
        0 <= i < 256 && 0 <= j1 < v.buckets[i].len() && 0 <= j2 < v.buckets[i].len() && j1 != j2
            ==> (#[trigger] v.buckets[i][j1]).id@ != (#[trigger] v.buckets[i][j2]).id@
}

/// Whether `add` takes `p`: not the owner, not yet known, and its bucket
/// has room.
pub open spec fn accepts(v: TableView, p: Peer) -> bool {
    let b = bucket_index(v.local@, p.id@);
    p.id@ != v.local@ && !has_id(v.buckets[b], p.id) && v.buckets[b].len() < v.limit
}

/// The table after `add(p)`: `p` appended to its bucket when accepted,
/// otherwise unchanged.
pub open spec fn add_spec(v: TableView, p: Peer) -> TableView {
    if accepts(v, p) {
        let b = bucket_index(v.local@, p.id@);
        TableView { local: v.local, limit: v.limit, buckets: v.buckets.update(b, v.buckets[b].push(p)) }
    } else {
        v
    }
}

/// The table after adding the peers of `s` one after the other.
pub open spec fn add_all(v: TableView, s: Seq<Peer>) -> TableView
    decreases s.len(),
{
    if s.len() == 0 {
        v
    } else {
        add_spec(add_all(v, s.drop_last()), s.last())
    }
}

/// What `add` does: `r` tells whether `p` was taken, and `after` is the
/// table that results.
pub open spec fn adds(before: TableView, p: Peer, after: TableView, r: bool) -> bool {
    r == accepts(before, p) && after == add_spec(before, p)
}

/// What `get` returns: the known peer with identifier `id`, if any.
pub open spec fn gets(v: TableView, id: Identifier, r: Option<Peer>) -> bool {
    if id@ == v.local@ {
        r is None
    } else {
        let b = bucket_index(v.local@, id@);
        &&& (r is Some <==> has_id(v.buckets[b], id))
        &&& r is Some ==> r->0.id == id && v.buckets[b].contains(r->0)
    }
}

/// `r` is the answer to a query for the `n` peers satisfying `has` that are
/// closest to `t`: such peers in strictly ascending distance to `t`, at most
/// `n` of them, and every such peer left out is farther than all of them and
/// was left out only because `n` were found.
pub open spec fn closest_among(has: spec_fn(Peer) -> bool, t: Identifier, n: nat, r: Seq<Peer>) -> bool {
    &&& r.len() <= n
    &&& forall|k: int| 0 <= k < r.len() ==> has(#[trigger] r[k])
    &&& forall|k1: int, k2: int|
        0 <= k1 < k2 < r.len() ==> distance((#[trigger] r[k1]).id@, t@) < distance(
            (#[trigger] r[k2]).id@,
            t@,
        )
    &&& forall|q: Peer|
        #[trigger] has(q) && !r.contains(q) ==> r.len() == n && forall|k: int|
            0 <= k < r.len() ==> distance((#[trigger] r[k]).id@, t@) < distance(q.id@, t@)
}

/// `r` answers a query for the `n` peers of `v` closest to `t`.
pub open spec fn closest_of(v: TableView, t: Identifier, n: nat, r: Seq<Peer>) -> bool {
    closest_among(|p: Peer| table_has(v, p), t, n, r)
}

/// `r` answers a query for the `n` peers of `v` closest to `t`, leaving out
/// the peer with identifier `skip`.
pub open spec fn closest_except(v: TableView, t: Identifier, n: nat, skip: Identifier, r: Seq<Peer>) -> bool {
    closest_among(|p: Peer| table_has(v, p) && p.id@ != skip@, t, n, r)
}

/// No two members of `s` share an identifier.
pub open spec fn ids_distinct(s: Seq<Peer>) -> bool {
    forall|i: int, j: int|
        0 <= i < s.len() && 0 <= j < s.len() && i != j ==> (#[trigger] s[i]).id@ != (#[trigger] s[
            j]).id@
}

/// `p` is one of the peers of the buckets below `i`.
pub open spec fn in_buckets_below(v: TableView, i: int, p: Peer) -> bool {
    exists|a: int, b: int|
        0 <= a < i && 0 <= b < v.buckets[a].len() && #[trigger] v.buckets[a][b] == p
}

/// Strictly ascending distance to `t`.
pub open spec fn ascending(s: Seq<Peer>, t: Identifier) -> bool {
    forall|k1: int, k2: int|
        0 <= k1 < k2 < s.len() ==> distance((#[trigger] s[k1]).id@, t@) < distance(
            (#[trigger] s[k2]).id@,
            t@,
        )
}

/// Puts `p` into `r`, which stays in strictly ascending distance to `t` and
/// at most `n` long: the farthest peer drops out when `r` overflows.
pub(crate) fn insert_closest(r: &mut Vec<Peer>, p: Peer, t: &Identifier, n: usize)
    requires
        ascending(old(r)@, *t),
        old(r)@.len() <= n,
        forall|k: int| 0 <= k < old(r)@.len() ==> (#[trigger] old(r)@[k]).id@ != p.id@,
    ensures
        ascending(final(r)@, *t),
        final(r)@.len() == if old(r)@.len() < n {
            old(r)@.len() + 1
        } else {
            n as nat
        },
        forall|k: int|
            0 <= k < final(r)@.len() ==> #[trigger] final(r)@[k] == p
                || old(r)@.contains(final(r)@[k]),
        forall|q: Peer|
            (q == p || old(r)@.contains(q)) && !(#[trigger] final(r)@.contains(q))
                ==> final(r)@.len() == n && forall|k: int|
                0 <= k < final(r)@.len() ==> distance((#[trigger] final(r)@[k]).id@, t@)
                    < distance(q.id@, t@),
        final(r)@.contains(p) ==> old(r)@.len() < n || distance(p.id@, t@) < distance(
            old(r)@.last().id@,
            t@,
        ),
{
    let ghost o = r@;
    let mut pos: usize = 0;
    while pos < r.len() && closer(&r[pos].id, &p.id, t)
        invariant
            r@ == o,
            pos <= r@.len(),
            forall|k: int| 0 <= k < pos ==> distance((#[trigger] o[k]).id@, t@) < distance(
                p.id@,
                t@,
            ),
        decreases r@.len() - pos,
    {
        pos = pos + 1;
    }
    if pos >= n {
        assert forall|q: Peer| (q == p || o.contains(q)) && !(#[trigger] r@.contains(q)) implies r@.len()
            == n && forall|k: int|
            0 <= k < r@.len() ==> distance((#[trigger] r@[k]).id@, t@) < distance(q.id@, t@) by {
            if q != p {
                let j = choose|j: int| 0 <= j < o.len() && o[j] == q;
                assert(r@.contains(o[j]));
            }
        }
        return;
    }
    if pos < r.len() {
        let ghost x = o[pos as int];
        assert(distance(x.id@, t@) != distance(p.id@, t@)) by {
            if distance(x.id@, t@) == distance(p.id@, t@) {
                lemma_distance_injective(x.id@, p.id@, t@);
            }
        }
    }
    r.insert(pos, p);
    let ghost r1 = r@;
    assert(ascending(r1, *t)) by {
        assert forall|k1: int, k2: int| 0 <= k1 < k2 < r1.len() implies distance(
            (#[trigger] r1[k1]).id@,
            t@,
        ) < distance((#[trigger] r1[k2]).id@, t@) by {
            if k2 < pos {
            } else if k2 == pos {
            } else if k1 < pos {
                assert(r1[k2] == o[k2 - 1]);
                if k2 - 1 > pos {
                    assert(distance(o[pos as int].id@, t@) < distance(o[k2 - 1].id@, t@));
                }
            } else if k1 == pos {
                assert(r1[k2] == o[k2 - 1]);
                if k2 - 1 > pos {
                    assert(distance(o[pos as int].id@, t@) < distance(o[k2 - 1].id@, t@));
                }
            } else {
                assert(r1[k1] == o[k1 - 1]);
                assert(r1[k2] == o[k2 - 1]);
            }
        }
    }
    if r.len() > n {
        r.pop();
    }
    let ghost r2 = r@;
    assert(r2 =~= r1.take(r2.len() as int));
    assert forall|k: int| 0 <= k < r2.len() implies #[trigger] r2[k] == p || o.contains(r2[k]) by {
        if k < pos {
            assert(r2[k] == o[k]);
        } else if k > pos {
            assert(r2[k] == o[k - 1]);
        }
    }
    assert forall|q: Peer| (q == p || o.contains(q)) && !(#[trigger] r2.contains(q)) implies r2.len()
        == n && forall|k: int|
        0 <= k < r2.len() ==> distance((#[trigger] r2[k]).id@, t@) < distance(q.id@, t@) by {
        if q == p {
            assert(r2[pos as int] == p);
        } else {
            let j = choose|j: int| 0 <= j < o.len() && o[j] == q;
            if j < pos {
                assert(r2[j] == q);
            } else if j + 1 < r2.len() {
                assert(r2[j + 1] == q);
            } else {
                assert(r1[j + 1] == q);
                assert(r1.len() == n + 1);
                assert forall|k: int| 0 <= k < r2.len() implies distance(
                    (#[trigger] r2[k]).id@,
                    t@,
                ) < distance(q.id@, t@) by {
                    assert(r1[k] == r2[k]);
                }
            }
        }
    }
    proof {
        if o.len() == n && r2.contains(p) {
            assert(distance(p.id@, t@) < distance(o[pos as int].id@, t@));
            if (pos as int) < o.len() - 1 {
                assert(distance(o[pos as int].id@, t@) < distance(o.last().id@, t@));
            }
        }
    }
}

/// The `n` members of `all` closest to `t`, in ascending distance.
fn select_closest(all: &Vec<Peer>, t: &Identifier, n: usize) -> (r: Vec<Peer>)
    requires
        ids_distinct(all@),
    ensures
        closest_among(|p: Peer| all@.contains(p), *t, n as nat, r@),
{
    let mut r: Vec<Peer> = Vec::new();
    let mut i: usize = 0;
    while i < all.len()
        invariant
            i <= all@.len(),
            ids_distinct(all@),
            closest_among(|p: Peer| all@.take(i as int).contains(p), *t, n as nat, r@),
        decreases all@.len() - i,
    {
        let p = all[i];
        let ghost seen = all@.take(i as int);
        let ghost o = r@;
        assert forall|k: int| 0 <= k < o.len() implies (#[trigger] o[k]).id@ != p.id@ by {
            assert(seen.contains(o[k]));
            let j = choose|j: int| 0 <= j < seen.len() && seen[j] == o[k];
            assert(all@[j] == o[k]);
        }
        insert_closest(&mut r, p, t, n);
        let ghost seen2 = all@.take(i + 1);
        assert(seen2 =~= seen.push(p));
        assert forall|k: int| 0 <= k < r@.len() implies seen2.contains(#[trigger] r@[k]) by {
            if r@[k] == p {
                assert(seen2[i as int] == p);
            } else {
                assert(o.contains(r@[k]));
                let j = choose|j: int| 0 <= j < seen.len() && seen[j] == r@[k];
                assert(seen2[j] == r@[k]);
            }
        }
        assert forall|q: Peer| #[trigger] seen2.contains(q) && !r@.contains(q) implies r@.len() == n
            && forall|k: int|
            0 <= k < r@.len() ==> distance((#[trigger] r@[k]).id@, t@) < distance(q.id@, t@) by {
            let j = choose|j: int| 0 <= j < seen2.len() && seen2[j] == q;
            if j < i {
                assert(seen[j] == q);
                assert(seen.contains(q));
                let hs = |x: Peer| all@.take(i as int).contains(x);
                assert(hs(q));
                if !o.contains(q) {
                    assert forall|k: int| 0 <= k < r@.len() implies distance(
                        (#[trigger] r@[k]).id@,
                        t@,
                    ) < distance(q.id@, t@) by {
                        if r@[k] != p {
                            let m = choose|m: int| 0 <= m < o.len() && o[m] == r@[k];
                            assert(distance(o[m].id@, t@) < distance(q.id@, t@));
                        } else {
                            assert(distance(o.last().id@, t@) < distance(q.id@, t@));
                        }
                    }
                }
            }
        }
        i = i + 1;
    }
    assert(all@.take(i as int) =~= all@);
    r
}

impl Bucket {
    /// Index of the peer with identifier `id`, if the bucket holds one.
    fn position(&self, id: &Identifier) -> (r: Option<usize>)
        ensures
            r is Some ==> r->0 < self@.len() && self@[r->0 as int].id@ == id@,
            r is None ==> !has_id(self@, *id),
    {
        let mut j: usize = 0;
        while j < self.peers.len()
            invariant
                j <= self.peers@.len(),
                forall|m: int| 0 <= m < j ==> (#[trigger] self.peers@[m]).id@ != id@,
            decreases self.peers@.len() - j,
        {
            if same_id(&self.peers[j].id, id) {
                return Some(j);
            }
            j = j + 1;
        }
        None
    }
}

impl KbucketTable {
    /// The table's invariant holds.
    pub open spec fn wf(&self) -> bool {
        table_wf(self@)
    }

    /// An empty table owned by `id`, with buckets of capacity `K`.
    pub fn new(id: Identifier) -> (r: Self)
        ensures
            r.wf(),
            r@.local == id,
            r@.limit == K,
            r@.buckets == Seq::new(256, |i: int| Seq::<Peer>::empty()),
    {
        Self::with_limit(id, K)
    }

    /// An empty table owned by `id`, with buckets of capacity `limit`.
    pub fn with_limit(id: Identifier, limit: usize) -> (r: Self)
        ensures
            r.wf(),
            r@.local == id,
            r@.limit == limit,
            r@.buckets == Seq::new(256, |i: int| Seq::<Peer>::empty()),
    {
        let mut buckets: Vec<Bucket> = Vec::new();
        let mut i: usize = 0;
        while i < MAX_BUCKETS
            invariant
                i <= 256,
                buckets@.len() == i,
                forall|m: int| 0 <= m < i ==> (#[trigger] buckets@[m])@ == Seq::<Peer>::empty(),
            decreases 256 - i,
        {
            buckets.push(Bucket { peers: Vec::new() });
            i = i + 1;
        }
        let r = KbucketTable { id, limit, buckets };
        assert(r@.buckets =~= Seq::new(256, |i: int| Seq::<Peer>::empty()));
        r
    }

    /// The owner's identifier.
    pub fn local_id(&self) -> (r: Identifier)
        ensures
            r == self@.local,
    {
        self.id
    }

    /// Adds `peer` to its bucket. Returns false, changing nothing, when the
    /// peer is the owner, is already known, or its bucket is full.
    pub fn add(&mut self, peer: Peer) -> (r: bool)
        requires
            old(self).wf(),
        ensures
            final(self).wf(),
            adds(old(self)@, peer, final(self)@, r),
    {
        if same_id(&peer.id, &self.id) {
            return false;
        }
        let b = xor_bucket_index(&self.id, &peer.id);
        if self.buckets[b].position(&peer.id).is_some() {
            return false;
        }
        if self.buckets[b].peers.len() >= self.limit {
            return false;
        }
        let ghost v0 = self@;
        self.buckets[b].peers.push(peer);
        proof {
            let v1 = self@;
            let target = TableView {
                local: v0.local,
                limit: v0.limit,
                buckets: v0.buckets.update(b as int, v0.buckets[b as int].push(peer)),
            };
            assert(v1.buckets =~= target.buckets);
            assert forall|i: int, j1: int, j2: int|
                0 <= i < 256 && 0 <= j1 < v1.buckets[i].len() && 0 <= j2 < v1.buckets[i].len()
                    && j1 != j2 implies (#[trigger] v1.buckets[i][j1]).id@
                != (#[trigger] v1.buckets[i][j2]).id@ by {
                if i == b {
                    let last = v0.buckets[i].len() as int;
                    if j1 == last {
                        assert(v0.buckets[i][j2] == v1.buckets[i][j2]);
                    } else if j2 == last {
                        assert(v0.buckets[i][j1] == v1.buckets[i][j1]);
                    } else {
                        assert(v0.buckets[i][j1] == v1.buckets[i][j1]);
                        assert(v0.buckets[i][j2] == v1.buckets[i][j2]);
                    }
                }
            }
            assert forall|i: int, j: int| 0 <= i < 256 && 0 <= j < v1.buckets[i].len() implies (
            #[trigger] v1.buckets[i][j]).id@ != v1.local@ && is_bucket_of(
                i,
                distance(v1.local@, v1.buckets[i][j].id@),
            ) by {
                if i == b && j == v0.buckets[i].len() {
                } else {
                    assert(v1.buckets[i][j] == v0.buckets[i][j]);
                }
            }
        }
        true
    }

    /// Adds the peers of `peers` one after the other.
    pub fn add_peers(&mut self, peers: &Vec<Peer>)
        requires
            old(self).wf(),
        ensures
            final(self).wf(),
            final(self)@ == add_all(old(self)@, peers@),
    {
        let ghost v0 = self@;
        let mut i: usize = 0;
        while i < peers.len()
            invariant
                i <= peers@.len(),
                self.wf(),
                self@ == add_all(v0, peers@.take(i as int)),
            decreases peers@.len() - i,
        {
            self.add(peers[i]);
            assert(peers@.take(i + 1).drop_last() =~= peers@.take(i as int));
            i = i + 1;
        }
        assert(peers@.take(i as int) =~= peers@);
    }

    /// The known peer with identifier `id`, if any.
    pub fn get(&self, id: &Identifier) -> (r: Option<Peer>)
        requires
            self.wf(),
        ensures
            gets(self@, *id, r),
    {
        if same_id(id, &self.id) {
            return None;
        }
        let b = xor_bucket_index(&self.id, id);
        match self.buckets[b].position(id) {
            Some(j) => {
                let found = self.buckets[b].peers[j];
                let p = Peer { id: *id, socket_addr: found.socket_addr };
                proof {
                    broadcast use vstd::array::group_array_axioms;

                    assert(found.id =~= *id);
                    assert(self@.buckets[b as int][j as int] == p);
                }
                Some(p)
            },
            None => None,
        }
    }

    /// All peers of the table, bucket after bucket.
    fn all_peers(&self) -> (r: Vec<Peer>)
        requires
            self.wf(),
        ensures
            ids_distinct(r@),
            forall|p: Peer| #[trigger] r@.contains(p) <==> table_has(self@, p),
    {
        let ghost v = self@;
        let mut r: Vec<Peer> = Vec::new();
        let mut i: usize = 0;
        while i < self.buckets.len()
            invariant
                v == self@,
                table_wf(v),
                i <= 256,
                self.buckets@.len() == 256,
                ids_distinct(r@),
                forall|k: int|
                    0 <= k < r@.len() ==> in_buckets_below(v, i as int, #[trigger] r@[k]),
                forall|a: int, b: int|
                    0 <= a < i && 0 <= b < v.buckets[a].len() ==> r@.contains(#[trigger] v.buckets[a][b]),
            decreases 256 - i,
        {
            let bucket = &self.buckets[i];
            assert(bucket@ == v.buckets[i as int]);
            let ghost r0 = r@;
            assert forall|k: int| 0 <= k < r0.len() implies in_buckets_below(v, i as int, #[trigger] r0[k]) by {
                assert(r0[k] == r@[k]);
            }
            assert forall|a: int, b: int|
                0 <= a < i && 0 <= b < v.buckets[a].len() implies r0.contains(#[trigger] v.buckets[a][b]) by {
                assert(r@.contains(v.buckets[a][b]));
            }
            let mut j: usize = 0;
            while j < bucket.peers.len()
                invariant
                    v == self@,
                    table_wf(v),
                    i < 256,
                    bucket@ == v.buckets[i as int],
                    j <= bucket@.len(),
                    ids_distinct(r@),
                    r0 == r@.take(r0.len() as int),
                    r@.len() == r0.len() + j,
                    forall|k: int|
                        0 <= k < r0.len() ==> in_buckets_below(v, i as int, #[trigger] r0[k]),
                    forall|k: int| 0 <= k < j ==> r@[r0.len() + k] == bucket@[k],
                    forall|a: int, b: int|
                        0 <= a < i && 0 <= b < v.buckets[a].len() ==> r0.contains(#[trigger] v.buckets[a][b]),
                decreases bucket@.len() - j,
            {
                let p = bucket.peers[j];
                proof {
                    assert forall|k: int| 0 <= k < r@.len() implies (#[trigger] r@[k]).id@ != p.id@ by {
                        if k < r0.len() {
                            assert(r0[k] == r@[k]);
                            let (a, b) = choose|a: int, b: int|
                                0 <= a < i && 0 <= b < v.buckets[a].len() && v.buckets[a][b] == r0[k];
                            if r@[k].id@ == p.id@ {
                                let d = distance(v.local@, p.id@);
                                assert(v.buckets[i as int][j as int] == p);
                                lemma_bucket_unique(a, i as int, d);
                            }
                        } else {
                            let m = k - r0.len();
                            assert(r@[r0.len() + m] == bucket@[m]);
                            assert(r@[k] == v.buckets[i as int][m]);
                            assert(v.buckets[i as int][j as int] == p);
                        }
                    }
                }
                r.push(p);
                j = j + 1;
                assert(r0 =~= r@.take(r0.len() as int));
            }
            proof {
                assert forall|k: int| 0 <= k < r@.len() implies in_buckets_below(v, i + 1, #[trigger] r@[k]) by {
                    if k < r0.len() {
                        assert(r0[k] == r@[k]);
                        let (a, b) = choose|a: int, b: int|
                            0 <= a < i && 0 <= b < v.buckets[a].len() && v.buckets[a][b] == r0[k];
                        assert(v.buckets[a][b] == r@[k]);
                    } else {
                        let m = k - r0.len();
                        assert(r@[r0.len() + m] == bucket@[m]);
                        assert(v.buckets[i as int][m] == r@[k]);
                    }
                }
                assert forall|a: int, b: int|
                    0 <= a < i + 1 && 0 <= b < v.buckets[a].len() implies r@.contains(#[trigger] v.buckets[a][b]) by {
                    if a < i {
                        assert(r0.contains(v.buckets[a][b]));
                        let k = choose|k: int| 0 <= k < r0.len() && r0[k] == v.buckets[a][b];
                        assert(r@[k] == r0[k]);
                    } else {
                        assert(r@[r0.len() + b] == bucket@[b]);
                        assert(r@[r0.len() + b] == v.buckets[a][b]);
                    }
                }
            }
            i = i + 1;
        }
        proof {
            assert forall|p: Peer| #[trigger] r@.contains(p) <==> table_has(v, p) by {
                if r@.contains(p) {
                    let k = choose|k: int| 0 <= k < r@.len() && r@[k] == p;
                    let (a, b) = choose|a: int, b: int|
                        0 <= a < 256 && 0 <= b < v.buckets[a].len() && v.buckets[a][b] == r@[k];
                    assert(v.buckets[a][b] == p);
                }
                if table_has(v, p) {
                    let (a, b) = choose|a: int, b: int|
                        0 <= a < v.buckets.len() && 0 <= b < v.buckets[a].len() && v.buckets[a][b] == p;
                    assert(r@.contains(v.buckets[a][b]));
                }
            }
        }
        r
    }

    /// The `x` known peers closest to `id`, in ascending XOR distance to it.
    /// Fewer are returned only when the table holds fewer; an empty table
    /// gives an empty list. The table is not changed.
    pub fn get_closest_nodes(&self, id: &Identifier, x: usize) -> (r: Vec<Peer>)
        requires
            self.wf(),
        ensures
            closest_of(self@, *id, x as nat, r@),
    {
        let all = self.all_peers();
        let r = select_closest(&all, id, x);
        proof {
            let h1 = |p: Peer| all@.contains(p);
            let h2 = |p: Peer| table_has(self@, p);
            assert forall|p: Peer| #[trigger] h1(p) == h2(p) by {}
            assert(h1 =~= h2);
        }
        r
    }

    /// As `get_closest_nodes`, leaving out the peer with identifier `skip`
    /// (the requester of a lookup).
    pub fn get_closest_nodes_excluding(&self, id: &Identifier, x: usize, skip: &Identifier) -> (r: Vec<
        Peer,
    >)
        requires
            self.wf(),
        ensures
            closest_except(self@, *id, x as nat, *skip, r@),
    {
        let all = self.all_peers();
        let mut kept: Vec<Peer> = Vec::new();
        let mut i: usize = 0;
        while i < all.len()
            invariant
                i <= all@.len(),
                ids_distinct(all@),
                forall|k: int| 0 <= k < kept@.len() ==> #[trigger] kept@[k].id@ != skip@,
                forall|p: Peer|
                    #[trigger] kept@.contains(p) <==> (all@.take(i as int).contains(p) && p.id@
                        != skip@),
                forall|k: int|
                    0 <= k < kept@.len() ==> exists|m: int|
                        0 <= m < i && all@[m] == #[trigger] kept@[k],
                ids_distinct(kept@),
            decreases all@.len() - i,
        {
            let p = all[i];
            let ghost before = kept@;
            if !same_id(&p.id, skip) {
                proof {
                    assert forall|k: int| 0 <= k < before.len() implies (#[trigger] before[k]).id@
                        != p.id@ by {
                        let m = choose|m: int| 0 <= m < i && all@[m] == before[k];
                    }
                }
                kept.push(p);
                assert forall|k: int| 0 <= k < kept@.len() implies exists|m: int|
                    0 <= m < i + 1 && all@[m] == #[trigger] kept@[k] by {
                    if k < before.len() {
                        assert(kept@[k] == before[k]);
                    } else {
                        assert(all@[i as int] == kept@[k]);
                    }
                }
            }
            assert(all@.take(i + 1) =~= all@.take(i as int).push(p));
            let ghost seen2 = all@.take(i + 1);
            assert forall|q: Peer| #[trigger] kept@.contains(q) implies seen2.contains(q) && q.id@
                != skip@ by {
                let k = choose|k: int| 0 <= k < kept@.len() && kept@[k] == q;
                if k < before.len() {
                    assert(before[k] == q);
                    assert(before.contains(q));
                    let m = choose|m: int| 0 <= m < i && all@.take(i as int)[m] == q;
                    assert(seen2[m] == q);
                } else {
                    assert(seen2[i as int] == q);
                }
            }
            assert forall|q: Peer| seen2.contains(q) && q.id@ != skip@ implies #[trigger] kept@.contains(
                q,
            ) by {
                let m = choose|m: int| 0 <= m < seen2.len() && seen2[m] == q;
                if m < i {
                    assert(all@.take(i as int)[m] == seen2[m]);
                    assert(all@.take(i as int).contains(q));
                    assert(before.contains(q));
                    let k = choose|k: int| 0 <= k < before.len() && before[k] == q;
                    assert(kept@[k] == q);
                } else {
                    assert(kept@[kept@.len() - 1] == q);
                }
            }
            i = i + 1;
        }
        assert(all@.take(i as int) =~= all@);
        let r = select_closest(&kept, id, x);
        proof {
            let h1 = |p: Peer| kept@.contains(p);
            let h2 = |p: Peer| table_has(self@, p) && p.id@ != skip@;
            assert forall|p: Peer| #[trigger] h1(p) == h2(p) by {}
            assert(h1 =~= h2);
        }
        r
    }
}

/// A peer that `add` accepted is then found by `get` under its identifier,
/// with its endpoint.
pub proof fn lemma_add_then_get(
    before: TableView,
    p: Peer,
    after: TableView,
    added: bool,
    got: Option<Peer>,
)
    requires
        table_wf(before),
        adds(before, p, after, added),
        added,
        gets(after, p.id, got),
    ensures
        got == Some(p),
{
    let b = bucket_index(before.local@, p.id@);
    lemma_bucket_index_range(before.local@, p.id@);
    let last = before.buckets[b].len() as int;
    assert(after.buckets[b] == before.buckets[b].push(p));
    assert(after.buckets[b][last] == p);
    let q = got->0;
    let j = choose|j: int| 0 <= j < after.buckets[b].len() && after.buckets[b][j] == q;
    if j != last {
        assert(before.buckets[b][j] == q);
        assert(has_id(before.buckets[b], p.id));
    }
}

/// A closest query lists no peer twice, in ascending distance to the
/// target, and lists the smallest distances of the table: a peer it leaves
/// out is farther than every peer it lists, and peers are left out only when
/// the answer is full.
pub proof fn lemma_closest_query(v: TableView, t: Identifier, n: nat, r: Seq<Peer>)
    requires
        closest_of(v, t, n, r),
    ensures
        r.no_duplicates(),
        forall|k1: int, k2: int|
            0 <= k1 <= k2 < r.len() ==> distance((#[trigger] r[k1]).id@, t@) <= distance(
                (#[trigger] r[k2]).id@,
                t@,
            ),
        forall|q: Peer, k: int|
            #![trigger table_has(v, q), r[k]]
            table_has(v, q) && !r.contains(q) && 0 <= k < r.len() ==> distance(r[k].id@, t@)
                < distance(q.id@, t@),
        r.len() < n ==> forall|q: Peer| table_has(v, q) ==> #[trigger] r.contains(q),
{
    let has = |p: Peer| table_has(v, p);
    assert forall|q: Peer| table_has(v, q) && !r.contains(q) implies r.len() == n && forall|k: int|
        0 <= k < r.len() ==> distance((#[trigger] r[k]).id@, t@) < distance(q.id@, t@) by {
        assert(has(q));
    }
    assert forall|k1: int, k2: int| 0 <= k1 < r.len() && 0 <= k2 < r.len() && k1 != k2 implies r[k1]
        != r[k2] by {
        if k1 < k2 {
            assert(distance(r[k1].id@, t@) < distance(r[k2].id@, t@));
        } else {
            assert(distance(r[k2].id@, t@) < distance(r[k1].id@, t@));
        }
    }
}

} // verus!
