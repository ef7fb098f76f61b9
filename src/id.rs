//! 256-bit identifiers and the XOR metric between them.

use vstd::arithmetic::mul::*;
use vstd::arithmetic::power2::*;
use vstd::prelude::*;

verus! {

/// A node identifier: 32 bytes, octet 0 most significant.
pub type Identifier = [u8; 32];

/// Unsigned big-endian value of a byte string.
pub open spec fn be_value(s: Seq<u8>) -> nat
    decreases s.len(),
{
    if s.len() == 0 {
        0
    } else {
        (s[0] as nat) * pow2((8 * (s.len() - 1)) as nat) + be_value(s.subrange(1, s.len() as int))
    }
}

/// Bytewise XOR of two byte strings of the same length.
pub open spec fn xor_bytes(a: Seq<u8>, b: Seq<u8>) -> Seq<u8> {
    Seq::new(a.len(), |i: int| a[i] ^ b[i])
}

/// The XOR distance between two identifiers, as an unsigned integer.
pub open spec fn distance(a: Seq<u8>, b: Seq<u8>) -> nat {
    be_value(xor_bytes(a, b))
}

/// `i` is the bucket of a distance `d`: the position of its highest set bit.
pub open spec fn is_bucket_of(i: int, d: nat) -> bool {
    0 <= i && pow2(i as nat) <= d < pow2((i + 1) as nat)
}

/// The bucket of `b` in a table owned by `a`.
pub open spec fn bucket_index(a: Seq<u8>, b: Seq<u8>) -> int {
    choose|i: int| is_bucket_of(i, distance(a, b))
}

/// A distance has at most one bucket.
pub proof fn lemma_bucket_unique(i: int, j: int, d: nat)
    requires
        is_bucket_of(i, d),
        is_bucket_of(j, d),
    ensures
        i == j,
{
    if i < j {
        if i + 1 < j {
            lemma_pow2_strictly_increases((i + 1) as nat, j as nat);
        }
    } else if j < i {
        if j + 1 < i {
            lemma_pow2_strictly_increases((j + 1) as nat, i as nat);
        }
    }
}

proof fn lemma_highest_bit(d: nat, e: nat) -> (i: int)
    requires
        1 <= d < pow2(e),
    ensures
        0 <= i < e,
        is_bucket_of(i, d),
    decreases e,
{
    if e == 0 {
        lemma2_to64();
        0
    } else {
        lemma_pow2_unfold(e);
        if d < pow2((e - 1) as nat) {
            lemma_highest_bit(d, (e - 1) as nat)
        } else {
            e - 1
        }
    }
}

/// Two distinct identifiers have a bucket, and it lies in `0..=255`.
pub proof fn lemma_bucket_index_range(a: Seq<u8>, b: Seq<u8>)
    requires
        a.len() == 32,
        b.len() == 32,
        a != b,
    ensures
        0 <= bucket_index(a, b) <= 255,
        is_bucket_of(bucket_index(a, b), distance(a, b)),
{
    lemma_distance_zero(a, b);
    lemma_be_value_bound(xor_bytes(a, b));
    let i = lemma_highest_bit(distance(a, b), 256);
    lemma_bucket_unique(i, bucket_index(a, b), distance(a, b));
}

proof fn lemma_pow2_256()
    ensures
        pow2(8) == 256,
{
    lemma2_to64();
}

/// A byte string of length `n` has a value below `2^(8n)`.
pub proof fn lemma_be_value_bound(s: Seq<u8>)
    ensures
        be_value(s) < pow2(8 * s.len()),
    decreases s.len(),
{
    if s.len() == 0 {
        lemma2_to64();
    } else {
        let rest = s.subrange(1, s.len() as int);
        let p = pow2((8 * (s.len() - 1)) as nat);
        lemma_be_value_bound(rest);
        lemma_pow2_256();
        lemma_pow2_adds(8, (8 * (s.len() - 1)) as nat);
        assert(8 + 8 * (s.len() - 1) == 8 * s.len());
        lemma_mul_inequality(s[0] as int + 1, 256, p as int);
        lemma_mul_is_distributive_add_other_way(p as int, s[0] as int, 1);
    }
}

/// Two byte strings of equal length that agree before position `k` and
/// differ at `k` are ordered by their byte at `k`.
pub proof fn lemma_be_value_lex(s: Seq<u8>, t: Seq<u8>, k: int)
    requires
        s.len() == t.len(),
        0 <= k < s.len(),
        forall|j: int| 0 <= j < k ==> s[j] == t[j],
        s[k] < t[k],
    ensures
        be_value(s) < be_value(t),
    decreases k,
{
    let rs = s.subrange(1, s.len() as int);
    let rt = t.subrange(1, t.len() as int);
    let p = pow2((8 * (s.len() - 1)) as nat);
    if k == 0 {
        lemma_be_value_bound(rs);
        lemma_mul_inequality(s[0] as int + 1, t[0] as int, p as int);
        lemma_mul_is_distributive_add_other_way(p as int, s[0] as int, 1);
    } else {
        lemma_be_value_lex(rs, rt, k - 1);
    }
}

/// Distinct byte strings of equal length have distinct values.
pub proof fn lemma_be_value_injective(s: Seq<u8>, t: Seq<u8>)
    requires
        s.len() == t.len(),
        be_value(s) == be_value(t),
    ensures
        s == t,
{
    if s != t {
        assert(exists|j: int| 0 <= j < s.len() && s[j] != t[j]) by {
            if forall|j: int| 0 <= j < s.len() ==> s[j] == t[j] {
                assert(s =~= t);
            }
        }
        let k = choose_first_difference(s, t);
        if s[k] < t[k] {
            lemma_be_value_lex(s, t, k);
        } else {
            lemma_be_value_lex(t, s, k);
        }
    }
}

/// The first position at which two byte strings of equal length differ.
proof fn choose_first_difference(s: Seq<u8>, t: Seq<u8>) -> (k: int)
    requires
        s.len() == t.len(),
        exists|j: int| 0 <= j < s.len() && s[j] != t[j],
    ensures
        0 <= k < s.len(),
        s[k] != t[k],
        forall|j: int| 0 <= j < k ==> s[j] == t[j],
    decreases s.len(),
{
    if s[0] != t[0] {
        0
    } else {
        let rs = s.subrange(1, s.len() as int);
        let rt = t.subrange(1, t.len() as int);
        let j0 = choose|j: int| 0 <= j < s.len() && s[j] != t[j];
        assert(rs[j0 - 1] != rt[j0 - 1]);
        let k = choose_first_difference(rs, rt);
        assert forall|j: int| 0 <= j < k + 1 implies s[j] == t[j] by {
            if j > 0 {
                assert(s[j] == rs[j - 1] && t[j] == rt[j - 1]);
            }
        }
        k + 1
    }
}

/// Leading zero bytes do not change the value.
proof fn lemma_be_value_skip_zeros(s: Seq<u8>, k: int)
    requires
        0 <= k <= s.len(),
        forall|j: int| 0 <= j < k ==> s[j] == 0,
    ensures
        be_value(s) == be_value(s.subrange(k, s.len() as int)),
    decreases k,
{
    if k > 0 {
        let rest = s.subrange(1, s.len() as int);
        lemma_be_value_skip_zeros(rest, k - 1);
        assert(rest.subrange(k - 1, rest.len() as int) =~= s.subrange(k, s.len() as int));
    } else {
        assert(s.subrange(0, s.len() as int) =~= s);
    }
}

/// The identifiers at distance zero from `a` are `a` itself.
pub proof fn lemma_distance_zero(a: Seq<u8>, b: Seq<u8>)
    requires
        a.len() == b.len(),
    ensures
        distance(a, b) == 0 <==> a == b,
{
    let x = xor_bytes(a, b);
    let z = Seq::new(a.len(), |i: int| 0u8);
    assert(be_value(z) == 0) by {
        lemma_be_value_skip_zeros(z, z.len() as int);
        assert(z.subrange(z.len() as int, z.len() as int) =~= Seq::<u8>::empty());
    }
    if a == b {
        assert forall|i: int| 0 <= i < a.len() implies x[i] == 0u8 by {
            let v = a[i];
            assert(v ^ v == 0u8) by (bit_vector);
        }
        assert(x =~= z);
    }
    if distance(a, b) == 0 {
        lemma_be_value_injective(x, z);
        assert forall|i: int| 0 <= i < a.len() implies a[i] == b[i] by {
            let (u, v) = (a[i], b[i]);
            assert(x[i] == 0u8);
            assert(u ^ v == 0u8 ==> u == v) by (bit_vector);
        }
        assert(a =~= b);
    }
}

/// Two identifiers at the same distance from a third are equal.
pub proof fn lemma_distance_injective(a: Seq<u8>, b: Seq<u8>, t: Seq<u8>)
    requires
        a.len() == t.len(),
        b.len() == t.len(),
        distance(a, t) == distance(b, t),
    ensures
        a == b,
{
    let xa = xor_bytes(a, t);
    let xb = xor_bytes(b, t);
    lemma_be_value_injective(xa, xb);
    assert forall|i: int| 0 <= i < a.len() implies a[i] == b[i] by {
        let (u, v, w) = (a[i], b[i], t[i]);
        assert(xa[i] == xb[i]);
        assert(u ^ w == v ^ w ==> u == v) by (bit_vector);
    }
    assert(a =~= b);
}

/// Position of the highest set bit of a nonzero byte.
fn high_bit(v: u8) -> (h: u32)
    requires
        v != 0,
    ensures
        h < 8,
        pow2(h as nat) <= v < pow2((h + 1) as nat),
{
    proof {
        lemma2_to64();
    }
    if v >= 128 {
        7
    } else if v >= 64 {
        6
    } else if v >= 32 {
        5
    } else if v >= 16 {
        4
    } else if v >= 8 {
        3
    } else if v >= 4 {
        2
    } else if v >= 2 {
        1
    } else {
        0
    }
}

/// The bucket of `y` in a table owned by `x`: 255 minus the number of leading
/// zero bits of their XOR distance. Distance 1 falls in bucket 0, the
/// largest distances in bucket 255.
pub fn xor_bucket_index(x: &Identifier, y: &Identifier) -> (i: usize)
    requires
        x@ != y@,
    ensures
        i < 256,
        is_bucket_of(i as int, distance(x@, y@)),
        i == bucket_index(x@, y@),
{
    let ghost d = xor_bytes(x@, y@);
    let mut k: usize = 0;
    while k < 32 && x[k] ^ y[k] == 0
        invariant
            k <= 32,
            d == xor_bytes(x@, y@),
            forall|j: int| 0 <= j < k ==> d[j] == 0,
        decreases 32 - k,
    {
        k = k + 1;
    }
    if k == 32 {
        proof {
            assert forall|j: int| 0 <= j < 32 implies x@[j] == y@[j] by {
                let (u, v) = (x@[j], y@[j]);
                assert(d[j] == 0);
                assert(u ^ v == 0u8 ==> u == v) by (bit_vector);
            }
            assert(x@ =~= y@);
        }
    }
    let v = x[k] ^ y[k];
    let h = high_bit(v);
    let i = 8 * (31 - k) + h as usize;
    proof {
        let tail = d.subrange(k as int, 32);
        let rest = tail.subrange(1, 32 - k);
        let m = (8 * (31 - k)) as nat;
        assert(tail[0] == v);
        lemma_be_value_skip_zeros(d, k as int);
        assert(be_value(tail) == (v as nat) * pow2(m) + be_value(rest));
        lemma_be_value_bound(rest);
        lemma_pow2_adds(h as nat, m);
        lemma_pow2_adds((h + 1) as nat, m);
        assert(h + m == i && h + 1 + m == i + 1);
        lemma_mul_inequality(pow2(h as nat) as int, v as int, pow2(m) as int);
        lemma_mul_inequality(v as int + 1, pow2((h + 1) as nat) as int, pow2(m) as int);
        lemma_mul_is_distributive_add_other_way(pow2(m) as int, v as int, 1);
        assert(is_bucket_of(i as int, distance(x@, y@)));
        lemma_bucket_unique(i as int, bucket_index(x@, y@), distance(x@, y@));
    }
    i
}

/// Whether `a` is strictly closer to `t` than `b` under the XOR metric.
pub fn closer(a: &Identifier, b: &Identifier, t: &Identifier) -> (r: bool)
    ensures
        r == (distance(a@, t@) < distance(b@, t@)),
{
    let ghost da = xor_bytes(a@, t@);
    let ghost db = xor_bytes(b@, t@);
    let mut k: usize = 0;
    while k < 32 && a[k] ^ t[k] == b[k] ^ t[k]
        invariant
            k <= 32,
            da == xor_bytes(a@, t@),
            db == xor_bytes(b@, t@),
            forall|j: int| 0 <= j < k ==> da[j] == db[j],
        decreases 32 - k,
    {
        k = k + 1;
    }
    if k == 32 {
        assert(da =~= db);
        false
    } else if a[k] ^ t[k] < b[k] ^ t[k] {
        proof {
            lemma_be_value_lex(da, db, k as int);
        }
        true
    } else {
        proof {
            lemma_be_value_lex(db, da, k as int);
        }
        false
    }
}

/// Whether two identifiers are equal.
pub fn same_id(a: &Identifier, b: &Identifier) -> (r: bool)
    ensures
        r == (a@ == b@),
{
    let mut k: usize = 0;
    while k < 32 && a[k] == b[k]
        invariant
            k <= 32,
            forall|j: int| 0 <= j < k ==> a@[j] == b@[j],
        decreases 32 - k,
    {
        k = k + 1;
    }
    if k == 32 {
        assert(a@ =~= b@);
        true
    } else {
        false
    }
}

} // verus!
