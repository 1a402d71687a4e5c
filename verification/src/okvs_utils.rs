//! Helpers of the key-value store: the XOR of two bands at their start columns, and a
//! stable least-significant-digit radix sort of `(payload, key)` pairs by key.
use vstd::arithmetic::div_mod::lemma_breakdown;
use vstd::prelude::*;

verus! {

/// Bit `k` of the 256-bit little-endian integer `v`.
pub open spec fn bit256(v: Seq<u8>, k: int) -> bool {
    (v[k / 8] >> ((k % 8) as u8)) & 1u8 == 1u8
}

/// Setting bit `r` of a byte sets that bit and keeps the others; a zero byte has no bit set.
proof fn lemma_set_bit(x: u8, r: u8, r2: u8)
    requires
        r < 8,
        r2 < 8,
    ensures
        (((x | (1u8 << r)) >> r2) & 1u8 == 1u8) == (r2 == r || (x >> r2) & 1u8 == 1u8),
        (0u8 >> r2) & 1u8 != 1u8,
{
    assert((((x | (1u8 << r)) >> r2) & 1u8 == 1u8) == (r2 == r || (x >> r2) & 1u8 == 1u8) && (0u8 >> r2) & 1u8
        != 1u8) by (bit_vector)
        requires
            r < 8,
            r2 < 8,
    ;
}

fn get_bit256(v: &[u8; 32], k: usize) -> (r: bool)
    requires
        k < 256,
    ensures
        r == bit256(v@, k as int),
{
    (v[k / 8] >> ((k % 8) as u8)) & 1u8 == 1u8
}

/// The XOR of the band `b`, starting at column `start_b`, into the band `a`, starting at
/// column `start_a`, as 256-bit integers: `((b >> d) ^ a) << d` with `d = start_b - start_a`
/// (and `b ^ a` when the starts are equal). Bit `k` of the result is bit `k` of `b` XOR bit
/// `k - d` of `a` for `k >= d`, and clear below `d`. `start_b` is at least `start_a`: the
/// difference is taken in that order.
pub fn xor(a: [u8; 32], b: [u8; 32], start_a: usize, start_b: usize) -> (r: [u8; 32])
    requires
        start_a <= start_b,
    ensures
        forall|k: int|
            0 <= k < 256 ==> #[trigger] bit256(r@, k) == (k >= start_b - start_a && (bit256(b@, k) != bit256(
                a@,
                k - (start_b - start_a),
            ))),
{
    let d = start_b - start_a;
    let mut r = [0u8; 32];
    proof {
        assert forall|t: int| 0 <= t < 256 implies !#[trigger] bit256(r@, t) by {
            lemma_set_bit(0u8, 0u8, (t % 8) as u8);
        }
    }
    let mut k: usize = 0;
    while k < 256
        invariant
            k <= 256,
            d == start_b - start_a,
            forall|t: int|
                0 <= t < k ==> #[trigger] bit256(r@, t) == (t >= d && (bit256(b@, t) != bit256(a@, t - d))),
            forall|t: int| k <= t < 256 ==> !#[trigger] bit256(r@, t),
        decreases 256 - k,
    {
        let bit = k >= d && (get_bit256(&b, k) != get_bit256(&a, k - d));
        if bit {
            let ghost r0 = r@;
            let byte = r[k / 8];
            r[k / 8] = byte | (1u8 << ((k % 8) as u8));
            proof {
                assert forall|t: int| 0 <= t < 256 && t != k implies #[trigger] bit256(r@, t) == bit256(r0, t) by {
                    if t / 8 == k / 8 {
                        assert(t % 8 != k % 8);
                        lemma_set_bit(byte, (k % 8) as u8, (t % 8) as u8);
                    } else {
                        assert(r@[t / 8] == r0[t / 8]);
                    }
                }
                lemma_set_bit(byte, (k % 8) as u8, (k % 8) as u8);
            }
        }
        k += 1;
    }
    r
}

/// Decimal digit `b / exp mod 10`.
pub open spec fn digit(b: usize, exp: nat) -> nat {
    ((b as nat) / exp) % 10
}

/// The elements of `s` that satisfy `p`, in order.
pub open spec fn keep(s: Seq<(usize, usize)>, p: spec_fn((usize, usize)) -> bool) -> Seq<(usize, usize)>
    decreases s.len(),
{
    if s.len() == 0 {
        Seq::empty()
    } else {
        let r = keep(s.drop_last(), p);
        if p(s.last()) {
            r.push(s.last())
        } else {
            r
        }
    }
}

/// The elements whose key is `v`.
pub open spec fn with_key(v: usize) -> spec_fn((usize, usize)) -> bool {
    |e: (usize, usize)| e.1 == v
}

/// The elements whose digit at `exp` is `d`.
pub open spec fn with_digit(exp: nat, d: nat) -> spec_fn((usize, usize)) -> bool {
    |e: (usize, usize)| digit(e.1, exp) == d
}

/// The elements of `s` with digit `0`, then those with digit `1`, ..., up to digit `d - 1`.
pub open spec fn buckets(s: Seq<(usize, usize)>, exp: nat, d: nat) -> Seq<(usize, usize)>
    decreases d,
{
    if d == 0 {
        Seq::empty()
    } else {
        buckets(s, exp, (d - 1) as nat) + keep(s, with_digit(exp, (d - 1) as nat))
    }
}

/// `s` is sorted by `key mod m`.
pub open spec fn sorted_mod(s: Seq<(usize, usize)>, m: nat) -> bool {
    forall|i: int, j: int| 0 <= i < j < s.len() ==> (#[trigger] s[i].1 as nat) % m <= (#[trigger] s[j].1 as nat) % m
}

/// `s` is sorted by key.
pub open spec fn sorted_by_key(s: Seq<(usize, usize)>) -> bool {
    forall|i: int, j: int| 0 <= i < j < s.len() ==> #[trigger] s[i].1 <= #[trigger] s[j].1
}

/// `s` is a stable sort of `orig` by key: sorted, and for every key the elements with that
/// key appear in the same order as in `orig`.
pub open spec fn is_stable_sort(orig: Seq<(usize, usize)>, s: Seq<(usize, usize)>) -> bool {
    &&& sorted_by_key(s)
    &&& forall|v: usize| #[trigger] keep(s, with_key(v)) == keep(orig, with_key(v))
}

/// `10^p`.
pub open spec fn pow10(p: nat) -> nat
    decreases p,
{
    if p == 0 {
        1
    } else {
        10 * pow10((p - 1) as nat)
    }
}

// ---------------------------------------------------------------------------
// Facts about `keep`
// ---------------------------------------------------------------------------

proof fn lemma_keep_concat(a: Seq<(usize, usize)>, b: Seq<(usize, usize)>, p: spec_fn((usize, usize)) -> bool)
    ensures
        keep(a + b, p) == keep(a, p) + keep(b, p),
    decreases b.len(),
{
    if b.len() == 0 {
        assert(a + b =~= a);
        assert(keep(a, p) + keep(b, p) =~= keep(a, p));
    } else {
        lemma_keep_concat(a, b.drop_last(), p);
        assert((a + b).drop_last() =~= a + b.drop_last());
        assert((a + b).last() == b.last());
        if p(b.last()) {
            assert(keep(a, p) + keep(b.drop_last(), p).push(b.last()) =~= (keep(a, p) + keep(b.drop_last(), p)).push(b.last()));
        }
    }
}

/// Membership in `keep`.
pub proof fn lemma_keep_contains(s: Seq<(usize, usize)>, p: spec_fn((usize, usize)) -> bool, x: (usize, usize))
    ensures
        keep(s, p).contains(x) <==> (s.contains(x) && p(x)),
    decreases s.len(),
{
    if s.len() > 0 {
        lemma_keep_contains(s.drop_last(), p, x);
        assert(s =~= s.drop_last().push(s.last()));
        if s.contains(x) {
            let i = choose|i: int| 0 <= i < s.len() && s[i] == x;
            if i < s.len() - 1 {
                assert(s.drop_last()[i] == x);
            }
        }
        if s.drop_last().contains(x) {
            let i = choose|i: int| 0 <= i < s.drop_last().len() && s.drop_last()[i] == x;
            assert(s[i] == x);
        }
        let r = keep(s.drop_last(), p);
        if p(s.last()) {
            if r.push(s.last()).contains(x) {
                let i = choose|i: int| 0 <= i < r.push(s.last()).len() && r.push(s.last())[i] == x;
                if i < r.len() {
                    assert(r[i] == x);
                }
            }
            if r.contains(x) {
                let i = choose|i: int| 0 <= i < r.len() && r[i] == x;
                assert(r.push(s.last())[i] == x);
            }
            assert(r.push(s.last())[r.len() as int] == s.last());
        }
    }
}

proof fn lemma_keep_keep(s: Seq<(usize, usize)>, p: spec_fn((usize, usize)) -> bool, q: spec_fn((usize, usize)) -> bool)
    requires
        forall|e: (usize, usize)| #[trigger] q(e) ==> p(e),
    ensures
        keep(keep(s, p), q) == keep(s, q),
    decreases s.len(),
{
    if s.len() > 0 {
        lemma_keep_keep(s.drop_last(), p, q);
        let r = keep(s.drop_last(), p);
        if p(s.last()) {
            assert(r.push(s.last()).drop_last() =~= r);
        }
    }
}

proof fn lemma_keep_none(s: Seq<(usize, usize)>, q: spec_fn((usize, usize)) -> bool)
    requires
        forall|i: int| 0 <= i < s.len() ==> !q(#[trigger] s[i]),
    ensures
        keep(s, q) == Seq::<(usize, usize)>::empty(),
    decreases s.len(),
{
    if s.len() > 0 {
        lemma_keep_none(s.drop_last(), q);
    }
}

proof fn lemma_keep_disjoint(s: Seq<(usize, usize)>, p: spec_fn((usize, usize)) -> bool, q: spec_fn((usize, usize)) -> bool)
    requires
        forall|e: (usize, usize)| #[trigger] q(e) ==> !p(e),
    ensures
        keep(keep(s, p), q) == Seq::<(usize, usize)>::empty(),
{
    let k = keep(s, p);
    assert forall|i: int| 0 <= i < k.len() implies !q(#[trigger] k[i]) by {
        assert(k.contains(k[i]));
        lemma_keep_contains(s, p, k[i]);
    }
    lemma_keep_none(k, q);
}

/// Selecting a key from the buckets of digit `< d` selects it from `s` when the key's
/// digit is below `d`, and selects nothing otherwise.
proof fn lemma_keep_buckets(s: Seq<(usize, usize)>, exp: nat, d: nat, v: usize)
    requires
        exp > 0,
    ensures
        keep(buckets(s, exp, d), with_key(v)) == if digit(v, exp) < d {
            keep(s, with_key(v))
        } else {
            Seq::<(usize, usize)>::empty()
        },
    decreases d,
{
    if d > 0 {
        let d1 = (d - 1) as nat;
        lemma_keep_buckets(s, exp, d1, v);
        lemma_keep_concat(buckets(s, exp, d1), keep(s, with_digit(exp, d1)), with_key(v));
        if digit(v, exp) == d1 {
            lemma_keep_keep(s, with_digit(exp, d1), with_key(v));
            assert(Seq::<(usize, usize)>::empty() + keep(s, with_key(v)) =~= keep(s, with_key(v)));
        } else {
            lemma_keep_disjoint(s, with_digit(exp, d1), with_key(v));
            if digit(v, exp) < d1 {
                assert(keep(s, with_key(v)) + Seq::<(usize, usize)>::empty() =~= keep(s, with_key(v)));
            } else {
                assert(Seq::<(usize, usize)>::empty() + Seq::<(usize, usize)>::empty() =~= Seq::<(usize, usize)>::empty());
            }
        }
    }
}

proof fn lemma_keep_sorted_mod(s: Seq<(usize, usize)>, p: spec_fn((usize, usize)) -> bool, m: nat)
    requires
        m > 0,
        sorted_mod(s, m),
    ensures
        sorted_mod(keep(s, p), m),
    decreases s.len(),
{
    if s.len() > 0 {
        let s1 = s.drop_last();
        assert(sorted_mod(s1, m)) by {
            assert forall|i: int, j: int| 0 <= i < j < s1.len() implies (#[trigger] s1[i].1 as nat) % m
                <= (#[trigger] s1[j].1 as nat) % m by {
                assert(s1[i] == s[i] && s1[j] == s[j]);
            }
        }
        lemma_keep_sorted_mod(s1, p, m);
        let r = keep(s1, p);
        if p(s.last()) {
            let t = r.push(s.last());
            assert forall|i: int, j: int| 0 <= i < j < t.len() implies (#[trigger] t[i].1 as nat) % m
                <= (#[trigger] t[j].1 as nat) % m by {
                if j == r.len() {
                    assert(r.contains(r[i]));
                    lemma_keep_contains(s1, p, r[i]);
                    let k = choose|k: int| 0 <= k < s1.len() && s1[k] == r[i];
                    assert(s[k] == s1[k]);
                    assert(s[s.len() - 1] == s.last());
                } else {
                    assert(t[i] == r[i] && t[j] == r[j]);
                }
            }
        }
    }
}

proof fn lemma_keep_digit(s: Seq<(usize, usize)>, exp: nat, d: nat, i: int)
    requires
        0 <= i < keep(s, with_digit(exp, d)).len(),
    ensures
        digit(keep(s, with_digit(exp, d))[i].1, exp) == d,
{
    let k = keep(s, with_digit(exp, d));
    assert(k.contains(k[i]));
    lemma_keep_contains(s, with_digit(exp, d), k[i]);
}

proof fn lemma_buckets_digit(s: Seq<(usize, usize)>, exp: nat, d: nat, i: int)
    requires
        0 <= i < buckets(s, exp, d).len(),
    ensures
        digit(buckets(s, exp, d)[i].1, exp) < d,
    decreases d,
{
    if d > 0 {
        let d1 = (d - 1) as nat;
        let b = buckets(s, exp, d1);
        if i < b.len() {
            lemma_buckets_digit(s, exp, d1, i);
        } else {
            lemma_keep_digit(s, exp, d1, i - b.len());
        }
    }
}

proof fn lemma_mod_digit(b: usize, exp: nat)
    requires
        exp > 0,
    ensures
        (b as nat) % (exp * 10) == exp * digit(b, exp) + (b as nat) % exp,
        (b as nat) % exp < exp,
{
    lemma_breakdown(b as int, exp as int, 10);
}

/// The buckets of a sequence sorted by `key mod exp` are sorted by `key mod 10 exp`.
proof fn lemma_buckets_sorted(s: Seq<(usize, usize)>, exp: nat, d: nat)
    requires
        exp > 0,
        d <= 10,
        sorted_mod(s, exp),
    ensures
        sorted_mod(buckets(s, exp, d), exp * 10),
    decreases d,
{
    vstd::arithmetic::mul::lemma_mul_strictly_positive(exp as int, 10);
    if d > 0 {
        let d1 = (d - 1) as nat;
        lemma_buckets_sorted(s, exp, d1);
        let b = buckets(s, exp, d1);
        let k = keep(s, with_digit(exp, d1));
        lemma_keep_sorted_mod(s, with_digit(exp, d1), exp);
        let t = b + k;
        assert forall|i: int, j: int| 0 <= i < j < t.len() implies (#[trigger] t[i].1 as nat) % (exp
            * 10) <= (#[trigger] t[j].1 as nat) % (exp * 10) by {
            lemma_mod_digit(t[i].1, exp);
            lemma_mod_digit(t[j].1, exp);
            if j < b.len() {
                assert(t[i] == b[i] && t[j] == b[j]);
            } else if i >= b.len() {
                assert(t[i] == k[i - b.len()] && t[j] == k[j - b.len()]);
                lemma_keep_digit(s, exp, d1, i - b.len());
                lemma_keep_digit(s, exp, d1, j - b.len());
            } else {
                assert(t[i] == b[i] && t[j] == k[j - b.len()]);
                lemma_buckets_digit(s, exp, d1, i);
                lemma_keep_digit(s, exp, d1, j - b.len());
                let di = digit(t[i].1, exp);
                assert(di + 1 <= d1);
                vstd::arithmetic::mul::lemma_mul_inequality(di as int + 1, d1 as int, exp as int);
                vstd::arithmetic::mul::lemma_mul_is_distributive_add_other_way(exp as int, di as int, 1);
                vstd::arithmetic::mul::lemma_mul_is_commutative(exp as int, d1 as int);
                vstd::arithmetic::mul::lemma_mul_is_commutative(exp as int, di as int);
            }
        }
    }
}

/// Adding an element at the end adds one to the buckets below its digit.
proof fn lemma_buckets_push_len(s: Seq<(usize, usize)>, e: (usize, usize), exp: nat, d: nat)
    ensures
        buckets(s.push(e), exp, d).len() == buckets(s, exp, d).len() + (if digit(e.1, exp) < d {
            1int
        } else {
            0int
        }),
    decreases d,
{
    if d > 0 {
        let d1 = (d - 1) as nat;
        lemma_buckets_push_len(s, e, exp, d1);
        assert(s.push(e).drop_last() =~= s);
        assert(s.push(e).last() == e);
    }
}

/// The ten buckets of a sequence hold all its elements.
proof fn lemma_buckets_len(s: Seq<(usize, usize)>, exp: nat)
    ensures
        buckets(s, exp, 10).len() == s.len(),
    decreases s.len(),
{
    if s.len() == 0 {
        lemma_buckets_empty_len(s, exp, 10);
    } else {
        let t = s.drop_last();
        lemma_buckets_len(t, exp);
        lemma_buckets_push_len(t, s.last(), exp, 10);
        assert(t.push(s.last()) =~= s);
    }
}

proof fn lemma_buckets_empty_len(s: Seq<(usize, usize)>, exp: nat, d: nat)
    requires
        s.len() == 0,
    ensures
        buckets(s, exp, d).len() == 0,
    decreases d,
{
    if d > 0 {
        lemma_buckets_empty_len(s, exp, (d - 1) as nat);
    }
}

proof fn lemma_sorted_last_max(s: Seq<(usize, usize)>, i: int)
    requires
        sorted_by_key(s),
        0 <= i < s.len(),
    ensures
        s[i].1 <= s.last().1,
{
    if i < s.len() - 1 {
        assert(s[i].1 <= s[s.len() - 1].1);
    }
}

proof fn lemma_sorted_drop_last(s: Seq<(usize, usize)>)
    requires
        sorted_by_key(s),
        s.len() > 0,
    ensures
        sorted_by_key(s.drop_last()),
{
    assert forall|i: int, j: int| 0 <= i < j < s.drop_last().len() implies #[trigger] s.drop_last()[i].1
        <= #[trigger] s.drop_last()[j].1 by {
        assert(s.drop_last()[i] == s[i] && s.drop_last()[j] == s[j]);
    }
}

/// In a sequence sorted by key, the last element with the largest key ends the selection of that key.
proof fn lemma_keep_last(s: Seq<(usize, usize)>)
    requires
        sorted_by_key(s),
        s.len() > 0,
    ensures
        keep(s, with_key(s.last().1)).len() > 0,
        keep(s, with_key(s.last().1)).last() == s.last(),
        keep(s, with_key(s.last().1)).drop_last() == keep(s.drop_last(), with_key(s.last().1)),
        forall|v: usize| v != s.last().1 ==> #[trigger] keep(s, with_key(v)) == keep(s.drop_last(), with_key(v)),
{
    let r = keep(s.drop_last(), with_key(s.last().1));
    assert(r.push(s.last()).drop_last() =~= r);
}

/// Two sequences sorted by key that agree on the selection of every key are equal.
pub proof fn lemma_sorted_unique(a: Seq<(usize, usize)>, b: Seq<(usize, usize)>)
    requires
        sorted_by_key(a),
        sorted_by_key(b),
        forall|v: usize| #[trigger] keep(a, with_key(v)) == keep(b, with_key(v)),
    ensures
        a == b,
    decreases a.len() + b.len(),
{
    if a.len() == 0 && b.len() == 0 {
        assert(a =~= b);
    } else if a.len() == 0 {
        lemma_keep_last(b);
        assert(keep(a, with_key(b.last().1)).len() == 0);
    } else if b.len() == 0 {
        lemma_keep_last(a);
        assert(keep(b, with_key(a.last().1)).len() == 0);
    } else {
        lemma_keep_last(a);
        lemma_keep_last(b);
        let ma = a.last().1;
        let mb = b.last().1;
        // The largest keys agree.
        let ka = keep(a, with_key(ma));
        assert(ka.contains(ka.last()));
        assert(ka.last() == ka[ka.len() - 1]);
        lemma_keep_contains(b, with_key(ma), ka.last());
        let i = choose|i: int| 0 <= i < b.len() && b[i] == ka.last();
        lemma_sorted_last_max(b, i);
        let kb = keep(b, with_key(mb));
        assert(kb.contains(kb.last()));
        assert(kb.last() == kb[kb.len() - 1]);
        lemma_keep_contains(a, with_key(mb), kb.last());
        let j = choose|j: int| 0 <= j < a.len() && a[j] == kb.last();
        lemma_sorted_last_max(a, j);
        assert(ma == mb);
        assert(a.last() == b.last());
        lemma_sorted_drop_last(a);
        lemma_sorted_drop_last(b);
        assert forall|v: usize| #[trigger] keep(a.drop_last(), with_key(v)) == keep(b.drop_last(), with_key(v)) by {
            if v == ma {
                assert(keep(a, with_key(v)) == keep(b, with_key(v)));
            } else {
                assert(keep(a, with_key(v)) == keep(b, with_key(v)));
            }
        }
        lemma_sorted_unique(a.drop_last(), b.drop_last());
        assert(a =~= a.drop_last().push(a.last()));
        assert(b =~= b.drop_last().push(b.last()));
    }
}

/// A sequence already sorted by key is its own stable sort.
pub proof fn lemma_stable_sort_of_sorted(orig: Seq<(usize, usize)>, s: Seq<(usize, usize)>)
    requires
        sorted_by_key(orig),
        is_stable_sort(orig, s),
    ensures
        s == orig,
{
    lemma_sorted_unique(s, orig);
}

/// Every element of the original sequence is an element of its stable sort.
pub proof fn lemma_stable_sort_keeps(orig: Seq<(usize, usize)>, s: Seq<(usize, usize)>, x: (usize, usize))
    requires
        is_stable_sort(orig, s),
        orig.contains(x),
    ensures
        s.contains(x),
{
    lemma_keep_contains(orig, with_key(x.1), x);
    assert(keep(s, with_key(x.1)) == keep(orig, with_key(x.1)));
    lemma_keep_contains(s, with_key(x.1), x);
}

/// An element of a stable sort is an element of the original sequence.
pub proof fn lemma_stable_sort_elements(orig: Seq<(usize, usize)>, s: Seq<(usize, usize)>, i: int)
    requires
        is_stable_sort(orig, s),
        0 <= i < s.len(),
    ensures
        orig.contains(s[i]),
{
    let v = s[i].1;
    assert(s.contains(s[i]));
    lemma_keep_contains(s, with_key(v), s[i]);
    assert(keep(s, with_key(v)) == keep(orig, with_key(v)));
    lemma_keep_contains(orig, with_key(v), s[i]);
}

// ---------------------------------------------------------------------------
// Executable sort
// ---------------------------------------------------------------------------

/// One stable pass by the decimal digit `b / exp mod 10` of the key `b`.
pub fn count_sort(arr: &Vec<(usize, usize)>, exp: usize) -> (r: Vec<(usize, usize)>)
    requires
        exp > 0,
    ensures
        r@ == buckets(arr@, exp as nat, 10),
{
    let mut output: Vec<(usize, usize)> = Vec::new();
    let mut d: usize = 0;
    while d < 10
        invariant
            d <= 10,
            exp > 0,
            output@ == buckets(arr@, exp as nat, d as nat),
        decreases 10 - d,
    {
        let ghost before = output@;
        let mut k: usize = 0;
        while k < arr.len()
            invariant
                k <= arr@.len(),
                exp > 0,
                d < 10,
                output@ == before + keep(arr@.take(k as int), with_digit(exp as nat, d as nat)),
            decreases arr@.len() - k,
        {
            let e = arr[k];
            assert(arr@.take(k + 1).drop_last() =~= arr@.take(k as int));
            assert(arr@.take(k + 1).last() == e);
            if (e.1 / exp) % 10 == d {
                output.push(e);
                assert(before + keep(arr@.take(k as int), with_digit(exp as nat, d as nat)).push(e) =~= before
                    + keep(arr@.take(k as int), with_digit(exp as nat, d as nat)).push(e));
            }
            k += 1;
        }
        assert(arr@.take(arr@.len() as int) =~= arr@);
        d += 1;
    }
    output
}

/// Sorts `arr` by key, stably, for keys `<= max`.
pub fn radix_sort(arr: &mut Vec<(usize, usize)>, max: usize)
    requires
        forall|i: int| 0 <= i < old(arr)@.len() ==> #[trigger] old(arr)@[i].1 <= max,
        forall|p: nat| pow10(p) <= max ==> #[trigger] pow10(p) * 10 <= usize::MAX,
    ensures
        is_stable_sort(old(arr)@, final(arr)@),
        final(arr)@.len() == old(arr)@.len(),
{
    let ghost orig = arr@;
    let mut exp: usize = 1;
    let ghost mut p: nat = 0;
    assert(sorted_mod(arr@, 1)) by {
        assert forall|i: int, j: int| 0 <= i < j < arr@.len() implies (#[trigger] arr@[i].1 as nat) % 1
            <= (#[trigger] arr@[j].1 as nat) % 1 by {
        }
    }
    while max / exp != 0
        invariant
            exp == pow10(p),
            exp > 0,
            forall|q: nat| pow10(q) <= max ==> #[trigger] pow10(q) * 10 <= usize::MAX,
            forall|i: int| 0 <= i < orig.len() ==> #[trigger] orig[i].1 <= max,
            sorted_mod(arr@, exp as nat),
            forall|v: usize| #[trigger] keep(arr@, with_key(v)) == keep(orig, with_key(v)),
            orig == old(arr)@,
            arr@.len() == orig.len(),
        decreases usize::MAX - exp,
    {
        let ghost before = arr@;
        *arr = count_sort(arr, exp);
        proof {
            lemma_buckets_len(before, exp as nat);
            lemma_buckets_sorted(before, exp as nat, 10);
            assert forall|v: usize| #[trigger] keep(arr@, with_key(v)) == keep(orig, with_key(v)) by {
                lemma_keep_buckets(before, exp as nat, 10, v);
                assert(digit(v, exp as nat) < 10);
            }
            vstd::arithmetic::div_mod::lemma_fundamental_div_mod(max as int, exp as int);
            vstd::arithmetic::div_mod::lemma_mod_pos_bound(max as int, exp as int);
            vstd::arithmetic::mul::lemma_mul_inequality(1, (max / exp) as int, exp as int);
            vstd::arithmetic::mul::lemma_mul_is_commutative(exp as int, (max / exp) as int);
            assert(exp <= max);
            assert(pow10(p) * 10 <= usize::MAX);
            p = p + 1;
        }
        exp = exp * 10;
    }
    proof {
        vstd::arithmetic::div_mod::lemma_fundamental_div_mod(max as int, exp as int);
        vstd::arithmetic::div_mod::lemma_mod_pos_bound(max as int, exp as int);
        assert(max / exp == 0);
        assert((max as int) / (exp as int) == 0);
        vstd::arithmetic::mul::lemma_mul_basics(exp as int);
        assert((exp as int) * ((max as int) / (exp as int)) == (exp as int) * 0);
        assert(max < exp);
        // Every key is below `exp`, so sorting by `key mod exp` sorts by key.
        assert forall|i: int, j: int| 0 <= i < j < arr@.len() implies #[trigger] arr@[i].1 <= #[trigger] arr@[j].1 by {
            assert(arr@.contains(arr@[i]) && arr@.contains(arr@[j]));
            lemma_keep_contains(arr@, with_key(arr@[i].1), arr@[i]);
            lemma_keep_contains(orig, with_key(arr@[i].1), arr@[i]);
            lemma_keep_contains(arr@, with_key(arr@[j].1), arr@[j]);
            lemma_keep_contains(orig, with_key(arr@[j].1), arr@[j]);
            vstd::arithmetic::div_mod::lemma_small_mod(arr@[i].1 as nat, exp as nat);
            vstd::arithmetic::div_mod::lemma_small_mod(arr@[j].1 as nat, exp as nat);
        }
    }
}

} // verus!
