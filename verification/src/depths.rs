//! Depth profiles: each well's depth is a modular power of the configured
//! root, and its raw height is the distance from the tallest depth.

use vstd::prelude::*;
use vstd::arithmetic::power::{
    pow, lemma_pow0, lemma_pow_multiplies, lemma_pow_mod_noop, lemma_square_is_pow2,
};
use vstd::arithmetic::div_mod::{
    lemma_mod_bound, lemma_mul_mod_noop_general, lemma_small_mod,
};
use vstd::set_lib::{set_int_range, lemma_int_range, lemma_len_subset, lemma_subset_equality};
use vstd::seq_lib::seq_to_set_is_finite;

verus! {

/// `r^e mod n`: the depth of well `e` for root `r` modulo `n`.
pub open spec fn pow_mod(r: int, e: nat, n: int) -> int {
    pow(r, e) % n
}

/// The maximum of the elements of `s` and the accumulator `acc`.
pub open spec fn seq_max_from(s: Seq<int>, acc: int) -> int
    decreases s.len(),
{
    if s.len() == 0 {
        acc
    } else {
        let m = seq_max_from(s.drop_last(), acc);
        if s.last() > m {
            s.last()
        } else {
            m
        }
    }
}

/// The depth profile for `(n, r)`: well `i` holds `r^i mod n`,
/// for `i` in `[0, n - 2]`.
pub open spec fn depth_seq(n: int, r: int) -> Seq<int> {
    Seq::new((n - 1) as nat, |i: int| pow_mod(r, i as nat, n))
}

/// The maximum depth of the profile, folded from 0 as the planner computes it.
pub open spec fn max_depth(n: int, r: int) -> int {
    seq_max_from(depth_seq(n, r), 0)
}

/// The raw height of well `i`: maximum depth minus its own depth.
pub open spec fn raw_of(n: int, r: int, i: int) -> int {
    max_depth(n, r) - depth_seq(n, r)[i]
}

/// `r` is a primitive root of `n`: its powers `r^0 .. r^(n-2)` reach every
/// nonzero residue modulo `n`. Callers supply roots; the planner does not
/// re-verify this at run time.
pub open spec fn is_primitive_root(n: int, r: int) -> bool {
    forall|v: int| 1 <= v < n ==> depth_seq(n, r).contains(v)
}

/// The running maximum dominates the accumulator and every element.
pub proof fn lemma_seq_max_from_ge(s: Seq<int>, acc: int)
    ensures
        acc <= seq_max_from(s, acc),
        forall|i: int| 0 <= i < s.len() ==> s[i] <= seq_max_from(s, acc),
    decreases s.len(),
{
    if s.len() > 0 {
        lemma_seq_max_from_ge(s.drop_last(), acc);
        assert forall|i: int| 0 <= i < s.len() implies s[i] <= seq_max_from(s, acc) by {
            if i < s.len() - 1 {
                assert(s.drop_last()[i] == s[i]);
            }
        }
    }
}

/// The running maximum is the accumulator or some element of the sequence.
pub proof fn lemma_seq_max_from_attained(s: Seq<int>, acc: int)
    ensures
        seq_max_from(s, acc) == acc || exists|i: int|
            0 <= i < s.len() && s[i] == seq_max_from(s, acc),
    decreases s.len(),
{
    if s.len() > 0 {
        lemma_seq_max_from_attained(s.drop_last(), acc);
        let m = seq_max_from(s, acc);
        if s.last() > seq_max_from(s.drop_last(), acc) {
            assert(s[s.len() - 1] == m);
        } else if m != acc {
            let i = choose|i: int|
                0 <= i < s.drop_last().len() && s.drop_last()[i] == m;
            assert(s[i] == m);
        }
    }
}

/// Appending one element takes the running maximum to the larger of the two.
pub proof fn lemma_seq_max_from_push(s: Seq<int>, acc: int, x: int)
    ensures
        seq_max_from(s.push(x), acc) == if x > seq_max_from(s, acc) {
            x
        } else {
            seq_max_from(s, acc)
        },
{
    assert(s.push(x).drop_last() =~= s);
    assert(s.push(x).last() == x);
}

/// Binary modular exponentiation: computes `r^e mod n`.
pub fn mod_exp(r: i32, e: u32, n: i32) -> (d: i32)
    requires
        2 <= n <= 46340,
        0 <= r < n,
    ensures
        d == pow_mod(r as int, e as nat, n as int),
        0 <= d < n,
{
    let mut result: i32 = 1;
    let mut base: i32 = r;
    let mut exp: u32 = e;
    proof {
        assert(pow(r as int, e as nat) % (n as int)
            == (result * pow(base as int, exp as nat)) % (n as int));
    }
    while exp > 0
        invariant
            2 <= n <= 46340,
            0 <= result < n,
            0 <= base < n,
            pow_mod(r as int, e as nat, n as int)
                == (result * pow(base as int, exp as nat)) % (n as int),
        decreases exp,
    {
        let ghost res0 = result as int;
        let ghost b0 = base as int;
        let ghost e0 = exp as nat;
        let ghost ni = n as int;
        proof {
            assert(res0 * b0 < 46340 * 46340 && 0 <= res0 * b0 && b0 * b0 < 46340 * 46340
                && 0 <= b0 * b0) by (nonlinear_arith)
                requires
                    0 <= res0 < 46340,
                    0 <= b0 < 46340,
            ;
        }
        if exp % 2 == 1 {
            proof {
                // pow(b0, e0) == b0 * pow(b0*b0, (e0-1)/2)
                reveal(pow);
                lemma_pow_multiplies(b0, 2, ((e0 - 1) / 2) as nat);
                lemma_square_is_pow2(b0);
                assert(pow(b0, e0) == b0 * pow(b0 * b0, ((e0 - 1) / 2) as nat)) by {
                    assert(2 * (((e0 - 1) / 2) as nat) == e0 - 1);
                }
                // fold the residue of res0 * b0 into the invariant
                let p = pow(b0 * b0, ((e0 - 1) / 2) as nat);
                lemma_mul_mod_noop_general(res0 * b0, p, ni);
                assert((res0 * b0) * p == res0 * (b0 * p)) by (nonlinear_arith);
                assert(((res0 * b0) % ni * p) % ni == (res0 * pow(b0, e0)) % ni);
            }
            result = (result * base) % n;
            proof {
                lemma_mod_bound(res0 * b0, ni);
            }
        } else {
            proof {
                lemma_pow_multiplies(b0, 2, (e0 / 2) as nat);
                lemma_square_is_pow2(b0);
                assert(2 * ((e0 / 2) as nat) == e0);
                assert(pow(b0, e0) == pow(b0 * b0, (e0 / 2) as nat));
            }
        }
        proof {
            // replacing the base by its residue keeps the invariant
            let e1 = (e0 / 2) as nat;
            let rc = result as int;
            lemma_pow_mod_noop(b0 * b0, e1, ni);
            lemma_mul_mod_noop_general(rc, pow(b0 * b0, e1), ni);
            lemma_mul_mod_noop_general(rc, pow((b0 * b0) % ni, e1), ni);
            lemma_mod_bound(b0 * b0, ni);
        }
        base = (base * base) % n;
        exp = exp / 2;
    }
    proof {
        lemma_pow0(base as int);
        lemma_small_mod(result as nat, n as nat);
    }
    result
}

/// Permutation law: for a primitive root `r` of `n`, the depth profile is a
/// permutation of `{1, .., n-1}` — it has no duplicates and its set of values
/// is exactly the nonzero residues.
pub proof fn lemma_depths_permute(n: int, r: int)
    requires
        2 <= n,
        is_primitive_root(n, r),
    ensures
        depth_seq(n, r).no_duplicates(),
        depth_seq(n, r).to_set() == set_int_range(1, n),
{
    let s = depth_seq(n, r);
    broadcast use seq_to_set_is_finite;

    assert(set_int_range(1, n).subset_of(s.to_set())) by {
        assert forall|v: int| set_int_range(1, n).contains(v) implies s.to_set().contains(v) by {
            assert(s.contains(v));
        }
    }
    lemma_int_range(1, n);
    s.lemma_cardinality_of_set();
    lemma_len_subset(set_int_range(1, n), s.to_set());
    lemma_subset_equality(set_int_range(1, n), s.to_set());
    assert(s.to_set() =~= set_int_range(1, n));
    s.lemma_no_dup_set_cardinality();
}

/// Height law: for a primitive root, every raw height lies in `[0, n-2]`,
/// and the well holding the tallest depth has raw height 0.
pub proof fn lemma_raw_height_bounds(n: int, r: int)
    requires
        2 <= n,
        is_primitive_root(n, r),
    ensures
        forall|i: int| 0 <= i < n - 1 ==> 0 <= #[trigger] raw_of(n, r, i) <= n - 2,
        exists|i: int| 0 <= i < n - 1 && raw_of(n, r, i) == 0,
{
    let s = depth_seq(n, r);
    lemma_depths_permute(n, r);
    assert forall|i: int| 0 <= i < s.len() implies 1 <= #[trigger] s[i] <= n - 1 by {
        assert(s.to_set().contains(s[i]));
        assert(set_int_range(1, n).contains(s[i]));
    }
    lemma_seq_max_from_ge(s, 0);
    lemma_seq_max_from_attained(s, 0);
    assert(s.contains(n - 1)) by {
        assert(s.to_set().contains(n - 1));
    }
    let j = choose|j: int| 0 <= j < s.len() && s[j] == n - 1;
    assert(max_depth(n, r) == n - 1);
    assert(raw_of(n, r, j) == 0);
}

} // verus!
