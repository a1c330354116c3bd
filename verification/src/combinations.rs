//! The generic combination generator: every ordered sequence of a given
//! length drawn, with repetition allowed, from a fixed pool — the full
//! Cartesian power of the pool, in a deterministic depth-first,
//! index-ascending order.

use vstd::arithmetic::div_mod::lemma_div_pos_is_pos;
use vstd::arithmetic::div_mod::lemma_fundamental_div_mod;
use vstd::arithmetic::div_mod::lemma_fundamental_div_mod_converse;
use vstd::arithmetic::div_mod::lemma_mod_bound;
use vstd::arithmetic::div_mod::lemma_multiply_divide_lt;
use vstd::arithmetic::mul::lemma_mul_nonnegative;
use vstd::arithmetic::power::pow;
use vstd::prelude::*;

verus! {

/// The `len`-th Cartesian power of `pool`. Sequence number `j` reads off
/// the digits of `j` in base `pool.len()`, most significant first, so the
/// whole family is ordered exactly as a depth-first, index-ascending
/// backtracking enumeration produces it.
pub open spec fn combos<T>(pool: Seq<T>, len: nat) -> Seq<Seq<T>>
    decreases len,
{
    if len == 0 {
        seq![Seq::<T>::empty()]
    } else {
        let q = pow(pool.len() as int, (len - 1) as nat);
        Seq::new(
            (pool.len() * q) as nat,
            |j: int| seq![pool[j / q]] + combos(pool, (len - 1) as nat)[j % q],
        )
    }
}

pub proof fn lemma_pow_nonneg(b: int, e: nat)
    requires
        b >= 0,
    ensures
        pow(b, e) >= 0,
    decreases e,
{
    reveal(pow);
    if e > 0 {
        lemma_pow_nonneg(b, (e - 1) as nat);
        lemma_mul_nonnegative(b, pow(b, (e - 1) as nat));
    }
}

/// A pool of `P` items combined to length `len` yields exactly `P^len`
/// sequences.
pub proof fn lemma_combos_len<T>(pool: Seq<T>, len: nat)
    ensures
        combos(pool, len).len() == pow(pool.len() as int, len),
    decreases len,
{
    reveal(pow);
    if len > 0 {
        lemma_combos_len(pool, (len - 1) as nat);
        lemma_pow_nonneg(pool.len() as int, (len - 1) as nat);
        lemma_mul_nonnegative(pool.len() as int, pow(pool.len() as int, (len - 1) as nat));
    }
}

/// Every produced sequence has length `len` and draws each of its elements
/// from the pool.
pub proof fn lemma_combos_elems<T>(pool: Seq<T>, len: nat)
    ensures
        forall|j: int|
            0 <= j < combos(pool, len).len() ==> (#[trigger] combos(pool, len)[j]).len() == len,
        forall|j: int, m: int|
            0 <= j < combos(pool, len).len() && 0 <= m < len ==> pool.contains(
                #[trigger] combos(pool, len)[j][m],
            ),
    decreases len,
{
    if len > 0 {
        lemma_combos_elems(pool, (len - 1) as nat);
        lemma_combos_len(pool, (len - 1) as nat);
        let q = pow(pool.len() as int, (len - 1) as nat);
        assert forall|j: int|
            0 <= j < combos(pool, len).len() implies (#[trigger] combos(pool, len)[j]).len()
            == len by {
            lemma_combos_decompose(pool, len, j);
        }
        assert forall|j: int, m: int|
            0 <= j < combos(pool, len).len() && 0 <= m < len implies pool.contains(
            #[trigger] combos(pool, len)[j][m],
        ) by {
            lemma_combos_decompose(pool, len, j);
            let d = j / q;
            let r = j % q;
            if m == 0 {
                assert(combos(pool, len)[j][0] == pool[d]);
                assert(pool.contains(pool[d]));
            } else {
                assert(combos(pool, len)[j][m] == combos(pool, (len - 1) as nat)[r][m - 1]);
            }
        }
    }
}

/// For a positive length, entry `j` decomposes into a head drawn at index
/// `j / P^(len-1)` of the pool and tail number `j % P^(len-1)`.
pub proof fn lemma_combos_decompose<T>(pool: Seq<T>, len: nat, j: int)
    requires
        len > 0,
        0 <= j < combos(pool, len).len(),
    ensures
        pow(pool.len() as int, (len - 1) as nat) > 0,
        0 <= j / pow(pool.len() as int, (len - 1) as nat) < pool.len(),
        0 <= j % pow(pool.len() as int, (len - 1) as nat) < combos(pool, (len - 1) as nat).len(),
        combos(pool, len)[j] == seq![pool[j / pow(pool.len() as int, (len - 1) as nat)]] + combos(
            pool,
            (len - 1) as nat,
        )[j % pow(pool.len() as int, (len - 1) as nat)],
{
    let p = pool.len() as int;
    let q = pow(p, (len - 1) as nat);
    lemma_combos_len(pool, len);
    lemma_combos_len(pool, (len - 1) as nat);
    lemma_pow_nonneg(p, (len - 1) as nat);
    assert(combos(pool, len).len() == (p * q) as nat);
    assert(j < p * q);
    assert(q > 0) by (nonlinear_arith)
        requires
            0 <= j,
            j < p * q,
            q >= 0,
    ;
    lemma_div_pos_is_pos(j, q);
    lemma_multiply_divide_lt(j, q, p);
    assert(q * p == p * q) by (nonlinear_arith);
    lemma_mod_bound(j, q);
}

/// Distinct pools yield pairwise distinct sequences: no duplicates across
/// the produced entries.
pub proof fn lemma_combos_distinct<T>(pool: Seq<T>, len: nat)
    requires
        forall|a: int, b: int| 0 <= a < pool.len() && 0 <= b < pool.len() && a != b ==> pool[a]
            != pool[b],
    ensures
        forall|i: int, j: int|
            0 <= i < combos(pool, len).len() && 0 <= j < combos(pool, len).len() && i != j
                ==> combos(pool, len)[i] != combos(pool, len)[j],
    decreases len,
{
    if len > 0 {
        lemma_combos_distinct(pool, (len - 1) as nat);
        let q = pow(pool.len() as int, (len - 1) as nat);
        assert forall|i: int, j: int|
            0 <= i < combos(pool, len).len() && 0 <= j < combos(pool, len).len() && i
                != j implies combos(pool, len)[i] != combos(pool, len)[j] by {
            lemma_combos_decompose(pool, len, i);
            lemma_combos_decompose(pool, len, j);
            lemma_fundamental_div_mod(i, q);
            lemma_fundamental_div_mod(j, q);
            let di = i / q;
            let dj = j / q;
            let ri = i % q;
            let rj = j % q;
            let ti = combos(pool, (len - 1) as nat)[ri];
            let tj = combos(pool, (len - 1) as nat)[rj];
            if di != dj {
                assert(combos(pool, len)[i][0] == pool[di]);
                assert(combos(pool, len)[j][0] == pool[dj]);
            } else {
                assert(ri != rj) by (nonlinear_arith)
                    requires
                        i == q * di + ri,
                        j == q * dj + rj,
                        di == dj,
                        i != j,
                ;
                assert(ti != tj);
                if combos(pool, len)[i] == combos(pool, len)[j] {
                    assert(combos(pool, len)[i] == seq![pool[di]] + ti);
                    assert(combos(pool, len)[j] == seq![pool[dj]] + tj);
                    assert(combos(pool, len)[i].len() == 1 + ti.len());
                    assert(combos(pool, len)[j].len() == 1 + tj.len());
                    assert(ti.len() == tj.len());
                    assert forall|m: int| 0 <= m < ti.len() implies ti[m] == tj[m] by {
                        assert(combos(pool, len)[i][m + 1] == ti[m]);
                        assert(combos(pool, len)[j][m + 1] == tj[m]);
                    }
                    assert(ti =~= tj);
                    assert(false);
                }
            }
        }
    }
}

/// Completeness: every sequence of the right length whose elements are all
/// drawn from the pool is produced.
pub proof fn lemma_combos_complete<T>(pool: Seq<T>, len: nat, s: Seq<T>)
    requires
        s.len() == len,
        forall|m: int| 0 <= m < s.len() ==> pool.contains(#[trigger] s[m]),
    ensures
        combos(pool, len).contains(s),
    decreases len,
{
    if len == 0 {
        assert(s =~= Seq::<T>::empty());
        assert(combos(pool, len)[0] == s);
    } else {
        let tail = s.drop_first();
        assert forall|m: int| 0 <= m < tail.len() implies pool.contains(#[trigger] tail[m]) by {
            assert(tail[m] == s[m + 1]);
        }
        lemma_combos_complete(pool, (len - 1) as nat, tail);
        let r = choose|r: int|
            0 <= r < combos(pool, (len - 1) as nat).len() && (#[trigger] combos(
                pool,
                (len - 1) as nat,
            )[r]) == tail;
        assert(pool.contains(s[0]));
        let d = choose|d: int| 0 <= d < pool.len() && (#[trigger] pool[d]) == s[0];
        let q = pow(pool.len() as int, (len - 1) as nat);
        lemma_combos_len(pool, (len - 1) as nat);
        lemma_combos_len(pool, len);
        let j = d * q + r;
        lemma_fundamental_div_mod_converse(j, q, d, r);
        assert(j < pool.len() * q) by (nonlinear_arith)
            requires
                0 <= r < q,
                0 <= d < pool.len() as int,
                j == d * q + r,
        ;
        lemma_pow_nonneg(pool.len() as int, (len - 1) as nat);
        lemma_mul_nonnegative(pool.len() as int, q);
        assert(0 <= j < combos(pool, len).len());
        assert(combos(pool, len)[j] == seq![pool[d]] + combos(pool, (len - 1) as nat)[r]);
        assert(seq![s[0]] + tail =~= s);
        assert(combos(pool, len)[j] == s);
    }
}

/// Mapping the pool elementwise maps every produced sequence elementwise,
/// preserving order and count.
pub proof fn lemma_combos_map<A, B>(pool: Seq<A>, f: spec_fn(A) -> B, len: nat)
    ensures
        combos(pool.map_values(f), len) == combos(pool, len).map_values(
            |s: Seq<A>| s.map_values(f),
        ),
    decreases len,
{
    let g = |s: Seq<A>| s.map_values(f);
    if len == 0 {
        assert(combos(pool.map_values(f), len) =~~= combos(pool, len).map_values(g));
    } else {
        lemma_combos_map(pool, f, (len - 1) as nat);
        lemma_combos_len(pool, len);
        lemma_combos_len(pool, (len - 1) as nat);
        lemma_combos_len(pool.map_values(f), len);
        let q = pow(pool.len() as int, (len - 1) as nat);
        assert(pool.map_values(f).len() == pool.len());
        assert forall|j: int|
            0 <= j < combos(pool.map_values(f), len).len() implies combos(pool.map_values(f), len)[j]
            == combos(pool, len).map_values(g)[j] by {
            lemma_combos_decompose(pool.map_values(f), len, j);
            lemma_combos_decompose(pool, len, j);
            let d = j / q;
            let r = j % q;
            let tail = combos(pool, (len - 1) as nat)[r];
            assert(combos(pool.map_values(f), len)[j] == seq![f(pool[d])] + g(tail));
            assert(g(seq![pool[d]] + tail) =~= seq![f(pool[d])] + g(tail));
        }
        assert(combos(pool.map_values(f), len) =~~= combos(pool, len).map_values(g));
    }
}

/// Produces every ordered sequence of length `max_depth` whose elements are
/// drawn, with repetition, from `input`, in depth-first, index-ascending
/// order; the input pool is not changed.
pub fn generate_combinations<T: Copy>(input: &Vec<T>, max_depth: usize) -> (res: Vec<Vec<T>>)
    ensures
        res@.len() == combos(input@, max_depth as nat).len(),
        forall|j: int|
            0 <= j < res@.len() ==> (#[trigger] res@[j])@ == combos(input@, max_depth as nat)[j],
    decreases max_depth,
{
    let mut res: Vec<Vec<T>> = Vec::new();
    if max_depth == 0 {
        let first: Vec<T> = Vec::new();
        res.push(first);
        proof {
            assert(res@[0]@ =~= Seq::<T>::empty());
        }
        return res;
    }
    let tails = generate_combinations(input, max_depth - 1);
    let ghost d = max_depth as nat;
    let ghost q = combos(input@, (d - 1) as nat).len() as int;
    proof {
        lemma_combos_len(input@, (d - 1) as nat);
        lemma_combos_len(input@, d);
        lemma_pow_nonneg(input@.len() as int, (d - 1) as nat);
        lemma_mul_nonnegative(input@.len() as int, q);
        assert(combos(input@, d).len() == input@.len() * q);
    }
    let mut i: usize = 0;
    while i < input.len()
        invariant
            i <= input@.len(),
            d == max_depth as nat,
            d > 0,
            q == combos(input@, (d - 1) as nat).len(),
            q == pow(input@.len() as int, (d - 1) as nat),
            tails@.len() == q,
            combos(input@, d).len() == input@.len() * q,
            forall|j: int|
                0 <= j < tails@.len() ==> (#[trigger] tails@[j])@ == combos(
                    input@,
                    (d - 1) as nat,
                )[j],
            res@.len() == (i as int) * q,
            forall|j: int| 0 <= j < res@.len() ==> (#[trigger] res@[j])@ == combos(input@, d)[j],
        decreases input@.len() - i,
    {
        let mut j: usize = 0;
        while j < tails.len()
            invariant
                i < input@.len(),
                j <= tails@.len(),
                d == max_depth as nat,
                d > 0,
                q == combos(input@, (d - 1) as nat).len(),
                q == pow(input@.len() as int, (d - 1) as nat),
                tails@.len() == q,
                combos(input@, d).len() == input@.len() * q,
                forall|m: int|
                    0 <= m < tails@.len() ==> (#[trigger] tails@[m])@ == combos(
                        input@,
                        (d - 1) as nat,
                    )[m],
                res@.len() == (i as int) * q + j,
                forall|m: int|
                    0 <= m < res@.len() ==> (#[trigger] res@[m])@ == combos(input@, d)[m],
            decreases tails@.len() - j,
        {
            let tail = &tails[j];
            let mut s: Vec<T> = Vec::new();
            s.push(input[i]);
            let mut m: usize = 0;
            while m < tail.len()
                invariant
                    i < input@.len(),
                    m <= tail@.len(),
                    s@ == seq![input@[i as int]] + tail@.take(m as int),
                decreases tail@.len() - m,
            {
                let x = tail[m];
                s.push(x);
                proof {
                    assert(seq![input@[i as int]] + tail@.take(m + 1 as int) =~= (seq![
                        input@[i as int],
                    ] + tail@.take(m as int)).push(tail@[m as int]));
                }
                m = m + 1;
            }
            proof {
                assert(tail@.take(tail@.len() as int) =~= tail@);
            }
            res.push(s);
            proof {
                let n = (i as int) * q + (j as int);
                assert(q > 0);
                lemma_fundamental_div_mod_converse(n, q, i as int, j as int);
                assert(n < input@.len() * q) by (nonlinear_arith)
                    requires
                        0 <= (j as int) < q,
                        0 <= (i as int) < input@.len() as int,
                        n == (i as int) * q + (j as int),
                ;
                assert(combos(input@, d)[n] == seq![input@[n / q]] + combos(
                    input@,
                    (d - 1) as nat,
                )[n % q]);
                assert(res@[n]@ == combos(input@, d)[n]);
            }
            j = j + 1;
        }
        proof {
            assert((i as int) * q + q == ((i as int) + 1) * q) by (nonlinear_arith);
        }
        i = i + 1;
    }
    res
}

} // verus!
