//! Padding and reordering of the moduli. The input is padded with the
//! sentinel 1 to the next power-of-two length, then arranged as
//! "smallest .. largest | largest .. smallest" by a stable sort on the
//! values, so that the product engine always couples the smallest operand
//! with the largest. The recorded original indices invert the arrangement
//! at the end of the pipeline.
//!
//! The sort is a quadratic insertion sort and the unpadding a linear scan
//! per position: simple shapes whose every step is proved. For inputs
//! large enough that this matters, both admit the usual faster
//! replacements against the same contracts.

use vstd::prelude::*;
use crate::big::{val, vals, canon_all, canonical, le_big, Big};
use crate::tree::{is_pow2, bits, prod, lemma_pow2_double_le, lemma_pow2_half, lemma_prod_append,
    lemma_prod_reverse, lemma_bits_monotone};

verus! {

/// A value paired with the position it came from.
pub type ValIdx = (nat, int);

/// The sort order of the arrangement: by value, and by original position
/// among equal values. On pairs with distinct positions this is a strict
/// total order, so the arrangement is unique — a stable sort.
pub open spec fn pair_le(a: ValIdx, b: ValIdx) -> bool {
    a.0 < b.0 || (a.0 == b.0 && a.1 <= b.1)
}

/// Nondecreasing under `pair_le`.
pub open spec fn sorted_pairs(s: Seq<ValIdx>) -> bool {
    forall|p: int, q: int| 0 <= p < q < s.len() ==> pair_le(#[trigger] s[p], #[trigger] s[q])
}

/// Insertion into a sorted sequence, from the back.
pub open spec fn insert_sorted(s: Seq<ValIdx>, x: ValIdx) -> Seq<ValIdx>
    decreases s.len(),
{
    if s.len() == 0 {
        seq![x]
    } else if pair_le(s.last(), x) {
        s.push(x)
    } else {
        insert_sorted(s.drop_last(), x).push(s.last())
    }
}

/// Insertion sort, processing the input in order.
pub open spec fn sort_pairs(s: Seq<ValIdx>) -> Seq<ValIdx>
    decreases s.len(),
{
    if s.len() == 0 {
        s
    } else {
        insert_sorted(sort_pairs(s.drop_last()), s.last())
    }
}

/// Some position holds the index `i`.
pub open spec fn has_idx(s: Seq<ValIdx>, i: int) -> bool {
    exists|p: int| 0 <= p < s.len() && s[p].1 == i
}

/// All positions hold different indices.
pub open spec fn distinct_idx(s: Seq<ValIdx>) -> bool {
    forall|p: int, q: int| 0 <= p < q < s.len() ==> (#[trigger] s[p]).1 != (#[trigger] s[q]).1
}

/// The values of a pair sequence.
pub open spec fn pair_vals(s: Seq<ValIdx>) -> Seq<nat> {
    s.map_values(|p: ValIdx| p.0)
}

proof fn lemma_insert_sorted_props(s: Seq<ValIdx>, x: ValIdx)
    ensures
        insert_sorted(s, x).len() == s.len() + 1,
        forall|y: ValIdx|
            #[trigger] insert_sorted(s, x).contains(y) <==> (s.contains(y) || y == x),
        sorted_pairs(s) ==> sorted_pairs(insert_sorted(s, x)),
        prod(pair_vals(insert_sorted(s, x))) == prod(pair_vals(s)) * x.0,
    decreases s.len(),
{
    let r = insert_sorted(s, x);
    if s.len() == 0 {
        assert(r =~= seq![x]);
        assert(forall|y: ValIdx| #[trigger] r.contains(y) <==> (s.contains(y) || y == x)) by {
            assert(r[0] == x);
        }
        assert(pair_vals(r) =~= seq![x.0]);
        assert(pair_vals(s) =~= Seq::<nat>::empty());
        assert(prod(seq![x.0]) == prod(seq![x.0].drop_last()) * x.0);
        assert(seq![x.0].drop_last() =~= Seq::<nat>::empty());
        assert(prod(pair_vals(s)) * x.0 == 1 * x.0);
        assert(1 * x.0 == x.0) by (nonlinear_arith);
    } else if pair_le(s.last(), x) {
        assert(r == s.push(x));
        assert forall|y: ValIdx| #[trigger] r.contains(y) <==> (s.contains(y) || y == x) by {
            if r.contains(y) {
                let p = choose|p: int| 0 <= p < r.len() && r[p] == y;
                if p < s.len() {
                    assert(s[p] == y);
                } else {
                    assert(y == x);
                }
            }
            if s.contains(y) {
                let p = choose|p: int| 0 <= p < s.len() && s[p] == y;
                assert(r[p] == y);
            }
            if y == x {
                assert(r[s.len() as int] == x);
            }
        }
        if sorted_pairs(s) {
            assert forall|p: int, q: int| 0 <= p < q < r.len() implies pair_le(
                #[trigger] r[p],
                #[trigger] r[q],
            ) by {
                if q < s.len() {
                    assert(pair_le(s[p], s[q]));
                } else {
                    assert(r[q] == x);
                    if p == s.len() - 1 {
                        assert(pair_le(s.last(), x));
                    } else {
                        assert(pair_le(s[p], s.last()));
                        assert(pair_le(s.last(), x));
                    }
                }
            }
        }
        assert(pair_vals(r) =~= pair_vals(s).push(x.0));
        assert(pair_vals(s).push(x.0).drop_last() =~= pair_vals(s));
    } else {
        let inner = insert_sorted(s.drop_last(), x);
        lemma_insert_sorted_props(s.drop_last(), x);
        assert(r == inner.push(s.last()));
        assert forall|y: ValIdx| #[trigger] r.contains(y) <==> (s.contains(y) || y == x) by {
            if r.contains(y) {
                let p = choose|p: int| 0 <= p < r.len() && r[p] == y;
                if p < inner.len() {
                    assert(inner.contains(y));
                    if s.drop_last().contains(y) {
                        let q = choose|q: int| 0 <= q < s.drop_last().len() && s.drop_last()[q]
                            == y;
                        assert(s[q] == y);
                    }
                } else {
                    assert(y == s.last());
                    assert(s[s.len() - 1] == y);
                }
            }
            if s.contains(y) {
                let p = choose|p: int| 0 <= p < s.len() && s[p] == y;
                if p < s.len() - 1 {
                    assert(s.drop_last()[p] == y);
                    assert(s.drop_last().contains(y));
                    assert(inner.contains(y));
                    let q = choose|q: int| 0 <= q < inner.len() && inner[q] == y;
                    assert(r[q] == y);
                } else {
                    assert(y == s.last());
                    assert(r[r.len() - 1] == y);
                }
            }
            if y == x {
                assert(inner.contains(x));
                let q = choose|q: int| 0 <= q < inner.len() && inner[q] == x;
                assert(r[q] == x);
            }
        }
        if sorted_pairs(s) {
            assert(sorted_pairs(s.drop_last())) by {
                assert forall|p: int, q: int|
                    0 <= p < q < s.drop_last().len() implies pair_le(
                    #[trigger] s.drop_last()[p],
                    #[trigger] s.drop_last()[q],
                ) by {
                    assert(pair_le(s[p], s[q]));
                }
            }
            assert(sorted_pairs(inner));
            assert forall|p: int, q: int| 0 <= p < q < r.len() implies pair_le(
                #[trigger] r[p],
                #[trigger] r[q],
            ) by {
                if q < inner.len() {
                    assert(pair_le(inner[p], inner[q]));
                } else {
                    assert(r[q] == s.last());
                    assert(inner.contains(inner[p]));
                    if s.drop_last().contains(inner[p]) {
                        let t = choose|t: int|
                            0 <= t < s.drop_last().len() && s.drop_last()[t] == inner[p];
                        assert(pair_le(s[t], s.last()));
                    } else {
                        assert(inner[p] == x);
                        assert(!pair_le(s.last(), x));
                        assert(pair_le(x, s.last()));
                    }
                }
            }
        }
        assert(pair_vals(r) =~= pair_vals(inner).push(s.last().0));
        assert(pair_vals(inner).push(s.last().0).drop_last() =~= pair_vals(inner));
        assert(prod(pair_vals(r)) == prod(pair_vals(inner)) * s.last().0);
        assert(pair_vals(s) =~= pair_vals(s.drop_last()).push(s.last().0));
        assert(pair_vals(s.drop_last()).push(s.last().0).drop_last() =~= pair_vals(s.drop_last()));
        assert(prod(pair_vals(s)) == prod(pair_vals(s.drop_last())) * s.last().0);
        assert(prod(pair_vals(inner)) == prod(pair_vals(s.drop_last())) * x.0);
        assert(prod(pair_vals(s.drop_last())) * x.0 * s.last().0 == prod(pair_vals(s.drop_last()))
            * s.last().0 * x.0) by (nonlinear_arith);
    }
}

proof fn lemma_insert_sorted_distinct(s: Seq<ValIdx>, x: ValIdx)
    requires
        distinct_idx(s),
        !has_idx(s, x.1),
    ensures
        distinct_idx(insert_sorted(s, x)),
        forall|i: int| has_idx(insert_sorted(s, x), i) <==> (has_idx(s, i) || i == x.1),
    decreases s.len(),
{
    let r = insert_sorted(s, x);
    lemma_insert_sorted_props(s, x);
    assert forall|p: int, q: int| 0 <= p < q < r.len() implies (#[trigger] r[p]).1 != (
    #[trigger] r[q]).1 by {
        lemma_insert_positions(s, x, p);
        lemma_insert_positions(s, x, q);
        let yp = r[p];
        let yq = r[q];
        assert(!s.contains(x)) by {
            if s.contains(x) {
                let t = choose|t: int| 0 <= t < s.len() && s[t] == x;
                assert(s[t].1 == x.1);
            }
        }
        if yp == x && yq == x {
            lemma_insert_x_unique(s, x, p, q);
        } else if yp == x {
            let sq = choose|t: int| 0 <= t < s.len() && s[t] == yq;
            assert(!has_idx(s, x.1));
            assert(s[sq].1 != x.1);
        } else if yq == x {
            let sp = choose|t: int| 0 <= t < s.len() && s[t] == yp;
            assert(s[sp].1 != x.1);
        } else {
            let sp = choose|t: int| 0 <= t < s.len() && s[t] == yp;
            let sq = choose|t: int| 0 <= t < s.len() && s[t] == yq;
            if sp == sq {
                assert(yp == yq);
                lemma_insert_pair_unique(s, x, p, q);
            } else if sp < sq {
                assert(s[sp].1 != s[sq].1);
            } else {
                assert(s[sq].1 != s[sp].1);
            }
        }
    }
    assert forall|i: int| has_idx(r, i) <==> (has_idx(s, i) || i == x.1) by {
        if has_idx(r, i) {
            let p = choose|p: int| 0 <= p < r.len() && r[p].1 == i;
            assert(r.contains(r[p]));
            if s.contains(r[p]) {
                let t = choose|t: int| 0 <= t < s.len() && s[t] == r[p];
                assert(s[t].1 == i);
            } else {
                assert(r[p] == x);
            }
        }
        if has_idx(s, i) {
            let p = choose|p: int| 0 <= p < s.len() && s[p].1 == i;
            assert(s.contains(s[p]));
            assert(r.contains(s[p]));
            let t = choose|t: int| 0 <= t < r.len() && r[t] == s[p];
            assert(r[t].1 == i);
        }
        if i == x.1 {
            assert(r.contains(x));
            let t = choose|t: int| 0 <= t < r.len() && r[t] == x;
            assert(r[t].1 == i);
        }
    }
}

/// Every position of an insertion either holds an element of the base
/// sequence or the inserted element.
proof fn lemma_insert_positions(s: Seq<ValIdx>, x: ValIdx, p: int)
    requires
        0 <= p < insert_sorted(s, x).len(),
    ensures
        insert_sorted(s, x)[p] == x || s.contains(insert_sorted(s, x)[p]),
{
    lemma_insert_sorted_props(s, x);
    let r = insert_sorted(s, x);
    assert(r.contains(r[p]));
}

/// The inserted element stands at one position only, when the base
/// sequence did not hold it.
proof fn lemma_insert_x_unique(s: Seq<ValIdx>, x: ValIdx, p: int, q: int)
    requires
        !s.contains(x),
        0 <= p < q < insert_sorted(s, x).len(),
        insert_sorted(s, x)[p] == x,
    ensures
        insert_sorted(s, x)[q] != x,
    decreases s.len(),
{
    let r = insert_sorted(s, x);
    if s.len() == 0 {
    } else if pair_le(s.last(), x) {
        assert(r == s.push(x));
        if q < s.len() {
            assert(s[q] == r[q]);
            if r[q] == x {
                assert(s.contains(x));
            }
        } else {
            assert(p < s.len());
            assert(s[p] == x);
            assert(s.contains(x));
        }
    } else {
        let inner = insert_sorted(s.drop_last(), x);
        assert(r == inner.push(s.last()));
        assert(!s.drop_last().contains(x)) by {
            if s.drop_last().contains(x) {
                let t = choose|t: int| 0 <= t < s.drop_last().len() && s.drop_last()[t] == x;
                assert(s[t] == x);
            }
        }
        if q < inner.len() {
            lemma_insert_x_unique(s.drop_last(), x, p, q);
        } else {
            assert(r[q] == s.last());
            if s.last() == x {
                assert(s[s.len() - 1] == x);
            }
        }
    }
}

/// Two distinct positions of an insertion never hold the same pair, when
/// the base has pairwise distinct indices and the inserted index is fresh;
/// stated for the positions that do not hold the inserted pair.
proof fn lemma_insert_pair_unique(s: Seq<ValIdx>, x: ValIdx, p: int, q: int)
    requires
        distinct_idx(s),
        !has_idx(s, x.1),
        0 <= p < q < insert_sorted(s, x).len(),
        insert_sorted(s, x)[p] != x,
    ensures
        insert_sorted(s, x)[q] != insert_sorted(s, x)[p],
    decreases s.len(),
{
    let r = insert_sorted(s, x);
    if s.len() == 0 {
        assert(r =~= seq![x]);
    } else if pair_le(s.last(), x) {
        assert(r == s.push(x));
        if q < s.len() {
            assert(s[p].1 != s[q].1);
        } else {
            assert(r[q] == x);
        }
    } else {
        let inner = insert_sorted(s.drop_last(), x);
        assert(r == inner.push(s.last()));
        assert(distinct_idx(s.drop_last())) by {
            assert forall|u: int, v: int|
                0 <= u < v < s.drop_last().len() implies (#[trigger] s.drop_last()[u]).1 != (
                #[trigger] s.drop_last()[v]).1 by {
                assert(s[u].1 != s[v].1);
            }
        }
        assert(!has_idx(s.drop_last(), x.1)) by {
            if has_idx(s.drop_last(), x.1) {
                let t = choose|t: int| 0 <= t < s.drop_last().len() && s.drop_last()[t].1 == x.1;
                assert(s[t].1 == x.1);
            }
        }
        if q < inner.len() {
            lemma_insert_pair_unique(s.drop_last(), x, p, q);
        } else {
            assert(r[q] == s.last());
            lemma_insert_positions(s.drop_last(), x, p);
            if s.drop_last().contains(inner[p]) {
                let t = choose|t: int| 0 <= t < s.drop_last().len() && s.drop_last()[t] == inner[p];
                assert(s[t] == inner[p]);
                assert(s[t].1 != s[s.len() - 1].1);
            }
        }
    }
}

/// What the sort guarantees: same length, same elements, same product of
/// values, sortedness, and — for inputs with pairwise distinct indices —
/// distinct indices again.
proof fn lemma_sort_pairs_props(s: Seq<ValIdx>)
    ensures
        sort_pairs(s).len() == s.len(),
        forall|y: ValIdx| #[trigger] sort_pairs(s).contains(y) <==> s.contains(y),
        sorted_pairs(sort_pairs(s)),
        prod(pair_vals(sort_pairs(s))) == prod(pair_vals(s)),
        distinct_idx(s) ==> distinct_idx(sort_pairs(s)),
        distinct_idx(s) ==> forall|i: int| has_idx(sort_pairs(s), i) <==> has_idx(s, i),
    decreases s.len(),
{
    let r = sort_pairs(s);
    if s.len() == 0 {
        assert(forall|y: ValIdx| #[trigger] r.contains(y) <==> s.contains(y));
    } else {
        let sd = s.drop_last();
        lemma_sort_pairs_props(sd);
        let inner = sort_pairs(sd);
        lemma_insert_sorted_props(inner, s.last());
        assert(r == insert_sorted(inner, s.last()));
        assert forall|y: ValIdx| #[trigger] r.contains(y) <==> s.contains(y) by {
            if r.contains(y) {
                if inner.contains(y) {
                    assert(sd.contains(y));
                    let t = choose|t: int| 0 <= t < sd.len() && sd[t] == y;
                    assert(s[t] == y);
                } else {
                    assert(y == s.last());
                    assert(s[s.len() - 1] == y);
                }
            }
            if s.contains(y) {
                let t = choose|t: int| 0 <= t < s.len() && s[t] == y;
                if t < s.len() - 1 {
                    assert(sd[t] == y);
                    assert(sd.contains(y));
                    assert(inner.contains(y));
                } else {
                    assert(y == s.last());
                }
            }
        }
        assert(pair_vals(s) =~= pair_vals(sd).push(s.last().0));
        assert(pair_vals(sd).push(s.last().0).drop_last() =~= pair_vals(sd));
        assert(prod(pair_vals(s)) == prod(pair_vals(sd)) * s.last().0);
        if distinct_idx(s) {
            assert(distinct_idx(sd)) by {
                assert forall|u: int, v: int|
                    0 <= u < v < sd.len() implies (#[trigger] sd[u]).1 != (#[trigger] sd[v]).1 by {
                    assert(s[u].1 != s[v].1);
                }
            }
            assert(!has_idx(sd, s.last().1)) by {
                if has_idx(sd, s.last().1) {
                    let t = choose|t: int| 0 <= t < sd.len() && sd[t].1 == s.last().1;
                    assert(s[t].1 == s[s.len() - 1].1);
                }
            }
            assert(!has_idx(inner, s.last().1));
            lemma_insert_sorted_distinct(inner, s.last());
            assert forall|i: int| has_idx(r, i) <==> has_idx(s, i) by {
                if has_idx(s, i) {
                    let t = choose|t: int| 0 <= t < s.len() && s[t].1 == i;
                    if t < s.len() - 1 {
                        assert(sd[t].1 == i);
                        assert(has_idx(sd, i));
                    } else {
                        assert(i == s.last().1);
                    }
                }
                if has_idx(r, i) && i != s.last().1 {
                    assert(has_idx(inner, i));
                    assert(has_idx(sd, i));
                    let t = choose|t: int| 0 <= t < sd.len() && sd[t].1 == i;
                    assert(s[t].1 == i);
                }
                if i == s.last().1 {
                    assert(s[s.len() - 1].1 == i);
                }
            }
        }
    }
}

/// The padded length: the smallest power of two that is at least the input
/// length, and at least 2.
pub open spec fn padded_len(n: nat) -> nat
    decreases n,
{
    if n <= 2 {
        2
    } else {
        2 * padded_len((n + 1) / 2)
    }
}

pub proof fn lemma_padded_len(n: nat)
    ensures
        is_pow2(padded_len(n)),
        padded_len(n) >= 2,
        padded_len(n) >= n,
    decreases n,
{
    if n <= 2 {
        assert(is_pow2(1));
        assert(is_pow2(2));
    } else {
        let m = (n + 1) / 2;
        lemma_padded_len(m);
        assert(padded_len(n) == 2 * padded_len(m));
        assert(n + 1 == 2 * m + (n + 1) % 2) by {
            vstd::arithmetic::div_mod::lemma_fundamental_div_mod(n as int + 1, 2);
        }
        assert(0 <= (n + 1) % 2 < 2) by {
            vstd::arithmetic::div_mod::lemma_mod_pos_bound(n as int + 1, 2);
        }
        assert(is_pow2(2 * padded_len(m))) by {
            reveal_with_fuel(crate::tree::is_pow2, 3);
            assert(2 * padded_len(m) >= 2);
            assert((2 * padded_len(m)) % 2 == 0) by {
                vstd::arithmetic::div_mod::lemma_mod_multiples_basic(padded_len(m) as int, 2);
            }
            assert((2 * padded_len(m)) / 2 == padded_len(m)) by {
                vstd::arithmetic::div_mod::lemma_div_by_multiple(padded_len(m) as int, 2);
            }
        }
        assert(is_pow2(padded_len(n)));
    }
}

/// Padded lengths are minimal: no smaller power of two admissible by the
/// same rule exists. With `lemma_padded_len` this is the padding law: the
/// padded length is the smallest power of two at least the input length
/// and at least 2.
pub proof fn lemma_padded_len_minimal(n: nat, q: nat)
    requires
        is_pow2(q),
        q >= n,
        q >= 2,
    ensures
        padded_len(n) <= q,
    decreases n,
{
    if n <= 2 {
    } else {
        let m = (n + 1) / 2;
        assert(q >= 4) by {
            assert(is_pow2(1));
            assert(is_pow2(2));
            lemma_pow2_double_le(2, q);
        }
        lemma_pow2_half(q);
        assert(n + 1 == 2 * m + (n + 1) % 2) by {
            vstd::arithmetic::div_mod::lemma_fundamental_div_mod(n as int + 1, 2);
        }
        assert(q / 2 >= m) by {
            assert(q == 2 * (q / 2));
            assert(2 * m <= n + 1);
            if n % 2 == 1 {
                assert(q != n) by {
                    assert(q % 2 == 0);
                    assert(n == 2 * (n / 2) + n % 2) by {
                        vstd::arithmetic::div_mod::lemma_fundamental_div_mod(n as int, 2);
                    }
                }
            } else {
                assert(n == 2 * (n / 2) + n % 2) by {
                    vstd::arithmetic::div_mod::lemma_fundamental_div_mod(n as int, 2);
                }
                assert(2 * m == n);
            }
        }
        lemma_padded_len_minimal(m, q / 2);
    }
}

/// An upper bound used for overflow arguments.
pub proof fn lemma_padded_len_upper(n: nat)
    requires
        n >= 2,
    ensures
        padded_len(n) <= 2 * (n - 1),
    decreases n,
{
    if n <= 2 {
    } else {
        let m = (n + 1) / 2;
        assert(n + 1 == 2 * m + (n + 1) % 2) by {
            vstd::arithmetic::div_mod::lemma_fundamental_div_mod(n as int + 1, 2);
        }
        lemma_padded_len_upper(m);
    }
}

/// The value standing at position `i` of the padded input: the modulus for
/// `i` below the input length, the sentinel 1 for the padding.
pub open spec fn padded_val(vs: Seq<nat>, i: int) -> nat {
    if 0 <= i < vs.len() {
        vs[i]
    } else {
        1
    }
}

/// The padded input, each value paired with its position.
pub open spec fn padded_pairs(vs: Seq<nat>) -> Seq<ValIdx> {
    Seq::new(padded_len(vs.len()), |i: int| (padded_val(vs, i), i))
}

/// The arrangement the product engine receives: the padded input sorted
/// ascending, with the upper half reversed, so that the sequence runs
/// "smallest .. largest | largest .. smallest".
pub open spec fn arranged(vs: Seq<nat>) -> Seq<ValIdx> {
    let st = sort_pairs(padded_pairs(vs));
    let half = st.len() as int / 2;
    st.take(half) + st.skip(half).reverse()
}

/// Product of an all-ones sequence.
proof fn lemma_prod_of(s: Seq<nat>)
    requires
        forall|i: int| 0 <= i < s.len() ==> s[i] == 1,
    ensures
        prod(s) == 1,
    decreases s.len(),
{
    if s.len() > 0 {
        assert forall|i: int| 0 <= i < s.drop_last().len() implies #[trigger] s.drop_last()[i]
            == 1 by {
            assert(s[i] == 1);
        }
        lemma_prod_of(s.drop_last());
        assert(s[s.len() - 1] == 1);
        assert(prod(s.drop_last()) * s.last() == 1) by (nonlinear_arith)
            requires
                prod(s.drop_last()) == 1,
                s.last() == 1,
        ;
    }
}

/// Everything the rest of the pipeline needs to know of the arrangement.
pub(crate) proof fn lemma_arranged_props(vs: Seq<nat>)
    ensures
        arranged(vs).len() == padded_len(vs.len()),
        forall|p: int|
            0 <= p < arranged(vs).len() ==> {
                let a = #[trigger] arranged(vs)[p];
                0 <= a.1 < padded_len(vs.len()) && a.0 == padded_val(vs, a.1)
            },
        distinct_idx(arranged(vs)),
        forall|i: int| 0 <= i < padded_len(vs.len()) ==> has_idx(arranged(vs), i),
        prod(pair_vals(arranged(vs))) == prod(vs),
        forall|p: int| 0 <= p < arranged(vs).len() ==> arranged(vs)[0].0 <= (
        #[trigger] arranged(vs)[p]).0,
        forall|p: int|
            0 <= p < arranged(vs).len() ==> (#[trigger] arranged(vs)[p]).0 <= arranged(vs)[arranged(
                vs,
            ).len() as int / 2].0,
    decreases vs.len(),
{
    let pp = padded_pairs(vs);
    let np = padded_len(vs.len());
    lemma_padded_len(vs.len());
    assert(pp.len() == np);
    assert(distinct_idx(pp)) by {
        assert forall|p: int, q: int| 0 <= p < q < pp.len() implies (#[trigger] pp[p]).1 != (
        #[trigger] pp[q]).1 by {
            assert(pp[p].1 == p);
            assert(pp[q].1 == q);
        }
    }
    lemma_sort_pairs_props(pp);
    let st = sort_pairs(pp);
    let half = st.len() as int / 2;
    let a = arranged(vs);
    assert(np % 2 == 0) by {
        lemma_pow2_half(np);
    }
    assert(st.len() == np);
    assert(np == 2 * half);
    assert(a.len() == np);
    // Each position of the arrangement is a position of the sorted
    // sequence.
    assert forall|p: int| 0 <= p < a.len() implies exists|t: int|
        0 <= t < st.len() && #[trigger] a[p] == st[t] by {
        if p < half {
            assert(a[p] == st.take(half)[p]);
            assert(a[p] == st[p]);
        } else {
            let j = p - half;
            assert(a[p] == st.skip(half).reverse()[j]);
            assert(st.skip(half).reverse()[j] == st.skip(half)[st.len() - half - 1 - j]);
            assert(st.skip(half)[st.len() - half - 1 - j] == st[st.len() - 1 - j]);
            assert(a[p] == st[st.len() - 1 - j]);
        }
    }
    // Every element of the sorted sequence is a padded pair.
    assert forall|t: int| 0 <= t < st.len() implies 0 <= (#[trigger] st[t]).1 < np && st[t].0
        == padded_val(vs, st[t].1) by {
        assert(st.contains(st[t]));
        assert(pp.contains(st[t]));
        let u = choose|u: int| 0 <= u < pp.len() && pp[u] == st[t];
        assert(pp[u] == (padded_val(vs, u), u));
    }
    assert forall|p: int| 0 <= p < a.len() implies {
        let e = #[trigger] a[p];
        0 <= e.1 < padded_len(vs.len()) && e.0 == padded_val(vs, e.1)
    } by {
        let t = choose|t: int| 0 <= t < st.len() && a[p] == st[t];
        assert(0 <= st[t].1 < np && st[t].0 == padded_val(vs, st[t].1));
    }
    // Distinct indices carry over through the half reversal.
    assert forall|p: int, q: int| 0 <= p < q < a.len() implies (#[trigger] a[p]).1 != (
    #[trigger] a[q]).1 by {
        let fp = if p < half {
            p
        } else {
            st.len() - 1 - (p - half)
        };
        let fq = if q < half {
            q
        } else {
            st.len() - 1 - (q - half)
        };
        assert(a[p] == st[fp]) by {
            if p < half {
                assert(a[p] == st.take(half)[p]);
            } else {
                assert(a[p] == st.skip(half).reverse()[p - half]);
                assert(st.skip(half).reverse()[p - half] == st.skip(half)[st.len() - half - 1 - (p
                    - half)]);
            }
        }
        assert(a[q] == st[fq]) by {
            if q < half {
                assert(a[q] == st.take(half)[q]);
            } else {
                assert(a[q] == st.skip(half).reverse()[q - half]);
                assert(st.skip(half).reverse()[q - half] == st.skip(half)[st.len() - half - 1 - (q
                    - half)]);
            }
        }
        assert(fp != fq);
        if fp < fq {
            assert(st[fp].1 != st[fq].1);
        } else {
            assert(st[fq].1 != st[fp].1);
        }
    }
    // Every index is present.
    assert forall|i: int| 0 <= i < np implies has_idx(a, i) by {
        assert(pp[i] == (padded_val(vs, i), i));
        assert(has_idx(pp, i));
        assert(has_idx(st, i));
        let t = choose|t: int| 0 <= t < st.len() && st[t].1 == i;
        if t < half {
            assert(a[t] == st.take(half)[t]);
            assert(a[t].1 == i);
        } else {
            let p = half + (st.len() - 1 - t);
            assert(a[p] == st.skip(half).reverse()[p - half]);
            assert(st.skip(half).reverse()[p - half] == st.skip(half)[st.len() - half - 1 - (p
                - half)]);
            assert(a[p] == st[t]);
            assert(a[p].1 == i);
        }
    }
    // The product of the values survives padding, sorting and reversal.
    assert(prod(pair_vals(a)) == prod(vs)) by {
        let lower = pair_vals(st).take(half);
        let upper = pair_vals(st).skip(half);
        assert(pair_vals(a) =~= lower + upper.reverse()) by {
            assert(pair_vals(a).len() == a.len());
            assert forall|p: int| 0 <= p < a.len() implies #[trigger] pair_vals(a)[p] == (lower
                + upper.reverse())[p] by {
                if p < half {
                    assert(a[p] == st.take(half)[p]);
                    assert(pair_vals(a)[p] == a[p].0);
                } else {
                    assert(a[p] == st.skip(half).reverse()[p - half]);
                    assert(st.skip(half).reverse()[p - half] == st.skip(half)[st.len() - half - 1
                        - (p - half)]);
                    assert(upper.reverse()[p - half] == upper[st.len() - half - 1 - (p - half)]);
                    assert(upper[st.len() - half - 1 - (p - half)] == pair_vals(st)[st.len() - 1 - (
                    p - half)]);
                }
            }
        }
        lemma_prod_append(lower, upper.reverse());
        lemma_prod_reverse(upper);
        lemma_prod_append(lower, upper);
        assert(lower + upper =~= pair_vals(st));
        assert(prod(pair_vals(a)) == prod(lower) * prod(upper.reverse()));
        assert(prod(pair_vals(st)) == prod(lower) * prod(upper));
        assert(prod(pair_vals(st)) == prod(pair_vals(pp)));
        let ones = pair_vals(pp).skip(vs.len() as int);
        assert(pair_vals(pp) =~= vs + ones) by {
            assert forall|i: int| 0 <= i < pp.len() implies #[trigger] pair_vals(pp)[i]
                == padded_val(vs, i) by {
                assert(pp[i] == (padded_val(vs, i), i));
            }
        }
        lemma_prod_append(vs, ones);
        assert(forall|i: int| 0 <= i < ones.len() ==> #[trigger] ones[i] == 1) by {
            assert forall|i: int| 0 <= i < ones.len() implies #[trigger] ones[i] == 1 by {
                assert(ones[i] == pair_vals(pp)[i + vs.len()]);
                assert(pp[i + vs.len()] == (padded_val(vs, i + vs.len()), i + vs.len()));
            }
        }
        lemma_prod_of(ones);
        assert(prod(vs) * 1 == prod(vs)) by (nonlinear_arith);
    }
    // The first position holds a least value, the middle position a
    // greatest.
    assert forall|p: int| 0 <= p < a.len() implies a[0].0 <= (#[trigger] a[p]).0 by {
        assert(a[0] == st.take(half)[0]);
        assert(a[0] == st[0]);
        let t = choose|t: int| 0 <= t < st.len() && a[p] == st[t];
        if t > 0 {
            assert(pair_le(st[0], st[t]));
        }
    }
    assert forall|p: int| 0 <= p < a.len() implies (#[trigger] a[p]).0 <= a[a.len() as int / 2].0
        by {
        assert(a[half] == st.skip(half).reverse()[0]);
        assert(st.skip(half).reverse()[0] == st.skip(half)[st.len() - half - 1]);
        assert(a[half] == st[st.len() - 1]);
        let t = choose|t: int| 0 <= t < st.len() && a[p] == st[t];
        if t < st.len() - 1 {
            assert(pair_le(st[t], st[st.len() - 1]));
        }
    }
}

/// The values of the arrangement, in arranged order: the leaves the
/// product tree is built over.
pub open spec fn arranged_leaves(vs: Seq<nat>) -> Seq<nat> {
    pair_vals(arranged(vs))
}

/// The value of the arrangement at the position whose recorded index is
/// `i`: what reading the arranged values back through the indices yields.
pub open spec fn arranged_value_at(vs: Seq<nat>, i: int) -> nat {
    let a = arranged(vs);
    let p = choose|p: int| 0 <= p < a.len() && #[trigger] a[p].1 == i;
    a[p].0
}

/// The padding round trip: reading the arranged values back through the
/// recorded original indices restores the input, at every position — so
/// padding then unpadding is the identity on the moduli.
pub proof fn lemma_pad_unpad_roundtrip(vs: Seq<nat>)
    ensures
        Seq::new(vs.len(), |i: int| arranged_value_at(vs, i)) =~= vs,
{
    lemma_arranged_props(vs);
    lemma_padded_len(vs.len());
    let a = arranged(vs);
    assert forall|i: int| 0 <= i < vs.len() implies arranged_value_at(vs, i) == vs[i] by {
        assert(has_idx(a, i));
        let w = choose|p: int| 0 <= p < a.len() && a[p].1 == i;
        assert(0 <= w < a.len() && a[w].1 == i);
        let p = choose|p: int| 0 <= p < a.len() && #[trigger] a[p].1 == i;
        assert(0 <= p < a.len() && a[p].1 == i);
        assert(a[p].0 == padded_val(vs, i));
    }
}

/// After the arrangement, position 0 holds a value of minimal value and
/// bit length, and position N'/2 one of maximal value and bit length: the
/// shape that lets the product engine couple the smallest operand with the
/// largest.
pub proof fn lemma_arranged_extremes(vs: Seq<nat>)
    ensures
        forall|p: int|
            0 <= p < arranged(vs).len() ==> bits(arranged(vs)[0].0) <= bits(
                (#[trigger] arranged(vs)[p]).0,
            ),
        forall|p: int|
            0 <= p < arranged(vs).len() ==> bits((#[trigger] arranged(vs)[p]).0) <= bits(
                arranged(vs)[arranged(vs).len() as int / 2].0,
            ),
{
    lemma_arranged_props(vs);
    let a = arranged(vs);
    assert forall|p: int| 0 <= p < a.len() implies bits(a[0].0) <= bits((#[trigger] a[p]).0) by {
        lemma_bits_monotone(a[0].0, a[p].0);
    }
    assert forall|p: int| 0 <= p < a.len() implies bits((#[trigger] a[p]).0) <= bits(
        a[a.len() as int / 2].0,
    ) by {
        lemma_bits_monotone(a[p].0, a[a.len() as int / 2].0);
    }
}

/// The value-and-index view of an executable pair sequence.
pub open spec fn pview(s: Seq<(Big, usize)>) -> Seq<ValIdx> {
    s.map_values(|p: (Big, usize)| (val(p.0@), p.1 as int))
}

/// The `pair_le` order, decided on the canonical digits.
fn pair_le_exec(a: &Big, ai: usize, b: &Big, bi: usize) -> (r: bool)
    requires
        a.wf(),
        b.wf(),
    ensures
        r == pair_le((val(a@), ai as int), (val(b@), bi as int)),
{
    if le_big(a, b) {
        if le_big(b, a) {
            ai <= bi
        } else {
            true
        }
    } else {
        false
    }
}

/// Inserting at a position below which everything is `pair_le` the element
/// and at or above which nothing is: exactly the specified insertion.
proof fn lemma_insert_at(s: Seq<ValIdx>, x: ValIdx, j: int)
    requires
        0 <= j <= s.len(),
        j > 0 ==> pair_le(s[j - 1], x),
        forall|p: int| j <= p < s.len() ==> !pair_le(#[trigger] s[p], x),
    ensures
        insert_sorted(s, x) =~= s.take(j).push(x) + s.skip(j),
    decreases s.len(),
{
    if j == s.len() {
        if s.len() == 0 {
            assert(insert_sorted(s, x) =~= seq![x]);
        } else {
            assert(pair_le(s.last(), x));
            assert(insert_sorted(s, x) == s.push(x));
        }
    } else {
        assert(!pair_le(s[s.len() - 1], x));
        assert(insert_sorted(s, x) == insert_sorted(s.drop_last(), x).push(s.last()));
        assert forall|p: int| j <= p < s.drop_last().len() implies !pair_le(
            #[trigger] s.drop_last()[p],
            x,
        ) by {
            assert(!pair_le(s[p], x));
        }
        if j > 0 {
            assert(s.drop_last()[j - 1] == s[j - 1]);
        }
        lemma_insert_at(s.drop_last(), x, j);
        assert(s.drop_last().take(j) =~= s.take(j));
        assert((s.drop_last().take(j).push(x) + s.drop_last().skip(j)).push(s.last()) =~= s.take(
            j,
        ).push(x) + s.skip(j));
    }
}

/// Pad the moduli with the sentinel 1 up to the next power-of-two length
/// (at least 2), and arrange them as "smallest .. largest | largest ..
/// smallest" by a stable sort on the values. The second component records,
/// for every arranged position, the position of the padded input that its
/// value came from.
pub fn pad_ints(list: Vec<Big>) -> (r: (Vec<Big>, Vec<usize>))
    requires
        canon_all(list@),
        list@.len() <= usize::MAX / 2,
    ensures
        r.0@.len() == arranged(vals(list@)).len(),
        r.1@.len() == arranged(vals(list@)).len(),
        canon_all(r.0@),
        forall|p: int|
            0 <= p < r.0@.len() ==> val(#[trigger] r.0@[p]@) == arranged(vals(list@))[p].0,
        forall|p: int|
            0 <= p < r.1@.len() ==> (#[trigger] r.1@[p]) as int == arranged(vals(list@))[p].1,
{
    let ghost vs = vals(list@);
    let n = list.len();
    proof {
        lemma_padded_len(vs.len());
        assert(vs.len() == list@.len());
    }
    // The padded length.
    let mut desired: usize = 2;
    proof {
        assert(is_pow2(1));
        assert(is_pow2(2));
    }
    while desired < n
        invariant
            2 <= desired,
            is_pow2(desired as nat),
            desired as nat <= padded_len(vs.len()),
            n == list@.len(),
            n <= usize::MAX / 2,
            vs.len() == n,
        decreases 2 * n - desired,
    {
        proof {
            lemma_padded_len(vs.len());
            if (desired as nat) < padded_len(vs.len()) {
                lemma_pow2_double_le(desired as nat, padded_len(vs.len()));
            }
        }
        desired = desired * 2;
    }
    proof {
        lemma_padded_len(vs.len());
        lemma_padded_len_minimal(vs.len(), desired as nat);
        assert(desired as nat == padded_len(vs.len()));
    }
    // The padded input, each value paired with its position.
    let mut pairs_v: Vec<(Big, usize)> = Vec::new();
    let mut i: usize = 0;
    while i < n
        invariant
            0 <= i <= n,
            n == list@.len(),
            vs == vals(list@),
            vs.len() == n,
            canon_all(list@),
            pairs_v@.len() == i,
            forall|p: int| 0 <= p < i ==> #[trigger] pview(pairs_v@)[p] == padded_pairs(vs)[p],
            forall|p: int| 0 <= p < i ==> canonical(#[trigger] pairs_v@[p].0@),
            n <= desired,
            desired as nat == padded_len(vs.len()),
        decreases n - i,
    {
        let ghost old_pairs = pairs_v@;
        let cloned = list[i].clone();
        pairs_v.push((cloned, i));
        proof {
            assert forall|p: int| 0 <= p < i implies #[trigger] pview(pairs_v@)[p] == padded_pairs(
                vs,
            )[p] by {
                assert(pairs_v@[p] == old_pairs[p]);
                assert(pview(old_pairs)[p] == padded_pairs(vs)[p]);
            }
            assert(pairs_v@[i as int].0@ == list@[i as int]@);
            assert(vals(list@)[i as int] == val(list@[i as int]@));
            assert(vs[i as int] == val(list@[i as int]@));
            assert(pview(pairs_v@)[i as int] == (val(pairs_v@[i as int].0@), i as int));
            assert(padded_pairs(vs)[i as int] == (padded_val(vs, i as int), i as int));
            assert(padded_val(vs, i as int) == vs[i as int]);
            assert(pview(pairs_v@)[i as int] == padded_pairs(vs)[i as int]);
        }
        i = i + 1;
    }
    while i < desired
        invariant
            n <= i <= desired,
            n == list@.len(),
            vs.len() == n,
            pairs_v@.len() == i,
            forall|p: int| 0 <= p < i ==> #[trigger] pview(pairs_v@)[p] == padded_pairs(vs)[p],
            forall|p: int| 0 <= p < i ==> canonical(#[trigger] pairs_v@[p].0@),
            desired as nat == padded_len(vs.len()),
        decreases desired - i,
    {
        let one = Big::from_u64(1);
        let ghost old_pairs = pairs_v@;
        pairs_v.push((one, i));
        proof {
            assert forall|p: int| 0 <= p < i implies #[trigger] pview(pairs_v@)[p] == padded_pairs(
                vs,
            )[p] by {
                assert(pairs_v@[p] == old_pairs[p]);
                assert(pview(old_pairs)[p] == padded_pairs(vs)[p]);
            }
            assert(pview(pairs_v@)[i as int] == (val(pairs_v@[i as int].0@), i as int));
            assert(padded_pairs(vs)[i as int] == (padded_val(vs, i as int), i as int));
            assert(padded_val(vs, i as int) == 1);
        }
        i = i + 1;
    }
    proof {
        assert(pview(pairs_v@) =~= padded_pairs(vs));
    }
    // Stable insertion sort on (value, original position).
    let mut sorted_v: Vec<(Big, usize)> = Vec::new();
    let mut k: usize = 0;
    while k < desired
        invariant
            0 <= k <= desired,
            pairs_v@.len() == desired,
            pview(pairs_v@) == padded_pairs(vs),
            forall|p: int| 0 <= p < desired ==> canonical(#[trigger] pairs_v@[p].0@),
            sorted_v@.len() == k,
            pview(sorted_v@) == sort_pairs(padded_pairs(vs).take(k as int)),
            forall|p: int| 0 <= p < k ==> canonical(#[trigger] sorted_v@[p].0@),
            desired as nat == padded_len(vs.len()),
            vs.len() == n,
        decreases desired - k,
    {
        let b = pairs_v[k].0.clone();
        let ix = pairs_v[k].1;
        let ghost x = (val(b@), ix as int);
        let mut j: usize = sorted_v.len();
        while j > 0 && !pair_le_exec(&sorted_v[j - 1].0, sorted_v[j - 1].1, &b, ix)
            invariant
                0 <= j <= sorted_v@.len(),
                sorted_v@.len() == k,
                forall|p: int| 0 <= p < k ==> canonical(#[trigger] sorted_v@[p].0@),
                canonical(b@),
                forall|p: int| j <= p < k ==> !pair_le(#[trigger] pview(sorted_v@)[p], x),
                x == (val(b@), ix as int),
            decreases j,
        {
            proof {
                assert(pview(sorted_v@)[j - 1] == (val(sorted_v@[j - 1].0@), sorted_v@[j
                    - 1].1 as int));
            }
            j = j - 1;
        }
        proof {
            if j > 0 {
                assert(pview(sorted_v@)[j - 1] == (val(sorted_v@[j - 1].0@), sorted_v@[j
                    - 1].1 as int));
            }
            lemma_insert_at(pview(sorted_v@), x, j as int);
        }
        let ghost old_sorted = sorted_v@;
        sorted_v.insert(j, (b, ix));
        proof {
            assert(sorted_v@ == old_sorted.insert(j as int, (b, ix)));
            assert(pview(sorted_v@) =~= pview(old_sorted).take(j as int).push(x) + pview(
                old_sorted,
            ).skip(j as int)) by {
                assert forall|p: int| 0 <= p < sorted_v@.len() implies #[trigger] pview(
                    sorted_v@,
                )[p] == (pview(old_sorted).take(j as int).push(x) + pview(old_sorted).skip(
                    j as int,
                ))[p] by {
                    if p < j {
                        assert(sorted_v@[p] == old_sorted[p]);
                    } else if p == j {
                        assert(sorted_v@[p] == (b, ix));
                    } else {
                        assert(sorted_v@[p] == old_sorted[p - 1]);
                    }
                }
            }
            assert(pview(sorted_v@) == insert_sorted(pview(old_sorted), x));
            assert(padded_pairs(vs).take(k + 1).drop_last() =~= padded_pairs(vs).take(k as int));
            assert(padded_pairs(vs).take(k + 1).last() == padded_pairs(vs)[k as int]);
            assert(padded_pairs(vs)[k as int] == pview(pairs_v@)[k as int]);
            assert(pview(pairs_v@)[k as int] == x);
            assert(sort_pairs(padded_pairs(vs).take(k + 1)) == insert_sorted(
                sort_pairs(padded_pairs(vs).take(k as int)),
                x,
            ));
        }
        k = k + 1;
    }
    proof {
        assert(padded_pairs(vs).take(desired as int) =~= padded_pairs(vs));
        assert(pview(sorted_v@) == sort_pairs(padded_pairs(vs)));
    }
    let ghost st = sort_pairs(padded_pairs(vs));
    // Arrange: lower half ascending, upper half reversed.
    let half = desired / 2;
    proof {
        lemma_pow2_half(desired as nat);
        assert(desired as nat == 2 * (desired as nat / 2)) by {
            vstd::arithmetic::div_mod::lemma_fundamental_div_mod(desired as int, 2);
        }
    }
    let mut out_vals: Vec<Big> = Vec::new();
    let mut out_idx: Vec<usize> = Vec::new();
    let mut p: usize = 0;
    while p < half
        invariant
            0 <= p <= half,
            half == desired / 2,
            desired as int == 2 * half,
            sorted_v@.len() == desired,
            pview(sorted_v@) == st,
            forall|q: int| 0 <= q < desired ==> canonical(#[trigger] sorted_v@[q].0@),
            out_vals@.len() == p,
            out_idx@.len() == p,
            forall|q: int|
                0 <= q < p ==> (val(#[trigger] out_vals@[q]@), out_idx@[q] as int) == st[q],
            forall|q: int| 0 <= q < p ==> canonical(#[trigger] out_vals@[q]@),
        decreases half - p,
    {
        out_vals.push(sorted_v[p].0.clone());
        out_idx.push(sorted_v[p].1);
        proof {
            assert(pview(sorted_v@)[p as int] == (val(sorted_v@[p as int].0@), sorted_v@[
                p as int].1 as int));
        }
        p = p + 1;
    }
    while p < desired
        invariant
            half <= p <= desired,
            half == desired / 2,
            desired as int == 2 * half,
            sorted_v@.len() == desired,
            pview(sorted_v@) == st,
            forall|q: int| 0 <= q < desired ==> canonical(#[trigger] sorted_v@[q].0@),
            out_vals@.len() == p,
            out_idx@.len() == p,
            forall|q: int|
                0 <= q < half ==> (val(#[trigger] out_vals@[q]@), out_idx@[q] as int) == st[q],
            forall|q: int|
                half <= q < p ==> (val(#[trigger] out_vals@[q]@), out_idx@[q] as int) == st[
                    desired - 1 - (q - half)],
            forall|q: int| 0 <= q < p ==> canonical(#[trigger] out_vals@[q]@),
        decreases desired - p,
    {
        let src = desired - 1 - (p - half);
        out_vals.push(sorted_v[src].0.clone());
        out_idx.push(sorted_v[src].1);
        proof {
            assert(pview(sorted_v@)[src as int] == (val(sorted_v@[src as int].0@), sorted_v@[
                src as int].1 as int));
        }
        p = p + 1;
    }
    proof {
        let a = arranged(vs);
        assert(a.len() == desired);
        assert forall|q: int| 0 <= q < desired implies a[q] == (val(
            #[trigger] out_vals@[q]@,
        ), out_idx@[q] as int) by {
            if q < half {
                assert(a[q] == st.take(half as int)[q]);
                assert(a[q] == st[q]);
            } else {
                assert(a[q] == st.skip(half as int).reverse()[q - half]);
                assert(st.skip(half as int).reverse()[q - half] == st.skip(half as int)[st.len()
                    - half - 1 - (q - half)]);
                assert(a[q] == st[st.len() - 1 - (q - half)]);
            }
        }
        assert forall|q: int| 0 <= q < out_idx@.len() implies (#[trigger] out_idx@[q]) as int
            == a[q].1 by {
            assert(a[q] == (val(out_vals@[q]@), out_idx@[q] as int));
        }
        assert forall|q: int| 0 <= q < out_vals@.len() implies val(#[trigger] out_vals@[q]@)
            == a[q].0 by {
            assert(a[q] == (val(out_vals@[q]@), out_idx@[q] as int));
        }
    }
    (out_vals, out_idx)
}

/// The index `i` occurs in the sequence.
pub open spec fn has_uidx(idx: Seq<usize>, i: int) -> bool {
    exists|p: int| 0 <= p < idx.len() && (#[trigger] idx[p]) as int == i
}

/// Every index below `n` occurs in the sequence.
pub open spec fn covers_range(idx: Seq<usize>, n: nat) -> bool {
    forall|i: int| 0 <= i < n ==> #[trigger] has_uidx(idx, i)
}

/// Restore the caller's order: position `i` of the result is the value
/// whose recorded original index is `i`. The indices must be pairwise
/// distinct and must cover `0 .. original_size`.
pub fn unpad_ints(list: Vec<Big>, original_indices: Vec<usize>, original_size: usize) -> (r: Vec<
    Big,
>)
    requires
        original_indices@.len() == list@.len(),
        original_size <= list@.len(),
        forall|p: int, q: int|
            0 <= p < q < original_indices@.len() ==> #[trigger] original_indices@[p]
                != #[trigger] original_indices@[q],
        covers_range(original_indices@, original_size as nat),
    ensures
        r@.len() == original_size,
        forall|p: int|
            0 <= p < original_indices@.len() && original_indices@[p] < original_size
                ==> r@[#[trigger] original_indices@[p] as int]@ == list@[p]@,
{
    let n = list.len();
    let mut out: Vec<Big> = Vec::new();
    let ghost mut srcs: Seq<int> = Seq::empty();
    let mut i: usize = 0;
    while i < original_size
        invariant
            0 <= i <= original_size,
            original_size <= n,
            n == list@.len(),
            n == original_indices@.len(),
            out@.len() == i,
            srcs.len() == i,
            forall|j: int|
                0 <= j < i ==> 0 <= #[trigger] srcs[j] < n && original_indices@[srcs[j]] == j
                    && out@[j]@ == list@[srcs[j]]@,
            covers_range(original_indices@, original_size as nat),
        decreases original_size - i,
    {
        proof {
            assert(has_uidx(original_indices@, i as int));
        }
        let mut p: usize = 0;
        while original_indices[p] != i
            invariant
                0 <= p < n,
                n == original_indices@.len(),
                n == list@.len(),
                forall|q: int| 0 <= q < p ==> #[trigger] original_indices@[q] != i,
                has_uidx(original_indices@, i as int),
                i < original_size,
            decreases n - p,
        {
            proof {
                let q = choose|q: int|
                    0 <= q < original_indices@.len() && (#[trigger] original_indices@[q]) as int
                        == i as int;
                assert(q > p);
            }
            p = p + 1;
        }
        let ghost old_out = out@;
        out.push(list[p].clone());
        proof {
            srcs = srcs.push(p as int);
            assert forall|j: int|
                0 <= j < i + 1 implies 0 <= #[trigger] srcs[j] < n && original_indices@[srcs[j]]
                == j && out@[j]@ == list@[srcs[j]]@ by {
                if j < i {
                    assert(out@[j] == old_out[j]);
                } else {
                    assert(srcs[j] == p as int);
                    assert(out@[j]@ == list@[p as int]@);
                }
            }
        }
        i = i + 1;
    }
    proof {
        assert forall|p: int|
            0 <= p < original_indices@.len() && original_indices@[p]
                < original_size implies out@[#[trigger] original_indices@[p] as int]@ == list@[p]@
            by {
            let j = original_indices@[p] as int;
            let p2 = srcs[j];
            assert(original_indices@[p2] == j && out@[j]@ == list@[p2]@);
            if p2 != p {
                if p2 < p {
                    assert(original_indices@[p2] != original_indices@[p]);
                } else {
                    assert(original_indices@[p] != original_indices@[p2]);
                }
            }
        }
    }
    out
}

} // verus!
