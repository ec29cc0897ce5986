//! Batch GCD of a list of big integers, after D. J. Bernstein's
//! product-tree / remainder-tree algorithm: for each modulus `m_i` of the
//! input, the greatest common divisor of `m_i` with the product of all the
//! other moduli. A result is null exactly when that gcd is 1.
//!
//! The pipeline pads the input with the sentinel 1 to a power-of-two
//! length, arranges it to balance the products, builds the product tree,
//! descends it with a two-frontier remainder pass, finalises per-modulus
//! gcds, and restores the caller's order. A checkpoint store of product
//! levels, keyed by level length, can short-circuit the tree building.
//!
//! Every step runs sequentially: the per-position work of a level is
//! independent and could be spread across workers without changing any
//! result, but a thread pool cannot be reasoned about here, so none is
//! used.

pub mod arith;
pub mod big;
pub mod cache;
pub mod codec;
pub mod tree;
pub mod utils;

use vstd::prelude::*;
use crate::arith::{gcd_nat, divides, cong, lemma_gcd_finalize, lemma_gcd_sym, lemma_gcd_divides,
    lemma_gcd_pos, lemma_cong_transfer_sq, lemma_cong_of_mod, lemma_cong_trans, lemma_divides_mod};
use crate::big::{val, vals, canon_all, canonical, Big, clone_bigs, mul_big, rem_big, div_big,
    gcd_big};
use crate::cache::Cache;
use crate::tree::{prod, ascend_spec, level_at, is_pow2, lemma_pow2_half, lemma_pow2_double_le,
    lemma_level_at_len, lemma_level_at_step, lemma_level_at_root, lemma_level_at_pos,
    lemma_prod_pos, lemma_prod_remove};
use crate::utils::{pad_ints, unpad_ints, arranged, arranged_leaves, padded_val, padded_len,
    has_idx, has_uidx, covers_range, lemma_arranged_props, lemma_padded_len};

verus! {

/// Errors of the batch computation.
#[derive(Debug, PartialEq, Eq, Structural)]
pub enum ComputeError {
    /// Returned when fewer than two moduli are supplied: the batch GCD of a
    /// list needs at least two entries to be meaningful.
    NotEnoughModuli,
}

impl ComputeError {
    /// The description of the error, as text.
    pub fn message(&self) -> (r: &'static str)
        ensures
            r@ == "Not enough moduli"@,
    {
        match self {
            ComputeError::NotEnoughModuli => "Not enough moduli",
        }
    }
}

/// What `compute` yields: one entry per modulus, null where the modulus
/// shares no factor with the rest of the list.
pub type ComputeResult = Result<Vec<Option<Big>>, ComputeError>;

/// The gcd of modulus `i` with the product of all the other moduli.
pub open spec fn others_gcd(vs: Seq<nat>, i: int) -> nat {
    gcd_nat(vs[i], prod(vs.remove(i)))
}

/// Build the level of length `target_len` above `level`, halving by
/// pairwise multiplication of the two halves. A checkpoint hit at the
/// target short-circuits the work; on the computing path, every level
/// derived strictly above the target is recorded in the store. `leaves`
/// are the padded arranged values the input level was built over.
fn compute_products(
    level: Vec<Big>,
    target_len: usize,
    cache: &mut Cache,
    Ghost(leaves): Ghost<Seq<nat>>,
) -> (r: Vec<Big>)
    requires
        canon_all(level@),
        is_pow2(leaves.len()),
        is_pow2(level@.len() as nat),
        level@.len() <= leaves.len(),
        vals(level@) == level_at(leaves, level@.len() as nat),
        is_pow2(target_len as nat),
        target_len <= level@.len(),
        old(cache).valid_for(leaves),
    ensures
        canon_all(r@),
        r@.len() == target_len,
        vals(r@) == level_at(leaves, target_len as nat),
        final(cache).valid_for(leaves),
        final(cache).spec_enabled() == old(cache).spec_enabled(),
        // The write path: the store only grows, keeps what it had, and
        // afterwards either holds the target level (the hit that
        // short-circuited the work) or holds every level strictly between
        // the target and the input, which the descent derived and
        // recorded.
        old(cache).spec_enabled() ==> {
            &&& final(cache).entry_seq().len() >= old(cache).entry_seq().len()
            &&& (forall|j: int|
                0 <= j < old(cache).entry_seq().len() ==> #[trigger] final(cache).entry_seq()[j]
                    == old(cache).entry_seq()[j])
            &&& (final(cache).holds_level(target_len as nat, leaves) || (forall|lv: nat|
                is_pow2(lv) && target_len < lv < level@.len()
                    ==> #[trigger] final(cache).holds_level(lv, leaves)))
        },
{
    proof {
        lemma_level_at_len(leaves, target_len as nat);
        lemma_level_at_compose_use(leaves, level@.len() as nat, target_len as nat);
    }
    if cache.enabled() {
        match cache.get(target_len) {
            Option::Some(lvl) => {
                proof {
                    let j = choose|j: int|
                        0 <= j < cache.entry_seq().len() && (#[trigger] cache.entry_seq()[j]).0
                            == target_len && vals(cache.entry_seq()[j].1@) == vals(lvl@);
                    assert(vals(cache.entry_seq()[j].1@) == level_at(
                        leaves,
                        cache.entry_seq()[j].0 as nat,
                    ));
                    assert(cache.holds_level(target_len as nat, leaves)) by {
                        assert((#[trigger] cache.entry_seq()[j]).0 as nat == target_len as nat
                            && vals(cache.entry_seq()[j].1@) == level_at(
                            leaves,
                            target_len as nat,
                        ));
                    }
                }
                return lvl;
            },
            Option::None => {},
        }
    }
    let ghost orig_len = level@.len();
    let mut level = level;
    while level.len() > target_len
        invariant
            canon_all(level@),
            is_pow2(leaves.len()),
            is_pow2(level@.len() as nat),
            level@.len() <= leaves.len(),
            vals(level@) == level_at(leaves, level@.len() as nat),
            is_pow2(target_len as nat),
            target_len <= level@.len(),
            level@.len() <= orig_len,
            cache.valid_for(leaves),
            cache.spec_enabled() == old(cache).spec_enabled(),
            old(cache).spec_enabled() ==> {
                &&& cache.entry_seq().len() >= old(cache).entry_seq().len()
                &&& (forall|j: int|
                    0 <= j < old(cache).entry_seq().len() ==> #[trigger] cache.entry_seq()[j]
                        == old(cache).entry_seq()[j])
                &&& (forall|lv: nat|
                    is_pow2(lv) && target_len < lv && level@.len() <= lv < orig_len
                        ==> #[trigger] cache.holds_level(lv, leaves))
            },
        decreases level@.len(),
    {
        let half = level.len() / 2;
        proof {
            lemma_pow2_half(level@.len() as nat);
            assert(level@.len() == 2 * half) by {
                vstd::arithmetic::div_mod::lemma_fundamental_div_mod(level@.len() as int, 2);
            }
            lemma_pow2_double_le(target_len as nat, level@.len() as nat);
        }
        let mut next: Vec<Big> = Vec::new();
        let mut i: usize = 0;
        while i < half
            invariant
                0 <= i <= half,
                half <= usize::MAX / 2,
                level@.len() == 2 * half,
                canon_all(level@),
                next@.len() == i,
                canon_all(next@),
                forall|p: int|
                    0 <= p < i ==> val(#[trigger] next@[p]@) == val(level@[p]@) * val(
                        level@[p + half]@,
                    ),
            decreases half - i,
        {
            let product = mul_big(&level[i], &level[i + half]);
            next.push(product);
            proof {
                assert(canon_all(next@)) by {
                    assert forall|q: int| 0 <= q < next@.len() implies canonical(
                        #[trigger] next@[q]@,
                    ) by {
                        if q < i {
                            assert(canonical(next@[q]@));
                        }
                    }
                }
            }
            i = i + 1;
        }
        proof {
            let lv = vals(level@);
            assert(vals(next@) =~= ascend_spec(lv)) by {
                assert(ascend_spec(lv).len() == half);
                assert forall|p: int| 0 <= p < half implies #[trigger] vals(next@)[p]
                    == ascend_spec(lv)[p] by {
                    assert(vals(next@)[p] == val(next@[p]@));
                    assert(ascend_spec(lv)[p] == lv[p] * lv[p + half]);
                    assert(lv[p] == val(level@[p]@));
                    assert(lv[p + half] == val(level@[p + half]@));
                }
            }
            assert(is_pow2(half as nat));
            lemma_level_at_step(leaves, half as nat);
            assert(ascend_spec(level_at(leaves, 2 * (half as nat))) == level_at(
                leaves,
                half as nat,
            ));
            assert(vals(next@) == level_at(leaves, half as nat));
        }
        level = next;
        let ghost cache_before = *cache;
        if cache.enabled() && level.len() > target_len {
            cache.put(level.len(), &level);
            proof {
                assert forall|j: int| 0 <= j < cache.entry_seq().len() implies {
                    let e = #[trigger] cache.entry_seq()[j];
                    canon_all(e.1@) && vals(e.1@) == level_at(leaves, e.0 as nat)
                } by {
                    if j < cache_before.entry_seq().len() {
                        assert(cache.entry_seq()[j] == cache_before.entry_seq()[j]);
                    } else {
                        let e = cache.entry_seq().last();
                        assert(vals(e.1@) =~= vals(level@));
                        assert(canon_all(e.1@)) by {
                            assert forall|q: int| 0 <= q < e.1@.len() implies canonical(
                                #[trigger] e.1@[q]@,
                            ) by {
                                assert(e.1@[q]@ == level@[q]@);
                            }
                        }
                    }
                }
            }
        }
        proof {
            if old(cache).spec_enabled() {
                assert(cache.entry_seq().len() >= cache_before.entry_seq().len());
                assert forall|j: int|
                    0 <= j < old(cache).entry_seq().len() implies #[trigger] cache.entry_seq()[j]
                    == old(cache).entry_seq()[j] by {
                    assert(cache_before.entry_seq()[j] == old(cache).entry_seq()[j]);
                    assert(cache.entry_seq()[j] == cache_before.entry_seq()[j]);
                }
                assert forall|lv: nat|
                    is_pow2(lv) && target_len < lv && level@.len() <= lv
                        < orig_len implies #[trigger] cache.holds_level(lv, leaves) by {
                    if lv >= 2 * level@.len() {
                        assert(cache_before.holds_level(lv, leaves));
                        crate::cache::lemma_holds_level_monotone(cache_before, *cache, lv, leaves);
                    } else {
                        if lv > level@.len() {
                            lemma_pow2_double_le(level@.len() as nat, lv);
                        }
                        assert(lv == level@.len());
                        assert(level@.len() > target_len);
                        let last_idx = cache.entry_seq().len() - 1;
                        assert((#[trigger] cache.entry_seq()[last_idx]).0 as nat == lv);
                        assert(vals(cache.entry_seq()[last_idx].1@) =~= vals(level@));
                        assert(vals(level@) == level_at(leaves, lv));
                    }
                }
            }
        }
    }
    level
}

/// `level_at` by way of an intermediate length equals `level_at` directly;
/// wrapped so `compute_products` can use it on entry.
proof fn lemma_level_at_compose_use(leaves: Seq<nat>, mid: nat, target: nat)
    requires
        is_pow2(leaves.len()),
        is_pow2(mid),
        is_pow2(target),
        target <= mid <= leaves.len(),
    ensures
        level_at(level_at(leaves, mid), target) == level_at(leaves, target),
{
    crate::tree::lemma_level_at_compose(leaves, mid, target);
}

/// The recorded write set of the descent carries across a step that only
/// appends entries: afterwards the store still holds the pre-last level or
/// every level strictly between it and the leaves.
proof fn lemma_write_set_carries(c1: Cache, c2: Cache, leaves: Seq<nat>)
    requires
        c2.entry_seq().len() >= c1.entry_seq().len(),
        forall|j: int|
            0 <= j < c1.entry_seq().len() ==> #[trigger] c2.entry_seq()[j] == c1.entry_seq()[j],
        c1.holds_level(2, leaves) || (forall|lv: nat|
            is_pow2(lv) && 2 < lv < leaves.len() ==> #[trigger] c1.holds_level(lv, leaves)),
    ensures
        c2.holds_level(2, leaves) || (forall|lv: nat|
            is_pow2(lv) && 2 < lv < leaves.len() ==> #[trigger] c2.holds_level(lv, leaves)),
{
    if c1.holds_level(2, leaves) {
        crate::cache::lemma_holds_level_monotone(c1, c2, 2, leaves);
    } else {
        assert forall|lv: nat|
            is_pow2(lv) && 2 < lv < leaves.len() implies #[trigger] c2.holds_level(
            lv,
            leaves,
        ) by {
            assert(c1.holds_level(lv, leaves));
            crate::cache::lemma_holds_level_monotone(c1, c2, lv, leaves);
        }
    }
}

/// The two-frontier descent of the remainder tree. Given the padded
/// arranged moduli, it returns one remainder per leaf, each congruent to
/// the product of all leaves modulo the square of its own leaf.
fn compute_remainders(moduli: Vec<Big>, cache: &mut Cache, Ghost(leaves): Ghost<Seq<nat>>) -> (r:
    Vec<Big>)
    requires
        canon_all(moduli@),
        vals(moduli@) == leaves,
        is_pow2(leaves.len()),
        leaves.len() >= 2,
        leaves.len() <= usize::MAX / 2,
        forall|i: int| 0 <= i < leaves.len() ==> #[trigger] leaves[i] >= 1,
        old(cache).valid_for(leaves),
    ensures
        canon_all(r@),
        r@.len() == leaves.len(),
        forall|p: int|
            0 <= p < r@.len() ==> cong(
                val(#[trigger] r@[p]@) as int,
                prod(leaves) as int,
                (leaves[p] * leaves[p]) as int,
            ),
        final(cache).valid_for(leaves),
        final(cache).spec_enabled() == old(cache).spec_enabled(),
        // The write path, §-for-§ from the products engine: the store only
        // grows, keeps what it had, and afterwards holds the pre-last
        // level (a hit) or every level strictly between it and the
        // leaves.
        old(cache).spec_enabled() ==> {
            &&& final(cache).entry_seq().len() >= old(cache).entry_seq().len()
            &&& (forall|j: int|
                0 <= j < old(cache).entry_seq().len() ==> #[trigger] final(cache).entry_seq()[j]
                    == old(cache).entry_seq()[j])
            &&& (final(cache).holds_level(2, leaves) || (forall|lv: nat|
                is_pow2(lv) && 2 < lv < leaves.len()
                    ==> #[trigger] final(cache).holds_level(lv, leaves)))
        },
{
    let n = moduli.len();
    let ghost pp = prod(leaves);
    proof {
        assert(is_pow2(1));
        assert(is_pow2(2));
        assert(level_at(leaves, leaves.len()) == leaves);
        lemma_prod_pos(leaves);
    }
    let first_copy = clone_bigs(&moduli);
    proof {
        assert(vals(first_copy@) =~= vals(moduli@));
    }
    let pre_last = compute_products(first_copy, 2, cache, Ghost(leaves));
    let pre_last_copy = clone_bigs(&pre_last);
    proof {
        assert(vals(pre_last_copy@) =~= vals(pre_last@));
        lemma_level_at_len(leaves, 2);
        lemma_level_at_compose_use(leaves, 2, 1);
    }
    let ghost cache_after_first = *cache;
    let mut remainders = compute_products(pre_last_copy, 1, cache, Ghost(leaves));
    proof {
        if old(cache).spec_enabled() {
            lemma_write_set_carries(cache_after_first, *cache, leaves);
        }
    }
    proof {
        lemma_level_at_root(leaves);
        assert(vals(remainders@)[0] == val(remainders@[0]@));
        assert(vals(remainders@)[0] == level_at(leaves, 1)[0]);
        assert(level_at(leaves, 1) =~= seq![prod(leaves)]);
        assert(val(remainders@[0]@) == pp);
        assert(level_at(leaves, 1)[0] == pp);
        // The root is congruent to the product modulo anything.
        assert forall|p: int| 0 <= p < 1 implies cong(
            val(#[trigger] remainders@[p]@) as int,
            pp as int,
            (level_at(leaves, 1)[p] * level_at(leaves, 1)[p]) as int,
        ) by {
            assert(pp * pp >= 1) by (nonlinear_arith)
                requires
                    pp >= 1,
            ;
            let m2 = (pp * pp) as int;
            assert((pp as int - pp as int) % m2 == 0) by {
                vstd::arithmetic::div_mod::lemma_small_mod(0, m2 as nat);
            }
        }
    }
    let mut current = pre_last;
    let mut depth: usize = 2;
    while depth <= n
        invariant
            n == moduli@.len(),
            canon_all(moduli@),
            vals(moduli@) == leaves,
            is_pow2(leaves.len()),
            leaves.len() == n,
            n >= 2,
            forall|i: int| 0 <= i < leaves.len() ==> #[trigger] leaves[i] >= 1,
            pp == prod(leaves),
            pp >= 1,
            is_pow2(depth as nat),
            2 <= depth,
            depth <= 2 * n,
            n <= usize::MAX / 2,
            depth <= n ==> {
                &&& canon_all(current@)
                &&& current@.len() == depth
                &&& vals(current@) == level_at(leaves, depth as nat)
            },
            remainders@.len() == depth / 2,
            depth == 2 * (depth / 2),
            canon_all(remainders@),
            forall|p: int|
                0 <= p < remainders@.len() ==> cong(
                    val(#[trigger] remainders@[p]@) as int,
                    pp as int,
                    (level_at(leaves, (depth / 2) as nat)[p] * level_at(
                        leaves,
                        (depth / 2) as nat,
                    )[p]) as int,
                ),
            cache.valid_for(leaves),
            cache.spec_enabled() == old(cache).spec_enabled(),
            old(cache).spec_enabled() ==> {
                &&& cache.entry_seq().len() >= old(cache).entry_seq().len()
                &&& (forall|j: int|
                    0 <= j < old(cache).entry_seq().len() ==> #[trigger] cache.entry_seq()[j]
                        == old(cache).entry_seq()[j])
                &&& (cache.holds_level(2, leaves) || (forall|lv: nat|
                    is_pow2(lv) && 2 < lv < leaves.len()
                        ==> #[trigger] cache.holds_level(lv, leaves)))
            },
        decreases 2 * n - depth,
    {
        let rlen = remainders.len();
        let ghost node_d = level_at(leaves, depth as nat);
        let ghost node_r = level_at(leaves, (depth / 2) as nat);
        proof {
            lemma_level_at_len(leaves, depth as nat);
            lemma_level_at_len(leaves, (depth / 2) as nat);
            lemma_level_at_pos(leaves, depth as nat);
            lemma_level_at_pos(leaves, (depth / 2) as nat);
            assert(is_pow2((depth / 2) as nat)) by {
                lemma_pow2_half(depth as nat);
            }
            lemma_level_at_step(leaves, (depth / 2) as nat);
            assert(ascend_spec(node_d) == node_r);
        }
        let mut next: Vec<Big> = Vec::new();
        let mut i: usize = 0;
        while i < depth
            invariant
                0 <= i <= depth,
                rlen == depth / 2,
                depth == 2 * rlen,
                rlen >= 1,
                depth <= n,
                current@.len() == depth,
                canon_all(current@),
                vals(current@) == node_d,
                node_d == level_at(leaves, depth as nat),
                node_r == level_at(leaves, (depth / 2) as nat),
                node_d.len() == depth,
                node_r.len() == rlen,
                ascend_spec(node_d) == node_r,
                forall|q: int| 0 <= q < node_d.len() ==> #[trigger] node_d[q] >= 1,
                forall|q: int| 0 <= q < node_r.len() ==> #[trigger] node_r[q] >= 1,
                remainders@.len() == rlen,
                canon_all(remainders@),
                pp >= 1,
                forall|p: int|
                    0 <= p < remainders@.len() ==> cong(
                        val(#[trigger] remainders@[p]@) as int,
                        pp as int,
                        (node_r[p] * node_r[p]) as int,
                    ),
                next@.len() == i,
                canon_all(next@),
                forall|p: int|
                    0 <= p < i ==> cong(
                        val(#[trigger] next@[p]@) as int,
                        pp as int,
                        (node_d[p] * node_d[p]) as int,
                    ),
            decreases depth - i,
        {
            let par = i % rlen;
            proof {
                assert(par < rlen);
                if i < rlen {
                    vstd::arithmetic::div_mod::lemma_small_mod(i as nat, rlen as nat);
                    assert(par == i);
                } else {
                    assert(i - rlen < rlen);
                    vstd::arithmetic::div_mod::lemma_mod_multiples_vanish(
                        1,
                        i as int - rlen as int,
                        rlen as int,
                    );
                    vstd::arithmetic::div_mod::lemma_small_mod((i - rlen) as nat, rlen as nat);
                    assert(par == i - rlen);
                }
                // The node of the current level divides its parent node.
                assert(node_r[par as int] == node_d[par as int] * node_d[par as int + rlen]);
                assert(divides(node_d[i as int], node_r[par as int])) by {
                    if i < rlen {
                        let k = node_d[i as int + rlen];
                        assert(node_r[par as int] == k * node_d[i as int]) by (nonlinear_arith)
                            requires
                                node_r[par as int] == node_d[i as int] * node_d[i as int + rlen],
                                k == node_d[i as int + rlen],
                        ;
                    } else {
                        let k = node_d[i as int - rlen];
                        assert(node_r[par as int] == k * node_d[i as int]);
                    }
                }
            }
            // When twice the node's bit length exceeds the parent
            // remainder's, the square cannot be smaller than the parent:
            // the reduction is skipped and the parent copied, which stays
            // in the same congruence class modulo the node's square.
            let guard = {
                let bl_c = current[i].bit_length();
                let bl_p = remainders[par].bit_length();
                2 * bl_c > bl_p
            };
            let ghost c = node_d[i as int];
            let ghost mparent = node_r[par as int];
            proof {
                assert(c >= 1);
                assert(mparent >= 1);
                assert(cong(val(remainders@[par as int]@) as int, pp as int, (mparent
                    * mparent) as int));
            }
            let newv: Big = if guard {
                let copy = remainders[par].clone();
                proof {
                    lemma_cong_transfer_sq(
                        val(remainders@[par as int]@) as int,
                        pp as int,
                        c,
                        mparent,
                    );
                }
                copy
            } else {
                let sq = mul_big(&current[i], &current[i]);
                proof {
                    assert(val(sq@) == c * c);
                    assert(c * c >= 1) by (nonlinear_arith)
                        requires
                            c >= 1,
                    ;
                }
                let red = rem_big(&remainders[par], &sq);
                proof {
                    lemma_cong_transfer_sq(
                        val(remainders@[par as int]@) as int,
                        pp as int,
                        c,
                        mparent,
                    );
                    lemma_cong_of_mod(val(remainders@[par as int]@) as int, (c * c) as int);
                    lemma_cong_trans(
                        val(red@) as int,
                        val(remainders@[par as int]@) as int,
                        pp as int,
                        (c * c) as int,
                    );
                }
                red
            };
            next.push(newv);
            proof {
                assert(canon_all(next@)) by {
                    assert forall|q: int| 0 <= q < next@.len() implies canonical(
                        #[trigger] next@[q]@,
                    ) by {
                        if q < i {
                            assert(canonical(next@[q]@));
                        }
                    }
                }
            }
            i = i + 1;
        }
        remainders = next;
        depth = depth * 2;
        if depth <= n {
            let fresh_copy = clone_bigs(&moduli);
            proof {
                assert(vals(fresh_copy@) =~= leaves);
                assert(level_at(leaves, leaves.len()) == leaves);
            }
            let ghost cache_before = *cache;
            current = compute_products(fresh_copy, depth, cache, Ghost(leaves));
            proof {
                if old(cache).spec_enabled() {
                    assert forall|j: int|
                        0 <= j < old(cache).entry_seq().len() implies #[trigger] cache.entry_seq()[j]
                        == old(cache).entry_seq()[j] by {
                        assert(cache_before.entry_seq()[j] == old(cache).entry_seq()[j]);
                        assert(cache.entry_seq()[j] == cache_before.entry_seq()[j]);
                    }
                    lemma_write_set_carries(cache_before, *cache, leaves);
                }
            }
        } else {
            current = Vec::new();
        }
    }
    proof {
        assert(depth == 2 * n) by {
            assert(depth > n);
            lemma_pow2_double_le(leaves.len(), depth as nat);
        }
        assert(remainders@.len() == n);
        assert(level_at(leaves, (depth / 2) as nat) == leaves);
    }
    remainders
}

/// The finalisation: for each position, the gcd of the remainder divided
/// by the modulus with the modulus itself.
fn compute_gcds(remainders: &Vec<Big>, moduli: &Vec<Big>) -> (r: Vec<Big>)
    requires
        remainders@.len() == moduli@.len(),
        canon_all(remainders@),
        canon_all(moduli@),
        forall|p: int| 0 <= p < moduli@.len() ==> val(#[trigger] moduli@[p]@) >= 1,
    ensures
        r@.len() == moduli@.len(),
        canon_all(r@),
        forall|p: int|
            0 <= p < r@.len() ==> val(#[trigger] r@[p]@) == gcd_nat(
                val(remainders@[p]@) / val(moduli@[p]@),
                val(moduli@[p]@),
            ),
{
    let n = moduli.len();
    let mut out: Vec<Big> = Vec::new();
    let mut p: usize = 0;
    while p < n
        invariant
            0 <= p <= n,
            n == moduli@.len(),
            n == remainders@.len(),
            canon_all(remainders@),
            canon_all(moduli@),
            forall|q: int| 0 <= q < n ==> val(#[trigger] moduli@[q]@) >= 1,
            out@.len() == p,
            canon_all(out@),
            forall|q: int|
                0 <= q < p ==> val(#[trigger] out@[q]@) == gcd_nat(
                    val(remainders@[q]@) / val(moduli@[q]@),
                    val(moduli@[q]@),
                ),
        decreases n - p,
    {
        let quotient = div_big(&remainders[p], &moduli[p]);
        let g = gcd_big(&quotient, &moduli[p]);
        out.push(g);
        proof {
            assert(canon_all(out@)) by {
                assert forall|q: int| 0 <= q < out@.len() implies canonical(
                    #[trigger] out@[q]@,
                ) by {
                    if q < p {
                        assert(canonical(out@[q]@));
                    }
                }
            }
        }
        p = p + 1;
    }
    out
}

/// Compute, for every modulus of the list, its gcd with the product of all
/// the other moduli: null where that gcd is 1, the gcd itself otherwise.
/// The result keeps the input's length and order. Fewer than two moduli
/// are rejected with `NotEnoughModuli`. The checkpoint store, when enabled
/// and holding only correct levels (which is what presence of a checkpoint
/// asserts), does not change the result; the levels derived above each
/// target are recorded in it.
pub fn compute(moduli: &Vec<Big>, cache: &mut Cache) -> (r: ComputeResult)
    requires
        canon_all(moduli@),
        moduli@.len() <= usize::MAX / 4,
        moduli@.len() >= 2 ==> forall|i: int|
            0 <= i < moduli@.len() ==> val(#[trigger] moduli@[i]@) >= 1,
        old(cache).valid_for(arranged_leaves(vals(moduli@))),
    ensures
        r is Err <==> moduli@.len() < 2,
        r is Err ==> r->Err_0 == ComputeError::NotEnoughModuli,
        moduli@.len() >= 2 ==> match r {
            Result::Ok(out) => {
                &&& out@.len() == moduli@.len()
                &&& forall|i: int|
                    0 <= i < out@.len() ==> match #[trigger] out@[i] {
                        Option::None => others_gcd(vals(moduli@), i) == 1,
                        Option::Some(g) => canonical(g@) && val(g@) == others_gcd(vals(moduli@), i)
                            && val(g@) > 1 && divides(val(g@), vals(moduli@)[i]),
                    }
            },
            Result::Err(_) => false,
        },
        moduli@.len() >= 2 && r is Ok ==> result_characterised(vals(moduli@), r->Ok_0@),
        final(cache).valid_for(arranged_leaves(vals(moduli@))),
        final(cache).spec_enabled() == old(cache).spec_enabled(),
        // The write path of the checkpoint store: it only grows, keeps
        // what it had, and afterwards holds the pre-last level (the hit
        // that short-circuited the descent) or every product level
        // strictly between 2 and the padded length, which the run derived
        // and recorded.
        moduli@.len() >= 2 && old(cache).spec_enabled() ==> {
            &&& final(cache).entry_seq().len() >= old(cache).entry_seq().len()
            &&& (forall|j: int|
                0 <= j < old(cache).entry_seq().len() ==> #[trigger] final(cache).entry_seq()[j]
                    == old(cache).entry_seq()[j])
            &&& (final(cache).holds_level(2, arranged_leaves(vals(moduli@))) || (forall|lv: nat|
                is_pow2(lv) && 2 < lv < padded_len(moduli@.len() as nat)
                    ==> #[trigger] final(cache).holds_level(lv, arranged_leaves(vals(moduli@)))))
        },
{
    if moduli.len() < 2 {
        return Result::Err(ComputeError::NotEnoughModuli);
    }
    let ghost vs = vals(moduli@);
    let input_copy = clone_bigs(moduli);
    proof {
        assert(canon_all(input_copy@)) by {
            assert forall|i: int| 0 <= i < input_copy@.len() implies canonical(
                #[trigger] input_copy@[i]@,
            ) by {
                assert(input_copy@[i]@ == moduli@[i]@);
            }
        }
        assert(vals(input_copy@) =~= vs);
    }
    let (padded, indices) = pad_ints(input_copy);
    let ghost leaves = vals(padded@);
    let ghost a = arranged(vs);
    proof {
        lemma_arranged_props(vs);
        lemma_padded_len(vs.len());
        assert(leaves =~= arranged_leaves(vs)) by {
            assert forall|p: int| 0 <= p < leaves.len() implies #[trigger] leaves[p]
                == arranged_leaves(vs)[p] by {
                assert(leaves[p] == val(padded@[p]@));
                assert(val(padded@[p]@) == a[p].0);
            }
        }
        assert(is_pow2(leaves.len()));
        assert(leaves.len() >= 2);
        assert(leaves.len() == padded_len(vs.len()));
        assert(vs.len() >= 2);
        assert(leaves.len() <= usize::MAX / 2) by {
            crate::utils::lemma_padded_len_upper(vs.len());
        }
        assert forall|i: int| 0 <= i < leaves.len() implies #[trigger] leaves[i] >= 1 by {
            assert(leaves[i] == a[i].0);
            assert(a[i].0 == padded_val(vs, a[i].1));
            if 0 <= a[i].1 < vs.len() {
                assert(vs[a[i].1] == val(moduli@[a[i].1]@));
            }
        }
    }
    let padded_copy = clone_bigs(&padded);
    proof {
        assert(vals(padded_copy@) =~= leaves);
        assert(canon_all(padded_copy@)) by {
            assert forall|i: int| 0 <= i < padded_copy@.len() implies canonical(
                #[trigger] padded_copy@[i]@,
            ) by {
                assert(padded_copy@[i]@ == padded@[i]@);
            }
        }
    }
    let remainders = compute_remainders(padded_copy, cache, Ghost(leaves));
    let gcds = compute_gcds(&remainders, &padded);
    proof {
        // The recorded indices are pairwise distinct and cover the input
        // positions.
        assert forall|p: int, q: int| 0 <= p < q < indices@.len() implies #[trigger] indices@[p]
            != #[trigger] indices@[q] by {
            assert(indices@[p] as int == a[p].1);
            assert(indices@[q] as int == a[q].1);
            assert(a[p].1 != a[q].1);
        }
        assert(covers_range(indices@, moduli@.len() as nat)) by {
            assert forall|i: int| 0 <= i < moduli@.len() implies #[trigger] has_uidx(
                indices@,
                i,
            ) by {
                assert(has_idx(a, i));
                let p = choose|p: int| 0 <= p < a.len() && a[p].1 == i;
                assert(indices@[p] as int == a[p].1);
                assert((indices@[p]) as int == i);
            }
        }
    }
    let unpadded = unpad_ints(gcds, indices, moduli.len());
    let n = moduli.len();
    let ghost pp = prod(leaves);
    proof {
        assert forall|i: int| 0 <= i < n implies canonical(#[trigger] unpadded@[i]@) && val(
            unpadded@[i]@,
        ) == others_gcd(vs, i) && others_gcd(vs, i) >= 1 && divides(others_gcd(vs, i), vs[i]) by {
            lemma_compute_position(vs, leaves, a, indices@, unpadded@, gcds@, remainders@, padded@, i);
        }
    }
    let mut out: Vec<Option<Big>> = Vec::new();
    let mut i: usize = 0;
    while i < n
        invariant
            0 <= i <= n,
            n == unpadded@.len(),
            n == moduli@.len(),
            vs == vals(moduli@),
            forall|j: int|
                0 <= j < n ==> canonical(#[trigger] unpadded@[j]@) && val(unpadded@[j]@)
                    == others_gcd(vs, j) && others_gcd(vs, j) >= 1 && divides(
                    others_gcd(vs, j),
                    vs[j],
                ),
            out@.len() == i,
            forall|j: int|
                0 <= j < i ==> match #[trigger] out@[j] {
                    Option::None => others_gcd(vs, j) == 1,
                    Option::Some(g) => canonical(g@) && val(g@) == others_gcd(vs, j) && val(g@) > 1
                        && divides(val(g@), vs[j]),
                },
        decreases n - i,
    {
        if unpadded[i].is_one() {
            out.push(Option::None);
        } else {
            let g = unpadded[i].clone();
            out.push(Option::Some(g));
        }
        i = i + 1;
    }
    Result::Ok(out)
}

/// The per-position correctness of the pipeline: at every input position,
/// the unpadded finalised value is exactly the gcd of that modulus with
/// the product of the other moduli.
proof fn lemma_compute_position(
    vs: Seq<nat>,
    leaves: Seq<nat>,
    a: Seq<(nat, int)>,
    indices: Seq<usize>,
    unpadded: Seq<Big>,
    gcds: Seq<Big>,
    remainders: Seq<Big>,
    padded: Seq<Big>,
    i: int,
)
    requires
        0 <= i < vs.len(),
        vs.len() >= 2,
        forall|j: int| 0 <= j < vs.len() ==> #[trigger] vs[j] >= 1,
        a == arranged(vs),
        leaves =~= arranged_leaves(vs),
        leaves == vals(padded),
        leaves.len() == a.len(),
        indices.len() == a.len(),
        gcds.len() == a.len(),
        remainders.len() == a.len(),
        padded.len() == a.len(),
        unpadded.len() == vs.len(),
        forall|p: int| 0 <= p < indices.len() ==> (#[trigger] indices[p]) as int == a[p].1,
        forall|p: int|
            0 <= p < remainders.len() ==> cong(
                val(#[trigger] remainders[p]@) as int,
                prod(leaves) as int,
                (leaves[p] * leaves[p]) as int,
            ),
        forall|p: int|
            0 <= p < gcds.len() ==> val(#[trigger] gcds[p]@) == gcd_nat(
                val(remainders[p]@) / val(padded[p]@),
                val(padded[p]@),
            ),
        canon_all(gcds),
        forall|p: int|
            0 <= p < indices.len() && indices[p] < vs.len() ==> unpadded[(
            #[trigger] indices[p]) as int]@ == gcds[p]@,
    ensures
        canonical(unpadded[i]@),
        val(unpadded[i]@) == others_gcd(vs, i),
        others_gcd(vs, i) >= 1,
        divides(others_gcd(vs, i), vs[i]),
{
    lemma_arranged_props(vs);
    lemma_padded_len(vs.len());
    // The arranged position whose recorded index is i.
    assert(has_idx(a, i));
    let p = choose|p: int| 0 <= p < a.len() && a[p].1 == i;
    assert(indices[p] as int == i);
    assert(unpadded[i]@ == gcds[p]@);
    let m = leaves[p];
    assert(m == a[p].0) by {
        assert(leaves[p] == arranged_leaves(vs)[p]);
    }
    assert(a[p].0 == padded_val(vs, i));
    assert(m == vs[i]);
    assert(m >= 1);
    assert(val(padded[p]@) == m);
    let pp = prod(leaves);
    // The product of the leaves is the product of the input values.
    assert(pp == prod(vs)) by {
        assert(pair_vals_of(a) =~= leaves) by {
            assert forall|q: int| 0 <= q < a.len() implies #[trigger] pair_vals_of(a)[q]
                == leaves[q] by {
                assert(pair_vals_of(a)[q] == a[q].0);
                assert(leaves[q] == arranged_leaves(vs)[q]);
            }
        }
        assert(prod(crate::utils::pair_vals(arranged(vs))) == prod(vs));
        assert(crate::utils::pair_vals(arranged(vs)) =~= pair_vals_of(a));
    }
    // The modulus divides the product.
    lemma_prod_remove(vs, i);
    assert(pp == prod(vs.remove(i)) * m);
    assert(divides(m, pp)) by {
        assert(pp == prod(vs.remove(i)) * m);
    }
    lemma_divides_mod(m, pp);
    // Finalisation: congruence modulo the square gives the same gcd as the
    // true cofactor.
    let rv = val(remainders[p]@);
    assert(cong(rv as int, pp as int, (m * m) as int));
    lemma_gcd_finalize(rv, pp, m);
    assert(gcd_nat((rv as int / m as int) as nat, m) == gcd_nat(
        (pp as int / m as int) as nat,
        m,
    ));
    // The true cofactor is the product of the other values.
    assert(pp as int / m as int == prod(vs.remove(i)) as int) by {
        vstd::arithmetic::div_mod::lemma_div_multiples_vanish(
            prod(vs.remove(i)) as int,
            m as int,
        );
        assert(m as int * prod(vs.remove(i)) as int == (prod(vs.remove(i)) * m) as int)
            by (nonlinear_arith);
    }
    // Executable division is the specification division.
    assert(val(gcds[p]@) == gcd_nat(rv / m, m));
    assert(rv / m == (rv as int / m as int) as nat);
    assert(val(gcds[p]@) == gcd_nat(prod(vs.remove(i)), m));
    lemma_gcd_sym(prod(vs.remove(i)), m);
    assert(val(gcds[p]@) == gcd_nat(m, prod(vs.remove(i))));
    assert(others_gcd(vs, i) == gcd_nat(vs[i], prod(vs.remove(i))));
    assert(val(unpadded[i]@) == others_gcd(vs, i));
    assert(canonical(unpadded[i]@)) by {
        assert(canonical(gcds[p]@));
    }
    // The gcd with a positive number is positive, and divides the modulus.
    assert(prod(vs.remove(i)) >= 1) by {
        assert forall|q: int| 0 <= q < vs.remove(i).len() implies #[trigger] vs.remove(i)[q]
            >= 1 by {
            if q < i {
                assert(vs.remove(i)[q] == vs[q]);
            } else {
                assert(vs.remove(i)[q] == vs[q + 1]);
            }
        }
        lemma_prod_pos(vs.remove(i));
    }
    assert(others_gcd(vs, i) >= 1) by {
        lemma_gcd_sym(vs[i], prod(vs.remove(i)));
        lemma_gcd_pos(prod(vs.remove(i)), vs[i]);
    }
    assert(divides(others_gcd(vs, i), vs[i])) by {
        lemma_gcd_divides(vs[i], prod(vs.remove(i)));
    }
}

/// The values of a pair sequence; mirrors `utils::pair_vals` for local use.
spec fn pair_vals_of(s: Seq<(nat, int)>) -> Seq<nat> {
    s.map_values(|p: (nat, int)| p.0)
}

/// What the contract of `compute` says a successful result looks like,
/// position for position.
pub open spec fn result_characterised(vs: Seq<nat>, out: Seq<Option<Big>>) -> bool {
    out.len() == vs.len() && forall|i: int|
        0 <= i < out.len() ==> match #[trigger] out[i] {
            Option::None => others_gcd(vs, i) == 1,
            Option::Some(g) => canonical(g@) && val(g@) == others_gcd(vs, i) && val(g@) > 1,
        }
}

/// The null rule: a position of a successful result is null exactly when
/// its modulus shares no factor with the product of the other moduli.
pub proof fn lemma_null_iff_coprime(vs: Seq<nat>, out: Seq<Option<Big>>, i: int)
    requires
        result_characterised(vs, out),
        0 <= i < out.len(),
    ensures
        out[i] is None <==> others_gcd(vs, i) == 1,
{
    match out[i] {
        Option::None => {},
        Option::Some(g) => {
            assert(val(g@) == others_gcd(vs, i) && val(g@) > 1);
        },
    }
}

/// Cache independence and idempotence: the contract of `compute` pins a
/// successful result by the input values alone, so a run without a cache,
/// a run over a fresh cache, and a rerun over the checkpoints an earlier
/// run wrote all return the same sequence.
pub proof fn lemma_compute_deterministic(vs: Seq<nat>, r1: Seq<Option<Big>>, r2: Seq<Option<Big>>)
    requires
        result_characterised(vs, r1),
        result_characterised(vs, r2),
    ensures
        r1.len() == r2.len(),
        forall|i: int|
            0 <= i < r1.len() ==> ((#[trigger] r1[i]) is None <==> r2[i] is None),
        forall|i: int|
            0 <= i < r1.len() && (#[trigger] r1[i]) is Some ==> r1[i]->Some_0@ == r2[i]->Some_0@,
{
    assert forall|i: int|
        0 <= i < r1.len() implies ((#[trigger] r1[i]) is None <==> r2[i] is None) by {
        match r1[i] {
            Option::None => {
                assert(others_gcd(vs, i) == 1);
                match r2[i] {
                    Option::None => {},
                    Option::Some(g2) => {
                        assert(val(g2@) == others_gcd(vs, i) && val(g2@) > 1);
                    },
                }
            },
            Option::Some(g1) => {
                match r2[i] {
                    Option::None => {
                        assert(val(g1@) == others_gcd(vs, i) && val(g1@) > 1);
                    },
                    Option::Some(_) => {},
                }
            },
        }
    }
    assert forall|i: int|
        0 <= i < r1.len() && (#[trigger] r1[i]) is Some implies r1[i]->Some_0@ == r2[i]->Some_0@
        by {
        match (r1[i], r2[i]) {
            (Option::Some(g1), Option::Some(g2)) => {
                assert(val(g1@) == others_gcd(vs, i));
                assert(val(g2@) == others_gcd(vs, i));
                crate::big::lemma_canonical_unique(g1@, g2@);
            },
            _ => {
                assert(r2[i] is Some);
            },
        }
    }
}

/// With exactly two moduli, each position's result is the gcd of the two:
/// the list's only other modulus is the whole of the product.
pub proof fn lemma_two_moduli(vs: Seq<nat>)
    requires
        vs.len() == 2,
    ensures
        others_gcd(vs, 0) == gcd_nat(vs[0], vs[1]),
        others_gcd(vs, 1) == gcd_nat(vs[0], vs[1]),
{
    assert(vs.remove(0) =~= seq![vs[1]]);
    assert(vs.remove(1) =~= seq![vs[0]]);
    lemma_prod_single(vs[1]);
    lemma_prod_single(vs[0]);
    lemma_gcd_sym(vs[1], vs[0]);
}

proof fn lemma_prod_single(x: nat)
    ensures
        prod(seq![x]) == x,
{
    assert(seq![x].drop_last() =~= Seq::<nat>::empty());
    assert(prod(seq![x]) == prod(Seq::<nat>::empty()) * x);
    assert(1 * x == x) by (nonlinear_arith);
}

/// A pairwise coprime input yields null everywhere: each modulus is
/// coprime to the product of all the others.
pub proof fn lemma_all_coprime_null(vs: Seq<nat>, i: int)
    requires
        0 <= i < vs.len(),
        forall|p: int, q: int|
            0 <= p < vs.len() && 0 <= q < vs.len() && p != q ==> gcd_nat(
                #[trigger] vs[p],
                #[trigger] vs[q],
            ) == 1,
    ensures
        others_gcd(vs, i) == 1,
{
    let rest = vs.remove(i);
    assert forall|j: int| 0 <= j < rest.len() implies gcd_nat(vs[i], #[trigger] rest[j]) == 1 by {
        if j < i {
            assert(rest[j] == vs[j]);
        } else {
            assert(rest[j] == vs[j + 1]);
        }
    }
    crate::arith::lemma_coprime_prod(vs[i], rest);
}

/// A modulus equal to 1 is an ordinary input whose own result is null: it
/// shares no factor greater than 1 with anything.
pub proof fn lemma_unit_modulus_null(vs: Seq<nat>, i: int)
    requires
        0 <= i < vs.len(),
        vs[i] == 1,
    ensures
        others_gcd(vs, i) == 1,
{
    crate::arith::lemma_gcd_with_one(prod(vs.remove(i)));
}

} // verus!
