//! The mathematical shape of the product tree: products of sequences,
//! the pairwise ascent that halves a level, and the level a power-of-two
//! sequence of leaves induces at each length.

use vstd::prelude::*;

verus! {

/// Product of a sequence of naturals; 1 for the empty sequence.
pub open spec fn prod(s: Seq<nat>) -> nat
    decreases s.len(),
{
    if s.len() == 0 {
        1
    } else {
        prod(s.drop_last()) * s.last()
    }
}

/// One ascent of the product tree: position `i` of the result is the
/// product of positions `i` and `i + half` of the level below.
pub open spec fn ascend_spec(s: Seq<nat>) -> Seq<nat> {
    Seq::new((s.len() / 2) as nat, |i: int| s[i] * s[i + s.len() / 2])
}

/// The level of length `target` above the leaves `s`: ascend until the
/// length has come down to `target`.
pub open spec fn level_at(s: Seq<nat>, target: nat) -> Seq<nat>
    decreases s.len(),
{
    if s.len() <= target || s.len() < 2 {
        s
    } else {
        level_at(ascend_spec(s), target)
    }
}

/// A positive power of two.
pub open spec fn is_pow2(n: nat) -> bool
    decreases n,
{
    if n == 0 {
        false
    } else if n == 1 {
        true
    } else {
        n % 2 == 0 && is_pow2(n / 2)
    }
}

/// Number of binary digits of `n`; 0 for 0.
pub open spec fn bits(n: nat) -> nat
    decreases n,
{
    if n == 0 {
        0
    } else {
        1 + bits(n / 2)
    }
}

/// A number between two neighbouring powers of two has the upper one's
/// exponent as its bit length.
pub proof fn lemma_bits_of_bounds(n: nat, k: nat)
    requires
        vstd::arithmetic::power2::pow2(k) <= n < vstd::arithmetic::power2::pow2(k + 1),
    ensures
        bits(n) == k + 1,
    decreases k,
{
    vstd::arithmetic::power2::lemma_pow2_pos(k);
    if k == 0 {
        assert(vstd::arithmetic::power2::pow2(0) == 1) by {
            vstd::arithmetic::power2::lemma2_to64();
        }
        assert(vstd::arithmetic::power2::pow2(1) == 2) by {
            vstd::arithmetic::power2::lemma2_to64();
        }
        assert(n == 1);
        assert(bits(0) == 0);
        assert(bits(1) == 1 + bits(0));
    } else {
        assert(vstd::arithmetic::power2::pow2(k) == 2 * vstd::arithmetic::power2::pow2(
            (k - 1) as nat,
        )) by {
            vstd::arithmetic::power2::lemma_pow2_unfold(k);
        }
        assert(vstd::arithmetic::power2::pow2(k + 1) == 2 * vstd::arithmetic::power2::pow2(k)) by {
            vstd::arithmetic::power2::lemma_pow2_unfold(k + 1);
        }
        assert(vstd::arithmetic::power2::pow2((k - 1) as nat) <= n / 2 < vstd::arithmetic::power2::pow2(
            k,
        )) by {
            assert(n == 2 * (n / 2) + n % 2) by {
                vstd::arithmetic::div_mod::lemma_fundamental_div_mod(n as int, 2);
            }
            assert(0 <= n % 2 < 2) by {
                vstd::arithmetic::div_mod::lemma_mod_pos_bound(n as int, 2);
            }
        }
        lemma_bits_of_bounds(n / 2, (k - 1) as nat);
        assert(n >= 1);
        assert(bits(n) == 1 + bits(n / 2));
    }
}

/// A positive number lies between the neighbouring powers of two that its
/// bit length names.
pub proof fn lemma_bits_bounds(n: nat)
    requires
        n >= 1,
    ensures
        bits(n) >= 1,
        vstd::arithmetic::power2::pow2((bits(n) - 1) as nat) <= n < vstd::arithmetic::power2::pow2(
            bits(n),
        ),
    decreases n,
{
    if n == 1 {
        assert(bits(1) == 1 + bits(0));
        vstd::arithmetic::power2::lemma2_to64();
    } else {
        lemma_bits_bounds(n / 2);
        let c = bits(n / 2);
        assert(bits(n) == 1 + c);
        assert(vstd::arithmetic::power2::pow2(c + 1) == 2 * vstd::arithmetic::power2::pow2(c)) by {
            vstd::arithmetic::power2::lemma_pow2_unfold(c + 1);
        }
        assert(n == 2 * (n / 2) + n % 2) by {
            vstd::arithmetic::div_mod::lemma_fundamental_div_mod(n as int, 2);
        }
        assert(0 <= n % 2 < 2) by {
            vstd::arithmetic::div_mod::lemma_mod_pos_bound(n as int, 2);
        }
        assert(vstd::arithmetic::power2::pow2(c) == 2 * vstd::arithmetic::power2::pow2(
            (c - 1) as nat,
        )) by {
            vstd::arithmetic::power2::lemma_pow2_unfold(c);
        }
    }
}

/// Bit length never decreases with the value.
pub proof fn lemma_bits_monotone(a: nat, b: nat)
    requires
        a <= b,
    ensures
        bits(a) <= bits(b),
    decreases b,
{
    if a > 0 {
        lemma_bits_monotone(a / 2, b / 2);
    }
}

/// Products multiply over concatenation.
pub proof fn lemma_prod_append(a: Seq<nat>, b: Seq<nat>)
    ensures
        prod(a + b) == prod(a) * prod(b),
    decreases b.len(),
{
    if b.len() == 0 {
        assert(a + b =~= a);
        assert(prod(a) * 1 == prod(a)) by (nonlinear_arith);
    } else {
        lemma_prod_append(a, b.drop_last());
        assert((a + b).drop_last() =~= a + b.drop_last());
        assert((a + b).last() == b.last());
        assert(prod(a + b) == prod(a) * prod(b.drop_last()) * b.last());
        assert(prod(a) * prod(b.drop_last()) * b.last() == prod(a) * (prod(b.drop_last())
            * b.last())) by (nonlinear_arith);
    }
}

/// Removing a position factors the product.
pub proof fn lemma_prod_remove(s: Seq<nat>, i: int)
    requires
        0 <= i < s.len(),
    ensures
        prod(s) == prod(s.remove(i)) * s[i],
    decreases s.len(),
{
    if i == s.len() - 1 {
        assert(s.remove(i) =~= s.drop_last());
    } else {
        lemma_prod_remove(s.drop_last(), i);
        assert(s.remove(i).drop_last() =~= s.drop_last().remove(i));
        assert(s.remove(i).last() == s.last());
        assert(prod(s.remove(i)) == prod(s.drop_last().remove(i)) * s.last());
        assert(prod(s) == prod(s.drop_last().remove(i)) * s.drop_last()[i] * s.last());
        assert(prod(s.drop_last().remove(i)) * s.drop_last()[i] * s.last() == prod(
            s.drop_last().remove(i),
        ) * s.last() * s.drop_last()[i]) by (nonlinear_arith);
        assert(s.drop_last()[i] == s[i]);
    }
}

/// Reversal keeps the product.
pub proof fn lemma_prod_reverse(s: Seq<nat>)
    ensures
        prod(s.reverse()) == prod(s),
    decreases s.len(),
{
    if s.len() > 0 {
        lemma_prod_reverse(s.drop_last());
        assert(s.reverse() =~= seq![s.last()] + s.drop_last().reverse());
        lemma_prod_append(seq![s.last()], s.drop_last().reverse());
        assert(prod(seq![s.last()]) == prod(seq![s.last()].drop_last()) * s.last());
        assert(seq![s.last()].drop_last() =~= Seq::<nat>::empty());
        assert(prod(seq![s.last()]) == 1 * s.last());
        assert(1 * s.last() == s.last()) by (nonlinear_arith);
        assert(s.last() * prod(s.drop_last()) == prod(s.drop_last()) * s.last())
            by (nonlinear_arith);
    }
}

/// The ascent keeps the product of the level.
pub proof fn lemma_prod_ascend(s: Seq<nat>)
    requires
        s.len() % 2 == 0,
    ensures
        prod(ascend_spec(s)) == prod(s),
{
    let h: int = s.len() as int / 2;
    lemma_prod_halves(s.take(h), s.skip(h));
    assert(s.take(h) + s.skip(h) =~= s);
    lemma_prod_append(s.take(h), s.skip(h));
    assert(ascend_spec(s) =~= Seq::new(h as nat, |i: int| s.take(h)[i] * s.skip(h)[i]));
}

/// Product of the pointwise products of two halves of equal length.
proof fn lemma_prod_halves(a: Seq<nat>, b: Seq<nat>)
    requires
        a.len() == b.len(),
    ensures
        prod(Seq::new(a.len(), |i: int| a[i] * b[i])) == prod(a) * prod(b),
    decreases a.len(),
{
    let z = Seq::new(a.len(), |i: int| a[i] * b[i]);
    if a.len() == 0 {
        assert(z =~= Seq::<nat>::empty());
        assert(prod(a) * prod(b) == 1) by (nonlinear_arith)
            requires
                prod(a) == 1,
                prod(b) == 1,
        ;
    } else {
        lemma_prod_halves(a.drop_last(), b.drop_last());
        let zd = Seq::new(a.drop_last().len(), |i: int| a.drop_last()[i] * b.drop_last()[i]);
        assert(z.drop_last() =~= zd);
        assert(z.last() == a.last() * b.last());
        assert(prod(z) == prod(zd) * (a.last() * b.last()));
        assert(prod(zd) == prod(a.drop_last()) * prod(b.drop_last()));
        assert(prod(a) == prod(a.drop_last()) * a.last());
        assert(prod(b) == prod(b.drop_last()) * b.last());
        assert(prod(z) == prod(a) * prod(b)) by (nonlinear_arith)
            requires
                prod(z) == prod(zd) * (a.last() * b.last()),
                prod(zd) == prod(a.drop_last()) * prod(b.drop_last()),
                prod(a) == prod(a.drop_last()) * a.last(),
                prod(b) == prod(b.drop_last()) * b.last(),
        ;
    }
}

/// Halving a power of two at least 2 gives a power of two.
pub proof fn lemma_pow2_half(n: nat)
    requires
        is_pow2(n),
        n >= 2,
    ensures
        n % 2 == 0,
        is_pow2(n / 2),
        n / 2 >= 1,
{
}

/// Two powers of two are ordered by doubling: the strictly larger one is at
/// least the double.
pub proof fn lemma_pow2_double_le(a: nat, b: nat)
    requires
        is_pow2(a),
        is_pow2(b),
        a < b,
    ensures
        2 * a <= b,
    decreases b,
{
    if a >= 2 {
        lemma_pow2_half(a);
        lemma_pow2_half(b);
        lemma_pow2_double_le(a / 2, b / 2);
    } else {
        assert(a == 1);
        lemma_pow2_half(b);
    }
}

/// The length of a level: ascending from a power-of-two length down to a
/// power-of-two target stops exactly at the target.
pub proof fn lemma_level_at_len(s: Seq<nat>, target: nat)
    requires
        is_pow2(s.len()),
        is_pow2(target),
        target <= s.len(),
    ensures
        level_at(s, target).len() == target,
        is_pow2(level_at(s, target).len()),
    decreases s.len(),
{
    if s.len() <= target || s.len() < 2 {
        assert(s.len() == target) by {
            if s.len() < target {
            } else if s.len() < 2 {
                assert(s.len() == 1);
                assert(target >= 1);
            }
        }
    } else {
        lemma_pow2_half(s.len());
        assert(ascend_spec(s).len() == s.len() / 2);
        assert(target <= s.len() / 2) by {
            lemma_pow2_double_le(target, s.len());
        }
        lemma_level_at_len(ascend_spec(s), target);
    }
}

/// Ascending the level of doubled length gives the level itself.
pub proof fn lemma_level_at_step(s: Seq<nat>, target: nat)
    requires
        is_pow2(s.len()),
        is_pow2(target),
        2 * target <= s.len(),
    ensures
        ascend_spec(level_at(s, 2 * target)) == level_at(s, target),
    decreases s.len(),
{
    if s.len() == 2 * target {
        assert(level_at(s, 2 * target) == s);
        lemma_pow2_half(s.len());
        assert(ascend_spec(s).len() == target);
        if target >= 2 {
            assert(level_at(s, target) == level_at(ascend_spec(s), target));
            assert(level_at(ascend_spec(s), target) == ascend_spec(s));
        } else {
            assert(target == 1);
            assert(s.len() == 2);
            assert(level_at(s, target) == level_at(ascend_spec(s), target));
            assert(level_at(ascend_spec(s), target) == ascend_spec(s));
        }
    } else {
        lemma_pow2_half(s.len());
        assert(is_pow2(2 * target)) by {
            assert((2 * target) % 2 == 0);
            assert((2 * target) / 2 == target);
        }
        assert(2 * target < s.len());
        lemma_pow2_double_le(2 * target, s.len());
        lemma_level_at_step(ascend_spec(s), target);
        assert(level_at(s, 2 * target) == level_at(ascend_spec(s), 2 * target));
        assert(level_at(s, target) == level_at(ascend_spec(s), target));
    }
}

/// Reaching a target by way of an intermediate level is the same as
/// reaching it directly.
pub proof fn lemma_level_at_compose(s: Seq<nat>, mid: nat, target: nat)
    requires
        is_pow2(s.len()),
        is_pow2(mid),
        is_pow2(target),
        target <= mid <= s.len(),
    ensures
        level_at(level_at(s, mid), target) == level_at(s, target),
    decreases s.len(),
{
    if s.len() <= mid || s.len() < 2 {
        assert(level_at(s, mid) == s);
    } else {
        lemma_pow2_half(s.len());
        lemma_pow2_double_le(mid, s.len());
        lemma_level_at_compose(ascend_spec(s), mid, target);
        assert(level_at(s, mid) == level_at(ascend_spec(s), mid));
        assert(level_at(s, target) == level_at(ascend_spec(s), target));
    }
}

/// The product of a level is the product of the leaves.
pub proof fn lemma_level_at_prod(s: Seq<nat>, target: nat)
    requires
        is_pow2(s.len()),
        is_pow2(target),
        target <= s.len(),
    ensures
        prod(level_at(s, target)) == prod(s),
    decreases s.len(),
{
    if s.len() <= target || s.len() < 2 {
    } else {
        lemma_pow2_half(s.len());
        lemma_pow2_double_le(target, s.len());
        lemma_prod_ascend(s);
        lemma_level_at_prod(ascend_spec(s), target);
    }
}

/// The root level holds exactly the product of the leaves.
pub proof fn lemma_level_at_root(s: Seq<nat>)
    requires
        is_pow2(s.len()),
    ensures
        level_at(s, 1) =~= seq![prod(s)],
{
    lemma_level_at_len(s, 1);
    lemma_level_at_prod(s, 1);
    let r = level_at(s, 1);
    assert(r.len() == 1);
    assert(prod(r) == prod(r.drop_last()) * r.last());
    assert(r.drop_last() =~= Seq::<nat>::empty());
    assert(prod(r) == 1 * r.last());
    assert(1 * r.last() == r.last()) by (nonlinear_arith);
    assert(r[0] == r.last());
}

/// Levels over leaves that are all at least one are themselves all at least
/// one.
pub proof fn lemma_level_at_pos(s: Seq<nat>, target: nat)
    requires
        forall|i: int| 0 <= i < s.len() ==> s[i] >= 1,
    ensures
        forall|i: int|
            0 <= i < level_at(s, target).len() ==> #[trigger] level_at(s, target)[i] >= 1,
    decreases s.len(),
{
    if s.len() <= target || s.len() < 2 {
        assert forall|i: int| 0 <= i < level_at(s, target).len() implies #[trigger] level_at(
            s,
            target,
        )[i] >= 1 by {
            assert(level_at(s, target) == s);
            assert(s[i] >= 1);
        }
    } else {
        assert forall|i: int| 0 <= i < ascend_spec(s).len() implies #[trigger] ascend_spec(s)[i]
            >= 1 by {
            assert(s[i] >= 1);
            assert(s[i + s.len() / 2] >= 1);
            assert(s[i] * s[i + s.len() / 2] >= 1) by (nonlinear_arith)
                requires
                    s[i] >= 1,
                    s[i + s.len() / 2] >= 1,
            ;
        }
        lemma_level_at_pos(ascend_spec(s), target);
        assert(level_at(s, target) == level_at(ascend_spec(s), target));
        assert forall|i: int| 0 <= i < level_at(s, target).len() implies #[trigger] level_at(
            s,
            target,
        )[i] >= 1 by {
            assert(level_at(ascend_spec(s), target)[i] >= 1);
        }
    }
}

/// A product of positive entries is positive.
pub proof fn lemma_prod_pos(s: Seq<nat>)
    requires
        forall|i: int| 0 <= i < s.len() ==> s[i] >= 1,
    ensures
        prod(s) >= 1,
    decreases s.len(),
{
    if s.len() > 0 {
        lemma_prod_pos(s.drop_last());
        assert(prod(s.drop_last()) * s.last() >= 1) by (nonlinear_arith)
            requires
                prod(s.drop_last()) >= 1,
                s.last() >= 1,
        ;
    }
}

} // verus!
