//! Arbitrary-precision non-negative integers, stored as big-endian base-256
//! digit strings. The multiplication, remainder, division, greatest common
//! divisor and comparison are delegated to the `num-bigint` backend behind
//! contracts over the mathematical value of the digit string; everything
//! else about the representation is verified here.

use vstd::prelude::*;

verus! {

/// Mathematical value of a big-endian base-256 digit string: the last digit
/// is the least significant.
pub open spec fn val(s: Seq<u8>) -> nat
    decreases s.len(),
{
    if s.len() == 0 {
        0
    } else {
        val(s.drop_last()) * 256 + s.last() as nat
    }
}

/// Canonical digit strings: zero is the single digit 0; any other number
/// carries no leading zero digit. Every `Big` holds a canonical string, so a
/// value has exactly one representation.
pub open spec fn canonical(s: Seq<u8>) -> bool {
    s.len() >= 1 && (s[0] != 0 || s.len() == 1)
}

/// 256 raised to the power `n`: the weight of a digit with `n` digits to its
/// right.
pub open spec fn pow256(n: nat) -> nat
    decreases n,
{
    if n == 0 {
        1
    } else {
        256 * pow256((n - 1) as nat)
    }
}

/// An arbitrary-precision non-negative integer. The view is the big-endian
/// digit string; `value` is the number it stands for.
#[derive(Debug)]
pub struct Big {
    digits: Vec<u8>,
}

impl View for Big {
    type V = Seq<u8>;

    closed spec fn view(&self) -> Seq<u8> {
        self.digits@
    }
}

/// The values of a sequence of big integers.
pub open spec fn vals(s: Seq<Big>) -> Seq<nat> {
    s.map_values(|b: Big| val(b@))
}

/// All entries of a sequence of big integers are canonical.
pub open spec fn canon_all(s: Seq<Big>) -> bool {
    forall|i: int| 0 <= i < s.len() ==> canonical(#[trigger] s[i]@)
}

pub proof fn lemma_pow256_pos(n: nat)
    ensures
        pow256(n) >= 1,
    decreases n,
{
    if n > 0 {
        lemma_pow256_pos((n - 1) as nat);
    }
}

/// Peeling the most significant digit off the front of a string.
pub proof fn lemma_val_front(s: Seq<u8>)
    requires
        s.len() >= 1,
    ensures
        val(s) == s[0] * pow256((s.len() - 1) as nat) + val(s.drop_first()),
    decreases s.len(),
{
    if s.len() == 1 {
        assert(s.drop_last() =~= Seq::<u8>::empty());
        assert(s.drop_first() =~= Seq::<u8>::empty());
        assert(val(Seq::<u8>::empty()) == 0);
        assert(val(s) == val(s.drop_last()) * 256 + s.last() as nat);
        assert(s.last() == s[0]);
        assert(pow256(0) == 1);
        assert(s[0] * 1 == s[0]) by (nonlinear_arith);
    } else {
        let dl = s.drop_last();
        lemma_val_front(dl);
        assert(dl.drop_first() =~= s.drop_first().drop_last());
        assert(val(s.drop_first()) == val(s.drop_first().drop_last()) * 256 + s.drop_first().last());
        assert(s.drop_first().last() == s.last());
        assert(val(s) == val(dl) * 256 + s.last());
        assert(val(dl) == s[0] * pow256((s.len() - 2) as nat) + val(s.drop_first().drop_last()));
        assert(s[0] * pow256((s.len() - 1) as nat) == s[0] * pow256((s.len() - 2) as nat) * 256)
            by {
            assert(pow256((s.len() - 1) as nat) == 256 * pow256((s.len() - 2) as nat));
            assert(s[0] * (256 * pow256((s.len() - 2) as nat)) == s[0] * pow256(
                (s.len() - 2) as nat,
            ) * 256) by (nonlinear_arith);
        }
    }
}

/// Every digit string is bounded by the weight of its length.
pub proof fn lemma_val_upper(s: Seq<u8>)
    ensures
        val(s) < pow256(s.len()),
    decreases s.len(),
{
    if s.len() == 0 {
    } else {
        lemma_val_upper(s.drop_last());
        assert(val(s.drop_last()) <= pow256((s.len() - 1) as nat) - 1);
        assert(val(s.drop_last()) * 256 <= (pow256((s.len() - 1) as nat) - 1) * 256)
            by (nonlinear_arith)
            requires
                val(s.drop_last()) <= pow256((s.len() - 1) as nat) - 1,
        ;
        assert(pow256(s.len()) == 256 * pow256((s.len() - 1) as nat));
    }
}

/// A string with a nonzero leading digit reaches the weight of that digit.
pub proof fn lemma_val_lower(s: Seq<u8>)
    requires
        s.len() >= 1,
        s[0] != 0,
    ensures
        val(s) >= pow256((s.len() - 1) as nat),
    decreases s.len(),
{
    lemma_val_front(s);
    assert(s[0] * pow256((s.len() - 1) as nat) >= pow256((s.len() - 1) as nat))
        by (nonlinear_arith)
        requires
            s[0] >= 1,
    ;
}

/// A canonical string of two or more digits stands for at least 256.
pub proof fn lemma_canonical_big(s: Seq<u8>)
    requires
        canonical(s),
        s.len() >= 2,
    ensures
        val(s) >= 256,
{
    lemma_val_lower(s);
    lemma_pow256_pos((s.len() - 2) as nat);
    assert(pow256((s.len() - 1) as nat) == 256 * pow256((s.len() - 2) as nat));
}

pub proof fn lemma_pow256_monotone(a: nat, b: nat)
    requires
        a <= b,
    ensures
        pow256(a) <= pow256(b),
    decreases b,
{
    if a < b {
        lemma_pow256_monotone(a, (b - 1) as nat);
        lemma_pow256_pos((b - 1) as nat);
    }
}

/// A value has exactly one canonical digit string.
pub proof fn lemma_canonical_unique(a: Seq<u8>, b: Seq<u8>)
    requires
        canonical(a),
        canonical(b),
        val(a) == val(b),
    ensures
        a =~= b,
    decreases a.len(),
{
    if a.len() < b.len() {
        assert(b.len() >= 2);
        assert(b[0] != 0);
        lemma_val_lower(b);
        lemma_val_upper(a);
        lemma_pow256_monotone(a.len(), (b.len() - 1) as nat);
        assert(val(b) >= pow256(a.len()));
    } else if b.len() < a.len() {
        assert(a.len() >= 2);
        assert(a[0] != 0);
        lemma_val_lower(a);
        lemma_val_upper(b);
        lemma_pow256_monotone(b.len(), (a.len() - 1) as nat);
        assert(val(a) >= pow256(b.len()));
    } else if a.len() == 1 {
        assert(a.drop_last() =~= Seq::<u8>::empty());
        assert(b.drop_last() =~= Seq::<u8>::empty());
        assert(val(Seq::<u8>::empty()) == 0);
        assert(val(a) == val(a.drop_last()) * 256 + a.last() as nat);
        assert(val(b) == val(b.drop_last()) * 256 + b.last() as nat);
        assert(val(a) == a[0]);
        assert(val(b) == b[0]);
        assert(a =~= b);
    } else {
        let da = a.drop_last();
        let db = b.drop_last();
        assert(val(a) == val(da) * 256 + a.last() as nat);
        assert(val(b) == val(db) * 256 + b.last() as nat);
        assert(a.last() == b.last() && val(da) == val(db)) by {
            vstd::arithmetic::div_mod::lemma_fundamental_div_mod_converse(
                val(a) as int,
                256,
                val(da) as int,
                a.last() as int,
            );
            vstd::arithmetic::div_mod::lemma_fundamental_div_mod_converse(
                val(b) as int,
                256,
                val(db) as int,
                b.last() as int,
            );
        }
        assert(canonical(da)) by {
            assert(da.len() >= 1);
            assert(da[0] == a[0]);
        }
        assert(canonical(db)) by {
            assert(db.len() >= 1);
            assert(db[0] == b[0]);
        }
        lemma_canonical_unique(da, db);
        assert(a =~= da.push(a.last()));
        assert(b =~= db.push(b.last()));
    }
}

/// The digit weight 256^n is the bit weight 2^(8n).
pub proof fn lemma_pow256_pow2(n: nat)
    ensures
        pow256(n) == vstd::arithmetic::power2::pow2(8 * n),
    decreases n,
{
    if n == 0 {
        vstd::arithmetic::power2::lemma2_to64();
    } else {
        lemma_pow256_pow2((n - 1) as nat);
        vstd::arithmetic::power2::lemma_pow2_adds(8, 8 * (n - 1) as nat);
        assert(vstd::arithmetic::power2::pow2(8) == 256) by {
            vstd::arithmetic::power2::lemma2_to64();
        }
        assert(8 * n == 8 + 8 * (n - 1) as nat);
    }
}

/// The bit length of a canonical nonzero value, read off its digits: eight
/// bits for every digit below the leading one, plus the leading digit's
/// own bit length.
pub proof fn lemma_bits_of_canonical(s: Seq<u8>)
    requires
        canonical(s),
        !(s.len() == 1 && s[0] == 0),
    ensures
        crate::tree::bits(val(s)) == 8 * (s.len() - 1) + crate::tree::bits(s[0] as nat),
{
    let d = s[0] as nat;
    let ll = (s.len() - 1) as nat;
    assert(d >= 1);
    lemma_val_front(s);
    lemma_val_upper(s.drop_first());
    assert(s.drop_first().len() == ll);
    let p = pow256(ll);
    lemma_pow256_pos(ll);
    assert(val(s) == d * p + val(s.drop_first()));
    assert(val(s) < d * p + p);
    let c = crate::tree::bits(d);
    crate::tree::lemma_bits_bounds(d);
    let lo = vstd::arithmetic::power2::pow2((c - 1) as nat);
    let hi = vstd::arithmetic::power2::pow2(c);
    lemma_pow256_pow2(ll);
    assert(p == vstd::arithmetic::power2::pow2(8 * ll));
    vstd::arithmetic::power2::lemma_pow2_adds((c - 1) as nat, 8 * ll);
    vstd::arithmetic::power2::lemma_pow2_adds(c, 8 * ll);
    assert(d * p >= lo * p) by (nonlinear_arith)
        requires
            d >= lo,
            p >= 1,
    ;
    assert(d * p + p <= hi * p) by (nonlinear_arith)
        requires
            d + 1 <= hi,
            p >= 1,
    ;
    assert(vstd::arithmetic::power2::pow2((c - 1 + 8 * ll) as nat) <= val(s)
        < vstd::arithmetic::power2::pow2((c - 1 + 8 * ll) as nat + 1)) by {
        assert(vstd::arithmetic::power2::pow2((c - 1 + 8 * ll) as nat) == lo * p);
        assert(vstd::arithmetic::power2::pow2(c + 8 * ll) == hi * p);
        assert((c - 1 + 8 * ll) as nat + 1 == c + 8 * ll);
    }
    crate::tree::lemma_bits_of_bounds(val(s), (c - 1 + 8 * ll) as nat);
    assert(crate::tree::bits(val(s)) == c + 8 * ll);
}

/// Concatenation weighs the front part by the length of the back part.
pub proof fn lemma_val_split(a: Seq<u8>, b: Seq<u8>)
    ensures
        val(a + b) == val(a) * pow256(b.len()) + val(b),
    decreases b.len(),
{
    if b.len() == 0 {
        assert(a + b =~= a);
        assert(val(a) * pow256(0) + val(b) == val(a) * 1 + 0);
        assert(val(a) * 1 == val(a)) by (nonlinear_arith);
    } else {
        lemma_val_split(a, b.drop_last());
        assert((a + b).drop_last() =~= a + b.drop_last());
        assert(val(a + b) == val(a + b.drop_last()) * 256 + b.last() as nat);
        assert(val(a + b.drop_last()) == val(a) * pow256((b.len() - 1) as nat) + val(
            b.drop_last(),
        ));
        assert(pow256(b.len()) == 256 * pow256((b.len() - 1) as nat));
        assert((val(a) * pow256((b.len() - 1) as nat) + val(b.drop_last())) * 256 == val(a) * (256
            * pow256((b.len() - 1) as nat)) + val(b.drop_last()) * 256) by (nonlinear_arith);
        assert(val(b) == val(b.drop_last()) * 256 + b.last() as nat);
    }
}

/// Among equal-length strings, the first differing digit decides the
/// order.
pub proof fn lemma_val_lt_of_lex(s: Seq<u8>, t: Seq<u8>, k: int)
    requires
        s.len() == t.len(),
        0 <= k < s.len(),
        forall|j: int| 0 <= j < k ==> s[j] == t[j],
        s[k] < t[k],
    ensures
        val(s) < val(t),
{
    let ss = s.skip(k);
    let ts = t.skip(k);
    assert(s =~= s.take(k) + ss);
    assert(t =~= t.take(k) + ts);
    assert(s.take(k) =~= t.take(k));
    lemma_val_split(s.take(k), ss);
    lemma_val_split(t.take(k), ts);
    assert(ss.len() == ts.len());
    // The suffixes compare by their leading digits.
    let ll = (ss.len() - 1) as nat;
    lemma_val_front(ss);
    lemma_val_front(ts);
    lemma_val_upper(ss.drop_first());
    assert(ss.drop_first().len() == ll);
    lemma_pow256_pos(ll);
    assert(ss[0] == s[k]);
    assert(ts[0] == t[k]);
    assert(val(ss) < (s[k] as nat + 1) * pow256(ll)) by (nonlinear_arith)
        requires
            val(ss) == s[k] as nat * pow256(ll) + val(ss.drop_first()),
            val(ss.drop_first()) < pow256(ll),
    ;
    assert((s[k] as nat + 1) * pow256(ll) <= t[k] as nat * pow256(ll)) by (nonlinear_arith)
        requires
            s[k] as nat + 1 <= t[k] as nat,
            pow256(ll) >= 1,
    ;
    assert(t[k] as nat * pow256(ll) <= val(ts));
    assert(val(ss) < val(ts));
}

/// The shorter of two digit strings stands for the smaller value, when the
/// longer one is canonical (no leading zero).
pub proof fn lemma_val_shorter(s: Seq<u8>, t: Seq<u8>)
    requires
        s.len() < t.len(),
        t.len() >= 2,
        canonical(t),
    ensures
        val(s) < val(t),
{
    lemma_val_upper(s);
    lemma_val_lower(t);
    lemma_pow256_monotone(s.len(), (t.len() - 1) as nat);
}

/// Leading zero digits do not change the value.
pub proof fn lemma_val_drop_leading_zero(s: Seq<u8>)
    requires
        s.len() >= 1,
        s[0] == 0,
    ensures
        val(s) == val(s.drop_first()),
{
    lemma_val_front(s);
}

impl Big {
    /// The number this big integer stands for.
    pub open spec fn value(&self) -> nat {
        val(self@)
    }

    /// The stored digit string is canonical; every constructor of the
    /// library establishes this and every operation keeps it.
    pub open spec fn wf(&self) -> bool {
        canonical(self@)
    }

    /// Build from a machine word.
    pub fn from_u64(v: u64) -> (r: Big)
        ensures
            r.wf(),
            r.value() == v,
    {
        if v == 0 {
            let mut digits: Vec<u8> = Vec::new();
            digits.push(0);
            assert(digits@ =~= seq![0u8]);
            assert(val(digits@) == val(digits@.drop_last()) * 256 + 0);
            Big { digits }
        } else {
            let mut digits: Vec<u8> = Vec::new();
            let mut x: u64 = v;
            proof {
                assert(digits@ =~= Seq::<u8>::empty());
                assert(val(digits@) == 0);
                assert(pow256(0) == 1);
                assert(x * pow256(0) == x) by (nonlinear_arith)
                    requires
                        pow256(0) == 1,
                ;
            }
            while x > 0
                invariant
                    val(digits@) + x * pow256(digits@.len()) == v,
                    x == 0 ==> digits@.len() > 0 && digits@[0] != 0,
                    v > 0,
                decreases x,
            {
                let d: u8 = (x % 256) as u8;
                let ghost olds = digits@;
                let ghost oldx = x;
                digits.insert(0, d);
                x = x / 256;
                proof {
                    assert(digits@ =~= seq![d].add(olds));
                    assert(digits@.drop_first() =~= olds);
                    lemma_val_front(digits@);
                    assert(val(digits@) == d * pow256(olds.len()) + val(olds));
                    assert(pow256(digits@.len()) == 256 * pow256(olds.len()));
                    assert(oldx == 256 * x + d) by {
                        assert(oldx / 256 * 256 + oldx % 256 == oldx) by (nonlinear_arith);
                    }
                    assert(oldx * pow256(olds.len()) == x * (256 * pow256(olds.len())) + d * pow256(
                        olds.len(),
                    )) by (nonlinear_arith)
                        requires
                            oldx == 256 * x + d,
                    ;
                    if x == 0 {
                        assert(d != 0);
                        assert(digits@[0] == d);
                    }
                }
            }
            proof {
                assert(val(digits@) == v);
            }
            Big { digits }
        }
    }

    /// Build from a big-endian digit string, stripping leading zeros to
    /// reach the canonical form. The value is that of the given string.
    pub fn from_bytes(bytes: &Vec<u8>) -> (r: Big)
        ensures
            r.wf(),
            r.value() == val(bytes@),
    {
        let n = bytes.len();
        let mut k: usize = 0;
        proof {
            assert(bytes@.skip(0) =~= bytes@);
        }
        while k < n && bytes[k as usize] == 0
            invariant
                0 <= k <= n,
                n == bytes@.len(),
                val(bytes@.skip(k as int)) == val(bytes@),
                forall|j: int| 0 <= j < k ==> bytes@[j] == 0,
            decreases n - k,
        {
            proof {
                let s = bytes@.skip(k as int);
                lemma_val_drop_leading_zero(s);
                assert(s.drop_first() =~= bytes@.skip(k + 1));
            }
            k = k + 1;
        }
        if k == n {
            let mut digits: Vec<u8> = Vec::new();
            digits.push(0);
            proof {
                assert(bytes@.skip(n as int) =~= Seq::<u8>::empty());
                assert(digits@ =~= seq![0u8]);
                assert(val(digits@) == val(digits@.drop_last()) * 256 + 0);
            }
            Big { digits }
        } else {
            let mut digits: Vec<u8> = Vec::new();
            let mut j: usize = k;
            while j < n
                invariant
                    k <= j <= n,
                    n == bytes@.len(),
                    digits@ =~= bytes@.subrange(k as int, j as int),
                decreases n - j,
            {
                digits.push(bytes[j]);
                proof {
                    assert(digits@ =~= bytes@.subrange(k as int, j + 1));
                }
                j = j + 1;
            }
            proof {
                assert(digits@ =~= bytes@.skip(k as int));
                assert(digits@[0] == bytes@[k as int]);
            }
            Big { digits }
        }
    }

    /// The digit string, for callers that serialise or convert the value.
    pub fn bytes(&self) -> (r: &Vec<u8>)
        ensures
            r@ == self@,
    {
        &self.digits
    }

    /// Whether the stored digit string is canonical. Used to screen big
    /// integers that re-enter the library from a decoded checkpoint.
    pub fn is_canonical(&self) -> (r: bool)
        ensures
            r == self.wf(),
    {
        self.digits.len() >= 1 && (self.digits.len() == 1 || self.digits[0] != 0)
    }

    /// Number of binary digits of the value, read off the canonical
    /// digit string: eight per digit below the leading one, plus the
    /// leading digit's own bit length. It steers the remainder engine's
    /// short-circuit.
    pub fn bit_length(&self) -> (r: u128)
        requires
            self.wf(),
        ensures
            r == crate::tree::bits(self.value()),
            r <= u128::MAX / 2,
    {
        let n = self.digits.len();
        let top = self.digits[0];
        if n == 1 && top == 0 {
            proof {
                assert(self@.drop_last() =~= Seq::<u8>::empty());
                assert(val(Seq::<u8>::empty()) == 0);
                assert(val(self@) == val(self@.drop_last()) * 256 + self@.last() as nat);
                assert(self.value() == 0);
                assert(crate::tree::bits(0) == 0);
            }
            return 0;
        }
        let top_bits: u128 = if top >= 128 {
            8
        } else if top >= 64 {
            7
        } else if top >= 32 {
            6
        } else if top >= 16 {
            5
        } else if top >= 8 {
            4
        } else if top >= 4 {
            3
        } else if top >= 2 {
            2
        } else {
            1
        };
        proof {
            vstd::arithmetic::power2::lemma2_to64();
            assert(top >= 1);
            if top >= 128 {
                crate::tree::lemma_bits_of_bounds(top as nat, 7);
            } else if top >= 64 {
                crate::tree::lemma_bits_of_bounds(top as nat, 6);
            } else if top >= 32 {
                crate::tree::lemma_bits_of_bounds(top as nat, 5);
            } else if top >= 16 {
                crate::tree::lemma_bits_of_bounds(top as nat, 4);
            } else if top >= 8 {
                crate::tree::lemma_bits_of_bounds(top as nat, 3);
            } else if top >= 4 {
                crate::tree::lemma_bits_of_bounds(top as nat, 2);
            } else if top >= 2 {
                crate::tree::lemma_bits_of_bounds(top as nat, 1);
            } else {
                crate::tree::lemma_bits_of_bounds(top as nat, 0);
            }
            assert(top_bits == crate::tree::bits(top as nat));
            lemma_bits_of_canonical(self@);
        }
        (n as u128 - 1) * 8 + top_bits
    }

    /// Whether the value is exactly one, decided on the canonical digits.
    pub fn is_one(&self) -> (r: bool)
        requires
            self.wf(),
        ensures
            r <==> self.value() == 1,
    {
        proof {
            if self@.len() >= 2 {
                lemma_canonical_big(self@);
            } else {
                assert(self@.len() == 1);
                assert(self@.drop_last() =~= Seq::<u8>::empty());
                assert(val(Seq::<u8>::empty()) == 0);
                assert(val(self@) == val(self@.drop_last()) * 256 + self@.last() as nat);
                assert(self@.last() == self@[0]);
                assert(val(self@) == self@[0]);
            }
        }
        self.digits.len() == 1 && self.digits[0] == 1
    }
}

impl Clone for Big {
    /// Copies the digit string; the copy stands for the same number.
    fn clone(&self) -> (r: Self)
        ensures
            r@ == self@,
    {
        let mut digits: Vec<u8> = Vec::new();
        let n = self.digits.len();
        let mut i: usize = 0;
        while i < n
            invariant
                0 <= i <= n,
                n == self.digits@.len(),
                digits@ =~= self.digits@.subrange(0, i as int),
            decreases n - i,
        {
            digits.push(self.digits[i]);
            proof {
                assert(digits@ =~= self.digits@.subrange(0, i + 1));
            }
            i = i + 1;
        }
        proof {
            assert(digits@ =~= self.digits@);
        }
        Big { digits }
    }
}

impl PartialEq for Big {
    fn eq(&self, other: &Self) -> (r: bool) {
        let n = self.digits.len();
        if n != other.digits.len() {
            proof {
                assert(self.digits@ != other.digits@);
            }
            return false;
        }
        let mut i: usize = 0;
        while i < n
            invariant
                0 <= i <= n,
                n == self.digits@.len(),
                n == other.digits@.len(),
                forall|j: int| 0 <= j < i ==> self.digits@[j] == other.digits@[j],
            decreases n - i,
        {
            if self.digits[i] != other.digits[i] {
                return false;
            }
            i = i + 1;
        }
        proof {
            assert(self.digits@ =~= other.digits@);
        }
        true
    }
}

impl vstd::std_specs::cmp::PartialEqSpecImpl for Big {
    open spec fn obeys_eq_spec() -> bool {
        true
    }

    open spec fn eq_spec(&self, other: &Self) -> bool {
        self@ == other@
    }
}

/// Copy of a whole level of big integers; the views are unchanged.
pub fn clone_bigs(level: &Vec<Big>) -> (r: Vec<Big>)
    ensures
        r@.len() == level@.len(),
        forall|i: int| 0 <= i < level@.len() ==> #[trigger] r@[i]@ == level@[i]@,
{
    let n = level.len();
    let mut out: Vec<Big> = Vec::new();
    let mut i: usize = 0;
    while i < n
        invariant
            0 <= i <= n,
            n == level@.len(),
            out@.len() == i,
            forall|j: int| 0 <= j < i ==> #[trigger] out@[j]@ == level@[j]@,
        decreases n - i,
    {
        out.push(level[i].clone());
        i = i + 1;
    }
    out
}

/// Relies on `num_bigint::BigUint` multiplication: the product of the two
/// magnitudes, returned by `to_bytes_be` as the minimal big-endian digit
/// string (the single digit 0 for zero).
#[verifier::external_body]
pub(crate) fn mul_big(a: &Big, b: &Big) -> (r: Big)
    ensures
        r.wf(),
        r.value() == a.value() * b.value(),
{
    let x = num_bigint::BigUint::from_bytes_be(&a.digits);
    let y = num_bigint::BigUint::from_bytes_be(&b.digits);
    Big { digits: (x * y).to_bytes_be() }
}

/// Relies on `num_bigint::BigUint` remainder: the Euclidean remainder of the
/// two magnitudes. The divisor must be nonzero, as the backend division
/// panics on zero.
#[verifier::external_body]
pub(crate) fn rem_big(a: &Big, b: &Big) -> (r: Big)
    requires
        b.value() >= 1,
    ensures
        r.wf(),
        r.value() == a.value() % b.value(),
{
    let x = num_bigint::BigUint::from_bytes_be(&a.digits);
    let y = num_bigint::BigUint::from_bytes_be(&b.digits);
    Big { digits: (x % y).to_bytes_be() }
}

/// Relies on `num_bigint::BigUint` division: the Euclidean quotient of the
/// two magnitudes. The divisor must be nonzero, as the backend division
/// panics on zero.
#[verifier::external_body]
pub(crate) fn div_big(a: &Big, b: &Big) -> (r: Big)
    requires
        b.value() >= 1,
    ensures
        r.wf(),
        r.value() == a.value() / b.value(),
{
    let x = num_bigint::BigUint::from_bytes_be(&a.digits);
    let y = num_bigint::BigUint::from_bytes_be(&b.digits);
    Big { digits: (x / y).to_bytes_be() }
}

/// Relies on `num_integer::Integer::gcd` for `BigUint`: the greatest common
/// divisor of the two magnitudes, with `gcd(x, 0) == x` at the edges, which
/// is exactly the Euclidean `crate::arith::gcd_nat`.
#[verifier::external_body]
pub(crate) fn gcd_big(a: &Big, b: &Big) -> (r: Big)
    ensures
        r.wf(),
        r.value() == crate::arith::gcd_nat(a.value(), b.value()),
{
    let x = num_bigint::BigUint::from_bytes_be(&a.digits);
    let y = num_bigint::BigUint::from_bytes_be(&b.digits);
    Big { digits: num_integer::Integer::gcd(&x, &y).to_bytes_be() }
}

/// Numerical order of two canonical big integers, decided on the digits:
/// by length first, then by the most significant differing digit.
pub(crate) fn le_big(a: &Big, b: &Big) -> (r: bool)
    requires
        a.wf(),
        b.wf(),
    ensures
        r <==> a.value() <= b.value(),
{
    let n = a.digits.len();
    let m = b.digits.len();
    if n != m {
        proof {
            if n < m {
                lemma_val_shorter(a@, b@);
            } else {
                lemma_val_shorter(b@, a@);
            }
        }
        return n < m;
    }
    let mut k: usize = 0;
    while k < n
        invariant
            0 <= k <= n,
            n == a@.len(),
            n == b@.len(),
            forall|j: int| 0 <= j < k ==> a@[j] == b@[j],
        decreases n - k,
    {
        if a.digits[k] < b.digits[k] {
            proof {
                lemma_val_lt_of_lex(a@, b@, k as int);
            }
            return true;
        }
        if a.digits[k] > b.digits[k] {
            proof {
                lemma_val_lt_of_lex(b@, a@, k as int);
            }
            return false;
        }
        k = k + 1;
    }
    proof {
        assert(a@ =~= b@);
    }
    true
}

} // verus!
