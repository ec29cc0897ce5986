//! The level codec: a level is serialised as a flat concatenation of
//! records, each a little-endian 32-bit byte count followed by that many
//! bytes of big-endian magnitude. End of input at a record boundary is a
//! complete level; end of input inside a record is corruption. The length
//! of a level is not stored: it is the number of records recovered.

use vstd::prelude::*;
use crate::big::{val, canonical, canon_all, Big};
use vstd::arithmetic::div_mod::{lemma_fundamental_div_mod, lemma_mod_pos_bound, lemma_small_mod,
    lemma_div_denominator};

verus! {

/// The little-endian four-byte encoding of a record length.
pub open spec fn le32(n: nat) -> Seq<u8> {
    seq![
        (n % 256) as u8,
        ((n / 256) % 256) as u8,
        ((n / 65536) % 256) as u8,
        ((n / 16777216) % 256) as u8,
    ]
}

/// The number the first four bytes stand for, little-endian.
pub open spec fn le32_val(s: Seq<u8>) -> nat {
    s[0] as nat + 256 * (s[1] as nat + 256 * (s[2] as nat + 256 * (s[3] as nat)))
}

/// The magnitude bytes of a canonical digit string: the value zero has an
/// empty magnitude and is stored as a record of length 0.
pub open spec fn magnitude(s: Seq<u8>) -> Seq<u8> {
    if s.len() == 1 && s[0] == 0 {
        Seq::empty()
    } else {
        s
    }
}

/// A level as a flat byte string, one record per entry.
pub open spec fn spec_encode(ds: Seq<Seq<u8>>) -> Seq<u8>
    decreases ds.len(),
{
    if ds.len() == 0 {
        Seq::empty()
    } else {
        le32(magnitude(ds.first()).len()) + magnitude(ds.first()) + spec_encode(ds.drop_first())
    }
}

/// The records of a byte string: all of it split into records, or nothing
/// when the input ends inside a record.
pub open spec fn spec_decode(bytes: Seq<u8>) -> Option<Seq<Seq<u8>>>
    decreases bytes.len(),
{
    if bytes.len() == 0 {
        Option::Some(Seq::empty())
    } else if bytes.len() < 4 {
        Option::None
    } else {
        let m = le32_val(bytes);
        if bytes.len() < 4 + m {
            Option::None
        } else {
            match spec_decode(bytes.skip(4 + m as int)) {
                Option::Some(rest) => Option::Some(seq![bytes.subrange(4, 4 + m as int)] + rest),
                Option::None => Option::None,
            }
        }
    }
}

/// Four little-endian bytes of a number below 2^32 read back as the
/// number.
proof fn lemma_le32_roundtrip(n: nat)
    requires
        n < 0x100000000,
    ensures
        le32_val(le32(n)) == n,
{
    let b = le32(n);
    assert(b[0] == (n % 256) as u8);
    assert(b[1] == ((n / 256) % 256) as u8);
    assert(b[2] == ((n / 65536) % 256) as u8);
    assert(b[3] == ((n / 16777216) % 256) as u8);
    lemma_mod_pos_bound(n as int, 256);
    lemma_mod_pos_bound(n as int / 256, 256);
    lemma_mod_pos_bound(n as int / 65536, 256);
    assert(n / 16777216 < 256) by {
        assert(n < 16777216 * 256);
        vstd::arithmetic::div_mod::lemma_div_by_multiple_is_strongly_ordered(
            n as int,
            (16777216 * 256) as int,
            256,
            16777216,
        );
        assert((16777216 * 256) / 16777216 == 256) by {
            vstd::arithmetic::div_mod::lemma_div_by_multiple(256, 16777216);
        }
    }
    lemma_small_mod(n / 16777216, 256);
    lemma_fundamental_div_mod(n as int, 256);
    lemma_fundamental_div_mod(n as int / 256, 256);
    lemma_fundamental_div_mod(n as int / 65536, 256);
    lemma_div_denominator(n as int, 256, 256);
    assert(n as int / 256 / 256 == n as int / 65536);
    lemma_div_denominator(n as int, 65536, 256);
    assert(n as int / 65536 / 256 == n as int / 16777216);
}

/// Appending one record to a level appends its encoding.
proof fn lemma_encode_push(ds: Seq<Seq<u8>>, d: Seq<u8>)
    ensures
        spec_encode(ds.push(d)) == spec_encode(ds) + le32(magnitude(d).len()) + magnitude(d),
    decreases ds.len(),
{
    let md = magnitude(d);
    if ds.len() == 0 {
        assert(ds.push(d).first() == d);
        assert(ds.push(d).drop_first() =~= Seq::<Seq<u8>>::empty());
        assert(spec_encode(ds.push(d)) == le32(md.len()) + md + spec_encode(
            Seq::<Seq<u8>>::empty(),
        ));
        assert(le32(md.len()) + md + Seq::<u8>::empty() =~= Seq::<u8>::empty() + le32(md.len())
            + md);
    } else {
        lemma_encode_push(ds.drop_first(), d);
        assert(ds.push(d).first() == ds.first());
        assert(ds.push(d).drop_first() =~= ds.drop_first().push(d));
        let m0 = magnitude(ds.first());
        assert(spec_encode(ds.push(d)) == le32(m0.len()) + m0 + spec_encode(
            ds.drop_first().push(d),
        ));
        assert(le32(m0.len()) + m0 + (spec_encode(ds.drop_first()) + le32(md.len()) + md) =~= (
        le32(m0.len()) + m0 + spec_encode(ds.drop_first())) + le32(md.len()) + md);
    }
}

/// Decoding an encoded level restores it record for record: each record
/// holds the magnitude of its entry, which stands for the entry's value.
pub proof fn lemma_codec_roundtrip(ds: Seq<Seq<u8>>)
    requires
        forall|i: int| 0 <= i < ds.len() ==> (#[trigger] ds[i]).len() < 0x100000000,
    ensures
        spec_decode(spec_encode(ds)) == Option::Some(
            ds.map_values(|d: Seq<u8>| magnitude(d)),
        ),
        forall|i: int| 0 <= i < ds.len() ==> val(magnitude(#[trigger] ds[i])) == val(ds[i]),
    decreases ds.len(),
{
    assert forall|i: int| 0 <= i < ds.len() implies val(magnitude(#[trigger] ds[i])) == val(
        ds[i],
    ) by {
        let d = ds[i];
        if d.len() == 1 && d[0] == 0 {
            assert(d.drop_last() =~= Seq::<u8>::empty());
            assert(val(Seq::<u8>::empty()) == 0);
            assert(val(d) == val(d.drop_last()) * 256 + d.last() as nat);
        }
    }
    let mags = ds.map_values(|d: Seq<u8>| magnitude(d));
    if ds.len() == 0 {
        assert(spec_encode(ds) =~= Seq::<u8>::empty());
        assert(spec_decode(spec_encode(ds)) == Option::Some(Seq::<Seq<u8>>::empty()));
        assert(mags =~= Seq::<Seq<u8>>::empty());
    } else {
        let d0 = magnitude(ds.first());
        let rest = ds.drop_first();
        let enc = spec_encode(ds);
        let m = d0.len();
        assert(m < 0x100000000) by {
            assert(ds[0].len() < 0x100000000);
        }
        assert(enc == le32(m) + d0 + spec_encode(rest));
        assert(enc.len() == 4 + m + spec_encode(rest).len());
        lemma_le32_roundtrip(m);
        assert(enc.subrange(0, 4) =~= le32(m));
        assert(le32_val(enc) == le32_val(le32(m))) by {
            assert(enc[0] == le32(m)[0]);
            assert(enc[1] == le32(m)[1]);
            assert(enc[2] == le32(m)[2]);
            assert(enc[3] == le32(m)[3]);
        }
        assert(le32_val(enc) == m);
        assert(enc.subrange(4, 4 + m as int) =~= d0);
        assert(enc.skip(4 + m as int) =~= spec_encode(rest));
        assert forall|i: int| 0 <= i < rest.len() implies (#[trigger] rest[i]).len()
            < 0x100000000 by {
            assert(rest[i] == ds[i + 1]);
        }
        lemma_codec_roundtrip(rest);
        assert(spec_decode(enc) == Option::Some(
            seq![d0] + rest.map_values(|d: Seq<u8>| magnitude(d)),
        ));
        assert(seq![d0] + rest.map_values(|d: Seq<u8>| magnitude(d)) =~= mags) by {
            assert forall|i: int| 0 <= i < mags.len() implies mags[i] == (seq![d0]
                + rest.map_values(|d: Seq<u8>| magnitude(d)))[i] by {
                if i > 0 {
                    assert(mags[i] == magnitude(ds[i]));
                    assert(rest.map_values(|d: Seq<u8>| magnitude(d))[i - 1] == magnitude(
                        rest[i - 1],
                    ));
                    assert(rest[i - 1] == ds[i]);
                }
            }
        }
    }
}

/// Serialise a level. Every record must be shorter than 2^32 bytes, the
/// reach of the stored length field.
pub fn encode_level(level: &Vec<Big>) -> (r: Vec<u8>)
    requires
        forall|i: int| 0 <= i < level@.len() ==> (#[trigger] level@[i]@).len() < 0x100000000,
    ensures
        r@ == spec_encode(level@.map_values(|b: Big| b@)),
{
    let ghost ds = level@.map_values(|b: Big| b@);
    let n = level.len();
    let mut out: Vec<u8> = Vec::new();
    let mut k: usize = 0;
    proof {
        assert(ds.take(0) =~= Seq::<Seq<u8>>::empty());
        assert(out@ =~= spec_encode(ds.take(0)));
    }
    while k < n
        invariant
            0 <= k <= n,
            n == level@.len(),
            ds == level@.map_values(|b: Big| b@),
            forall|i: int| 0 <= i < level@.len() ==> (#[trigger] level@[i]@).len() < 0x100000000,
            out@ == spec_encode(ds.take(k as int)),
        decreases n - k,
    {
        let digits = level[k].bytes();
        // The value zero is stored as a record of length 0.
        let m = if digits.len() == 1 && digits[0] == 0 {
            0
        } else {
            digits.len()
        };
        let ghost mag = magnitude(level@[k as int]@);
        let ghost pre = out@;
        proof {
            assert(ds[k as int] == level@[k as int]@);
            assert(m == mag.len());
            assert(m < 0x100000000);
        }
        out.push((m % 256) as u8);
        out.push(((m / 256) % 256) as u8);
        out.push(((m / 65536) % 256) as u8);
        out.push(((m / 16777216) % 256) as u8);
        proof {
            assert(out@ =~= pre + le32(m as nat));
        }
        let ghost pre2 = out@;
        let mut j: usize = 0;
        while j < m
            invariant
                0 <= j <= m,
                m <= digits@.len(),
                digits@ == level@[k as int]@,
                mag == magnitude(level@[k as int]@),
                m == mag.len(),
                k < n,
                n == level@.len(),
                out@ == pre2 + digits@.take(j as int),
            decreases m - j,
        {
            out.push(digits[j]);
            proof {
                assert(out@ =~= pre2 + digits@.take(j + 1));
            }
            j = j + 1;
        }
        proof {
            assert(out@ =~= pre + le32(mag.len()) + mag) by {
                assert(digits@.take(m as int) =~= mag);
            }
            lemma_encode_push(ds.take(k as int), ds[k as int]);
            assert(ds.take(k + 1) =~= ds.take(k as int).push(ds[k as int]));
            assert(out@ =~= spec_encode(ds.take(k + 1)));
        }
        k = k + 1;
    }
    proof {
        assert(ds.take(n as int) =~= ds);
    }
    out
}

/// Deserialise a level. A clean end at a record boundary is success; an
/// end inside a record is corruption, reported as nothing. Each recovered
/// number carries the canonical digits of the record's value.
pub fn decode_level(bytes: &Vec<u8>) -> (r: Option<Vec<Big>>)
    ensures
        r is Some <==> spec_decode(bytes@) is Some,
        r matches Option::Some(v) ==> {
            let recs = spec_decode(bytes@)->Some_0;
            &&& v@.len() == recs.len()
            &&& canon_all(v@)
            &&& forall|i: int| 0 <= i < v@.len() ==> val(#[trigger] v@[i]@) == val(recs[i])
        },
{
    let n = bytes.len();
    let mut out: Vec<Big> = Vec::new();
    let ghost mut recs: Seq<Seq<u8>> = Seq::empty();
    let mut pos: usize = 0;
    proof {
        assert(bytes@.skip(0) =~= bytes@);
    }
    while pos < n
        invariant
            0 <= pos <= n,
            n == bytes@.len(),
            out@.len() == recs.len(),
            canon_all(out@),
            forall|i: int| 0 <= i < out@.len() ==> val(#[trigger] out@[i]@) == val(recs[i]),
            spec_decode(bytes@) == match spec_decode(bytes@.skip(pos as int)) {
                Option::Some(rest) => Option::Some(recs + rest),
                Option::None => Option::None::<Seq<Seq<u8>>>,
            },
        decreases n - pos,
    {
        let ghost tail = bytes@.skip(pos as int);
        if n - pos < 4 {
            proof {
                assert(tail.len() == n - pos);
                assert(spec_decode(tail) is None);
            }
            return Option::None;
        }
        let b0 = bytes[pos] as u64;
        let b1 = bytes[pos + 1] as u64;
        let b2 = bytes[pos + 2] as u64;
        let b3 = bytes[pos + 3] as u64;
        let m64: u64 = b0 + 256 * (b1 + 256 * (b2 + 256 * b3));
        proof {
            assert(tail[0] == bytes@[pos as int]);
            assert(tail[1] == bytes@[pos as int + 1]);
            assert(tail[2] == bytes@[pos as int + 2]);
            assert(tail[3] == bytes@[pos as int + 3]);
            assert(m64 as nat == le32_val(tail));
        }
        let remaining: u64 = (n - pos - 4) as u64;
        if remaining < m64 {
            proof {
                assert(tail.len() < 4 + le32_val(tail));
                assert(spec_decode(tail) is None);
            }
            return Option::None;
        }
        let m = m64 as usize;
        let mut rec: Vec<u8> = Vec::new();
        let mut j: usize = 0;
        while j < m
            invariant
                0 <= j <= m,
                pos + 4 + m <= n,
                n == bytes@.len(),
                rec@ =~= bytes@.subrange(pos as int + 4, pos as int + 4 + j as int),
            decreases m - j,
        {
            rec.push(bytes[pos + 4 + j]);
            proof {
                assert(rec@ =~= bytes@.subrange(pos as int + 4, pos as int + 4 + j + 1));
            }
            j = j + 1;
        }
        let big = Big::from_bytes(&rec);
        let ghost old_out = out@;
        out.push(big);
        proof {
            let record = bytes@.subrange(pos as int + 4, pos as int + 4 + m as int);
            assert(rec@ =~= record);
            recs = recs.push(record);
            assert(canon_all(out@)) by {
                assert forall|i: int| 0 <= i < out@.len() implies canonical(
                    #[trigger] out@[i]@,
                ) by {
                    if i < old_out.len() {
                        assert(out@[i] == old_out[i]);
                        assert(canonical(old_out[i]@));
                    }
                }
            }
            assert forall|i: int| 0 <= i < out@.len() implies val(#[trigger] out@[i]@) == val(
                recs[i],
            ) by {
                if i < old_out.len() {
                    assert(out@[i] == old_out[i]);
                    assert(val(old_out[i]@) == val(recs[i]));
                }
            }
            // One decoding step.
            assert(tail.subrange(4, 4 + m as int) =~= record);
            assert(tail.skip(4 + m as int) =~= bytes@.skip(pos as int + 4 + m as int));
            assert(spec_decode(tail) == match spec_decode(bytes@.skip(pos as int + 4 + m as int)) {
                Option::Some(rest) => Option::Some(seq![record] + rest),
                Option::None => Option::None::<Seq<Seq<u8>>>,
            });
            assert(spec_decode(bytes@) == match spec_decode(
                bytes@.skip(pos as int + 4 + m as int),
            ) {
                Option::Some(rest) => Option::Some(recs + rest),
                Option::None => Option::None::<Seq<Seq<u8>>>,
            }) by {
                match spec_decode(bytes@.skip(pos as int + 4 + m as int)) {
                    Option::Some(rest) => {
                        assert(recs.drop_last() + (seq![record] + rest) =~= recs + rest);
                    },
                    Option::None => {},
                }
            }
        }
        pos = pos + 4 + m;
    }
    proof {
        assert(bytes@.skip(pos as int) =~= Seq::<u8>::empty());
        assert(spec_decode(bytes@.skip(pos as int)) == Option::Some(Seq::<Seq<u8>>::empty()));
        assert(recs + Seq::<Seq<u8>>::empty() =~= recs);
        assert(spec_decode(bytes@) == Option::Some(recs));
    }
    Option::Some(out)
}

} // verus!
