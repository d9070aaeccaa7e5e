//! The library's laws: the round-trip theorem — decoding an encoding
//! recovers the values — and the soundness of decoding — whatever decoding
//! accepts is exactly an encoding of what it returns.

use crate::bytes::spec_position;
use crate::harsh::{Error, HarshView};
use crate::model::{
    spec_decode, spec_decode_values, spec_encode, spec_encode_values, spec_hash, spec_segments,
    spec_shuffle_step, spec_unhash, spec_unhash_value,
};
use crate::shuffle::{lemma_shuffle_permutes, spec_shuffle};
use vstd::arithmetic::power::pow;
use vstd::prelude::*;

verus! {

/// In a duplicate-free sequence, the first position of `s[i]` is `i`.
proof fn lemma_position_no_dup(s: Seq<u8>, i: int)
    requires
        s.no_duplicates(),
        0 <= i < s.len(),
    ensures
        spec_position(s, s[i]) == Some(i),
{
    crate::bytes::lemma_position_properties(s, s[i]);
    assert(s.contains(s[i]));
    let p = spec_position(s, s[i])->Some_0;
    if p != i {
        assert(s[p] == s[i]);
    }
}

/// Appending a digit multiplies the numeral's value by the base and adds
/// the digit's position.
proof fn lemma_unhash_value_push(s: Seq<u8>, d: u8, a: Seq<u8>)
    requires
        a.len() >= 1,
    ensures
        spec_unhash_value(s.push(d), a) == (a.len() as nat) * spec_unhash_value(s, a)
            + crate::model::spec_digit_pos(a, d),
    decreases s.len(),
{
    reveal(pow);
    let l = a.len() as int;
    let pd = crate::model::spec_digit_pos(a, d);
    if s.len() == 0 {
        reveal_with_fuel(spec_unhash_value, 2);
        assert(s.push(d)[0] == d);
        assert(s.push(d).drop_first() =~= Seq::<u8>::empty());
        assert(spec_unhash_value(Seq::<u8>::empty(), a) == 0);
        assert(spec_unhash_value(s, a) == 0);
        assert(spec_unhash_value(s.push(d), a) == pd * (pow(l, 0) as nat));
        assert(pd * 1nat == pd) by (nonlinear_arith);
        assert((a.len() as nat) * spec_unhash_value(s, a) == 0) by (nonlinear_arith)
            requires
                spec_unhash_value(s, a) == 0,
        ;
    } else {
        let p0 = crate::model::spec_digit_pos(a, s[0]);
        assert(s.push(d)[0] == s[0]);
        assert(s.push(d).drop_first() =~= s.drop_first().push(d));
        lemma_unhash_value_push(s.drop_first(), d, a);
        let n = s.len() as int;
        assert(pow(l, n as nat) == l * pow(l, (n - 1) as nat));
        vstd::arithmetic::power::lemma_pow_positive(l, (n - 1) as nat);
        let vdf = spec_unhash_value(s.drop_first(), a);
        assert(spec_unhash_value(s.push(d), a) == p0 * (pow(l, n as nat) as nat) + ((
        a.len() as nat) * vdf + pd));
        assert(spec_unhash_value(s, a) == p0 * (pow(l, (n - 1) as nat) as nat) + vdf);
        assert(p0 * ((l * pow(l, (n - 1) as nat)) as nat) + ((a.len() as nat) * vdf + pd) == (
        a.len() as nat) * (p0 * (pow(l, (n - 1) as nat) as nat) + vdf) + pd) by (nonlinear_arith)
            requires
                l == a.len(),
                l >= 0,
                pow(l, (n - 1) as nat) >= 1,
                p0 >= 0,
                vdf >= 0,
                pd >= 0,
        ;
    }
}

/// The largest power of the base taken while rebuilding a digit string
/// never exceeds the encoded value (or one, for the single-digit case).
proof fn lemma_hash_pow_bound(value: nat, a: Seq<u8>)
    requires
        a.len() >= 2,
    ensures
        spec_hash(value, a).len() >= 1,
        pow(a.len() as int, (spec_hash(value, a).len() - 1) as nat) <= (if value >= 1 {
            value as int
        } else {
            1
        }),
    decreases value,
{
    reveal(pow);
    let l = a.len() as nat;
    if value < l {
    } else {
        assert(value / l < value) by (nonlinear_arith)
            requires
                l >= 2,
                value >= l,
        ;
        assert(value / l >= 1) by (nonlinear_arith)
            requires
                l >= 2,
                value >= l,
        ;
        lemma_hash_pow_bound(value / l, a);
        let n = spec_hash(value / l, a).len();
        assert(spec_hash(value, a).len() == n + 1);
        assert(pow(a.len() as int, n as nat) == a.len() * pow(a.len() as int, (n - 1) as nat));
        vstd::arithmetic::power::lemma_pow_positive(a.len() as int, (n - 1) as nat);
        assert(a.len() * pow(a.len() as int, (n - 1) as nat) <= a.len() * (value / l) <= value)
            by (nonlinear_arith)
            requires
                a.len() == l,
                l >= 2,
                value >= l,
                1 <= pow(a.len() as int, (n - 1) as nat) <= value / l,
        ;
    }
}

/// The value of a digit string is exactly the value it was built from.
proof fn lemma_unhash_value_of_hash(value: nat, a: Seq<u8>)
    requires
        a.len() >= 2,
        a.no_duplicates(),
    ensures
        spec_unhash_value(spec_hash(value, a), a) == value,
    decreases value,
{
    let l = a.len() as nat;
    if value < l {
        lemma_position_no_dup(a, value as int);
        assert(crate::model::spec_digit_pos(a, a[value as int]) == value);
        assert(spec_hash(value, a)[0] == a[value as int]);
        assert(spec_hash(value, a).drop_first() =~= Seq::<u8>::empty());
        reveal(pow);
        reveal_with_fuel(spec_unhash_value, 2);
        assert(spec_unhash_value(Seq::<u8>::empty(), a) == 0);
        assert(spec_unhash_value(spec_hash(value, a), a) == value * (pow(a.len() as int, 0) as nat));
        assert(value * 1nat == value) by (nonlinear_arith);
    } else {
        assert(value / l < value) by (nonlinear_arith)
            requires
                l >= 2,
                value >= l,
        ;
        lemma_unhash_value_of_hash(value / l, a);
        let d = a[(value % l) as int];
        lemma_position_no_dup(a, (value % l) as int);
        assert(crate::model::spec_digit_pos(a, d) == value % l);
        lemma_unhash_value_push(spec_hash(value / l, a), d, a);
        assert(spec_unhash_value(spec_hash(value, a), a) == l * (value / l) + (value % l));
        assert(l * (value / l) + (value % l) == value) by (nonlinear_arith)
            requires
                l >= 2,
        ;
    }
}

/// Rebuilding a digit string recovers exactly the encoded value: the digit
/// round trip for any duplicate-free alphabet of at least two bytes.
pub proof fn lemma_unhash_of_hash(value: u64, a: Seq<u8>)
    requires
        a.len() >= 2,
        a.no_duplicates(),
    ensures
        spec_unhash(spec_hash(value as nat, a), a) == Some(value),
{
    let digits = spec_hash(value as nat, a);
    crate::model::lemma_hash_bytes(value as nat, a);
    lemma_hash_pow_bound(value as nat, a);
    lemma_unhash_value_of_hash(value as nat, a);
    assert(!(exists|j: int| 0 <= j < digits.len() && !a.contains(#[trigger] digits[j])));
    assert(pow(a.len() as int, (digits.len() - 1) as nat) <= u64::MAX);
    assert(spec_unhash_value(digits, a) == value as nat);
}

/// The encoding loop only appends: its output is the starting buffer
/// followed by what it produces from an empty buffer, and the final working
/// alphabet does not depend on the buffer at all.
proof fn lemma_encode_values_prefix(
    h: HarshView,
    values: Seq<u64>,
    idx: int,
    lottery: u8,
    alphabet: Seq<u8>,
    buffer: Seq<u8>,
)
    requires
        0 <= idx,
    ensures
        spec_encode_values(h, values, idx, lottery, alphabet, buffer).0 == spec_encode_values(
            h,
            values,
            idx,
            lottery,
            alphabet,
            Seq::empty(),
        ).0,
        spec_encode_values(h, values, idx, lottery, alphabet, buffer).1 == buffer
            + spec_encode_values(h, values, idx, lottery, alphabet, Seq::empty()).1,
    decreases values.len() - idx,
{
    if idx >= values.len() {
        assert(buffer + Seq::<u8>::empty() =~= buffer);
    } else {
        let rotated = spec_shuffle_step(lottery, h.salt, alphabet);
        let seg = spec_hash(values[idx] as nat, rotated);
        let with_sep_empty = if idx + 1 < values.len() {
            let reduced = (values[idx] as nat) % (seg[0] + idx) as nat;
            (Seq::<u8>::empty() + seg).push(h.separators[(reduced % h.separators.len()) as int])
        } else {
            Seq::<u8>::empty() + seg
        };
        let with_sep_buf = if idx + 1 < values.len() {
            let reduced = (values[idx] as nat) % (seg[0] + idx) as nat;
            (buffer + seg).push(h.separators[(reduced % h.separators.len()) as int])
        } else {
            buffer + seg
        };
        assert(with_sep_buf =~= buffer + with_sep_empty);
        lemma_encode_values_prefix(h, values, idx + 1, lottery, rotated, with_sep_buf);
        lemma_encode_values_prefix(h, values, idx + 1, lottery, rotated, with_sep_empty);
        let tail = spec_encode_values(h, values, idx + 1, lottery, rotated, Seq::empty()).1;
        assert(spec_encode_values(h, values, idx, lottery, alphabet, buffer).1 == with_sep_buf
            + tail);
        assert(spec_encode_values(h, values, idx, lottery, alphabet, Seq::empty()).1
            == with_sep_empty + tail);
        assert((buffer + with_sep_empty) + tail =~= buffer + (with_sep_empty + tail));
    }
}

/// What the encoding loop emits, read back: the emitted bytes are alphabet
/// and separator bytes only, they are non-empty, and splitting them at the
/// separators and rebuilding each segment under the same alphabet rotations
/// recovers exactly the remaining values.
proof fn lemma_encode_values_decode(
    h: HarshView,
    values: Seq<u64>,
    idx: int,
    lottery: u8,
    alphabet: Seq<u8>,
)
    requires
        h.wf(),
        alphabet.to_multiset() == h.alphabet.to_multiset(),
        0 <= idx < values.len(),
    ensures
        ({
            let tail = spec_encode_values(h, values, idx, lottery, alphabet, Seq::empty());
            &&& tail.1.len() >= 1
            &&& (forall|k: int|
                0 <= k < tail.1.len() ==> h.alphabet.contains(#[trigger] tail.1[k])
                    || h.separators.contains(tail.1[k]))
            &&& tail.0.to_multiset() == h.alphabet.to_multiset()
            &&& spec_decode_values(
                spec_segments(tail.1, h.separators),
                lottery,
                h.salt,
                alphabet,
            ) == Some(values.skip(idx))
        }),
    decreases values.len() - idx,
{
    broadcast use {vstd::seq_lib::to_multiset_len, vstd::seq_lib::to_multiset_contains};

    let key = (seq![lottery] + h.salt + alphabet).take(alphabet.len() as int);
    let rotated = spec_shuffle_step(lottery, h.salt, alphabet);
    lemma_shuffle_permutes(alphabet, key);
    assert(rotated.to_multiset() == h.alphabet.to_multiset());
    assert(alphabet.to_multiset().len() == alphabet.len());
    assert(h.alphabet.to_multiset().len() == h.alphabet.len());
    assert(rotated.len() == h.alphabet.len());
    h.alphabet.lemma_multiset_has_no_duplicates();
    rotated.lemma_multiset_has_no_duplicates_conv();
    assert(rotated.no_duplicates());
    let seg = spec_hash(values[idx] as nat, rotated);
    crate::model::lemma_hash_bytes(values[idx] as nat, rotated);
    lemma_unhash_of_hash(values[idx], rotated);
    assert forall|k: int| 0 <= k < seg.len() implies h.alphabet.contains(#[trigger] seg[k]) by {
        assert(rotated.contains(seg[k]));
        assert(rotated.to_multiset().contains(seg[k]));
        assert(h.alphabet.to_multiset().contains(seg[k]));
    }
    assert forall|k: int| 0 <= k < seg.len() implies !h.separators.contains(#[trigger] seg[k]) by {
        assert(h.alphabet.contains(seg[k]));
    }
    let tail = spec_encode_values(h, values, idx, lottery, alphabet, Seq::empty());
    if idx + 1 < values.len() {
        let reduced = (values[idx] as nat) % (seg[0] + idx) as nat;
        let sep = h.separators[(reduced % h.separators.len()) as int];
        assert(h.separators.contains(sep));
        let with_sep = (Seq::<u8>::empty() + seg).push(sep);
        assert(with_sep =~= seg.push(sep));
        lemma_encode_values_prefix(h, values, idx + 1, lottery, rotated, with_sep);
        lemma_encode_values_decode(h, values, idx + 1, lottery, rotated);
        let rest = spec_encode_values(h, values, idx + 1, lottery, rotated, Seq::empty());
        assert(tail.1 == with_sep + rest.1);
        assert(tail.1 =~= (seg + seq![sep]) + rest.1);
        assert(tail.1.len() == seg.len() + 1 + rest.1.len());
        assert forall|k: int|
            0 <= k < tail.1.len() implies h.alphabet.contains(#[trigger] tail.1[k])
            || h.separators.contains(tail.1[k]) by {
            if k < seg.len() {
                assert(tail.1[k] == seg[k]);
            } else if k == seg.len() {
                assert(tail.1[k] == sep);
            } else {
                assert(tail.1[k] == rest.1[k - seg.len() - 1]);
            }
        }
        assert forall|k: int| 0 <= k < seg.len() implies !h.separators.contains(
            #[trigger] tail.1[k],
        ) by {
            assert(tail.1[k] == seg[k]);
        }
        assert(tail.1[seg.len() as int] == sep);
        crate::model::lemma_find_first_unique(tail.1, h.separators, seg.len() as int);
        assert(spec_segments(tail.1, h.separators) == seq![tail.1.take(seg.len() as int)]
            + spec_segments(tail.1.skip(seg.len() as int + 1), h.separators));
        assert(tail.1.take(seg.len() as int) =~= seg);
        assert(tail.1.skip(seg.len() as int + 1) =~= rest.1);
        let segs = spec_segments(tail.1, h.separators);
        assert(segs[0] == seg);
        assert(segs.drop_first() =~= spec_segments(rest.1, h.separators));
        assert(spec_decode_values(segs, lottery, h.salt, alphabet) == Some(
            seq![values[idx]] + values.skip(idx + 1),
        ));
        assert(seq![values[idx]] + values.skip(idx + 1) =~= values.skip(idx));
    } else {
        assert(spec_encode_values(h, values, idx + 1, lottery, rotated, Seq::<u8>::empty() + seg)
            == (rotated, Seq::<u8>::empty() + seg));
        assert(tail.1 == Seq::<u8>::empty() + seg);
        assert(tail.1 =~= seg);
        crate::model::lemma_find_first_range(tail.1, h.separators);
        match crate::model::spec_find_first(tail.1, h.separators) {
            None => {},
            Some(p) => {
                assert(!h.separators.contains(tail.1[p]));
            },
        }
        assert(spec_segments(tail.1, h.separators) == seq![tail.1]);
        let segs = spec_segments(tail.1, h.separators);
        assert(segs[0] == tail.1);
        assert(segs.drop_first() =~= Seq::<Seq<u8>>::empty());
        assert(spec_unhash(tail.1, rotated) == Some(values[idx]));
        assert(spec_decode_values(segs.drop_first(), lottery, h.salt, rotated) == Some(
            Seq::<u64>::empty(),
        ));
        assert(spec_decode_values(segs, lottery, h.salt, alphabet) == Some(
            seq![values[idx]] + Seq::<u64>::empty(),
        ));
        assert(seq![values[idx]] + Seq::<u64>::empty() =~= values.skip(idx));
        assert forall|k: int|
            0 <= k < tail.1.len() implies h.alphabet.contains(#[trigger] tail.1[k])
            || h.separators.contains(tail.1[k]) by {
            assert(tail.1[k] == seg[k]);
        }
    }
}

/// Stripping guards from a guard-free sequence changes nothing.
proof fn lemma_strip_no_guards(h: HarshView, s: Seq<u8>)
    requires
        forall|k: int| 0 <= k < s.len() ==> !h.guards.contains(#[trigger] s[k]),
    ensures
        crate::model::spec_strip_guards(h, s) == s,
{
    crate::model::lemma_find_first_range(s, h.guards);
    match crate::model::spec_find_first(s, h.guards) {
        None => {},
        Some(p) => {
            assert(!h.guards.contains(s[p]));
        },
    }
    crate::model::lemma_find_last_range(s, h.guards);
    match crate::model::spec_find_last(s, h.guards) {
        None => {},
        Some(p) => {
            assert(!h.guards.contains(s[p]));
        },
    }
}

/// Stripping a buffer of the shape `a ++ mid ++ b` — guards exactly at the
/// two ends of `mid`, none in `a`, `b` or `mid`'s interior — keeps exactly
/// `mid`'s interior.
proof fn lemma_strip_framed(h: HarshView, a: Seq<u8>, mid: Seq<u8>, b: Seq<u8>)
    requires
        mid.len() >= 2,
        h.guards.contains(mid[0]),
        h.guards.contains(mid.last()),
        forall|k: int| 1 <= k < mid.len() - 1 ==> !h.guards.contains(#[trigger] mid[k]),
        forall|k: int| 0 <= k < a.len() ==> !h.guards.contains(#[trigger] a[k]),
        forall|k: int| 0 <= k < b.len() ==> !h.guards.contains(#[trigger] b[k]),
    ensures
        crate::model::spec_strip_guards(h, a + mid + b) == mid.subrange(1, mid.len() - 1),
{
    let buf = a + mid + b;
    assert(buf[a.len() as int] == mid[0]);
    assert forall|k: int| 0 <= k < a.len() implies !h.guards.contains(#[trigger] buf[k]) by {
        assert(buf[k] == a[k]);
    }
    crate::model::lemma_find_first_unique(buf, h.guards, a.len() as int);
    let after = buf.skip(a.len() as int + 1);
    assert(after =~= mid.skip(1) + b);
    assert(after[mid.len() - 2] == mid.last());
    assert forall|k: int|
        mid.len() - 2 < k < after.len() implies !h.guards.contains(#[trigger] after[k]) by {
        assert(after[k] == b[k - (mid.len() - 1)]);
    }
    crate::model::lemma_find_last_unique(after, h.guards, mid.len() - 2);
    assert(after.take(mid.len() - 2) =~= mid.subrange(1, mid.len() - 1));
}

/// Length padding preserves the frame: wrapping only adds guard-free
/// alphabet bytes on both sides, and the symmetric trim never reaches the
/// guards, so stripping the padded result still yields `mid`'s interior.
proof fn lemma_pad_loop_framed(h: HarshView, alphabet: Seq<u8>, a: Seq<u8>, mid: Seq<u8>, b: Seq<u8>)
    requires
        h.wf(),
        alphabet.to_multiset() == h.alphabet.to_multiset(),
        mid.len() >= 2,
        h.guards.contains(mid[0]),
        h.guards.contains(mid.last()),
        forall|k: int| 1 <= k < mid.len() - 1 ==> !h.guards.contains(#[trigger] mid[k]),
        forall|k: int| 0 <= k < a.len() ==> !h.guards.contains(#[trigger] a[k]),
        forall|k: int| 0 <= k < b.len() ==> !h.guards.contains(#[trigger] b[k]),
        b.len() >= alphabet.len() / 2 || (a.len() == 0 && b.len() == 0),
    ensures
        crate::model::spec_strip_guards(h, crate::model::spec_pad_loop(h, alphabet, a + mid + b))
            == mid.subrange(1, mid.len() - 1),
    decreases
            (if (a + mid + b).len() < h.hash_length {
                h.hash_length - (a + mid + b).len()
            } else {
                0
            }),
{
    broadcast use {vstd::seq_lib::to_multiset_len, vstd::seq_lib::to_multiset_contains};

    let buf = a + mid + b;
    assert(alphabet.to_multiset().len() == alphabet.len());
    assert(h.alphabet.to_multiset().len() == h.alphabet.len());
    let alen = alphabet.len() as int;
    assert(alen >= 2);
    if buf.len() >= h.hash_length || alphabet.len() == 0 {
        assert(crate::model::spec_pad_loop(h, alphabet, buf) == buf);
        lemma_strip_framed(h, a, mid, b);
    } else {
        let rotated = spec_shuffle(alphabet, alphabet);
        lemma_shuffle_permutes(alphabet, alphabet);
        let half = alen / 2;
        let wrapped = rotated.skip(half) + buf + rotated.take(half);
        let a2 = rotated.skip(half) + a;
        let b2 = b + rotated.take(half);
        assert(wrapped =~= a2 + mid + b2);
        assert forall|k: int|
            0 <= k < rotated.len() implies !h.guards.contains(#[trigger] rotated[k]) by {
            assert(rotated.contains(rotated[k]));
            assert(rotated.to_multiset().contains(rotated[k]));
            assert(h.alphabet.to_multiset().contains(rotated[k]));
            assert(h.alphabet.contains(rotated[k]));
        }
        assert forall|k: int| 0 <= k < a2.len() implies !h.guards.contains(#[trigger] a2[k]) by {
            if k < rotated.skip(half).len() {
                assert(a2[k] == rotated[half + k]);
                assert(!h.guards.contains(rotated[half + k]));
            } else {
                assert(a2[k] == a[k - (alen - half)]);
            }
        }
        assert forall|k: int| 0 <= k < b2.len() implies !h.guards.contains(#[trigger] b2[k]) by {
            if k < b.len() {
                assert(b2[k] == b[k]);
            } else {
                assert(b2[k] == rotated[k - b.len()]);
                assert(!h.guards.contains(rotated[k - b.len()]));
            }
        }
        if wrapped.len() > h.hash_length {
            let excess = wrapped.len() - h.hash_length;
            let marker = excess / 2;
            let trimmed = wrapped.subrange(marker, marker + h.hash_length);
            assert(crate::model::spec_pad_loop(h, alphabet, buf) == trimmed);
            assert(excess <= alen - 1);
            assert(marker <= (alen - 1) / 2);
            assert((alen - 1) / 2 < alen - half);
            assert(marker < a2.len());
            let backcut = excess - marker;
            assert(backcut <= half);
            assert(backcut <= b2.len());
            let a3 = a2.subrange(marker, a2.len() as int);
            let b3 = b2.subrange(0, b2.len() - backcut);
            assert(trimmed =~= a3 + mid + b3);
            assert forall|k: int| 0 <= k < a3.len() implies !h.guards.contains(
                #[trigger] a3[k],
            ) by {
                assert(a3[k] == a2[marker + k]);
            }
            assert forall|k: int| 0 <= k < b3.len() implies !h.guards.contains(
                #[trigger] b3[k],
            ) by {
                assert(b3[k] == b2[k]);
            }
            lemma_strip_framed(h, a3, mid, b3);
        } else {
            assert(b2.len() >= rotated.len() / 2);
            lemma_pad_loop_framed(h, rotated, a2, mid, b2);
            assert(crate::model::spec_pad_loop(h, alphabet, buf) == crate::model::spec_pad_loop(
                h,
                rotated,
                wrapped,
            ));
        }
    }
}

/// The round-trip theorem: under any well-formed configuration, decoding an
/// encoding of a non-empty value sequence recovers exactly those values.
pub proof fn lemma_round_trip(h: HarshView, values: Seq<u64>)
    requires
        h.wf(),
        values.len() >= 1,
    ensures
        spec_decode(h, spec_encode(h, values)) == Ok::<Seq<u64>, Error>(values),
{
    broadcast use {vstd::seq_lib::to_multiset_len, vstd::seq_lib::to_multiset_contains};

    let enc = spec_encode(h, values);
    let nhash = crate::model::spec_nhash(values);
    let lottery = h.alphabet[(nhash % h.alphabet.len() as nat) as int];
    assert(h.alphabet.contains(lottery));
    let pair = spec_encode_values(h, values, 0, lottery, h.alphabet, seq![lottery]);
    lemma_encode_values_prefix(h, values, 0, lottery, h.alphabet, seq![lottery]);
    lemma_encode_values_decode(h, values, 0, lottery, h.alphabet);
    let tail = spec_encode_values(h, values, 0, lottery, h.alphabet, Seq::empty());
    let core = pair.1;
    assert(core == seq![lottery] + tail.1);
    assert(core.len() >= 2);
    assert(core[0] == lottery);
    assert forall|k: int| 0 <= k < core.len() implies !h.guards.contains(#[trigger] core[k]) by {
        if k == 0 {
            assert(core[k] == lottery);
        } else {
            assert(core[k] == tail.1[k - 1]);
            assert(h.alphabet.contains(tail.1[k - 1]) || h.separators.contains(tail.1[k - 1]));
        }
    }
    let padded = if core.len() < h.hash_length {
        crate::model::spec_add_guards(h, nhash, core)
    } else {
        core
    };
    assert(enc == crate::model::spec_pad_loop(h, pair.0, padded));
    assert(pair.0 == tail.0);
    assert(pair.0.to_multiset() == h.alphabet.to_multiset());
    if core.len() >= h.hash_length {
        assert(crate::model::spec_pad_loop(h, pair.0, core) == core);
        lemma_strip_no_guards(h, core);
        assert(crate::model::spec_strip_guards(h, enc) == core);
    } else {
        let g1 = h.guards[((nhash + core[0]) % (h.guards.len() as int)) as int];
        assert(h.guards.contains(g1));
        let front = seq![g1] + core;
        if front.len() < h.hash_length {
            let g2 = h.guards[((nhash + front[2]) % (h.guards.len() as int)) as int];
            assert(h.guards.contains(g2));
            let framed = front.push(g2);
            assert(padded == framed);
            assert(framed.len() >= 4);
            assert(framed[0] == g1);
            assert(framed.last() == g2);
            assert forall|k: int|
                1 <= k < framed.len() - 1 implies !h.guards.contains(#[trigger] framed[k]) by {
                assert(framed[k] == core[k - 1]);
            }
            assert(framed =~= Seq::<u8>::empty() + framed + Seq::<u8>::empty());
            lemma_pad_loop_framed(h, pair.0, Seq::empty(), framed, Seq::empty());
            assert(crate::model::spec_strip_guards(h, enc) == framed.subrange(
                1,
                framed.len() - 1,
            ));
            assert(framed.subrange(1, framed.len() - 1) =~= core);
        } else {
            assert(padded == front);
            assert(crate::model::spec_pad_loop(h, pair.0, front) == front);
            assert(enc == front);
            assert(front[0] == g1);
            crate::model::lemma_find_first_unique(front, h.guards, 0);
            let after = front.skip(1);
            assert(after =~= core);
            crate::model::lemma_find_last_range(after, h.guards);
            match crate::model::spec_find_last(after, h.guards) {
                None => {},
                Some(p) => {
                    assert(after[p] == core[p]);
                    assert(!h.guards.contains(after[p]));
                },
            }
            assert(crate::model::spec_strip_guards(h, enc) == after);
            assert(crate::model::spec_strip_guards(h, enc) == core);
        }
    }
    assert(crate::model::spec_strip_guards(h, enc) == core);
    assert(core.skip(1) =~= tail.1);
    assert(spec_decode_values(
        spec_segments(core.skip(1), h.separators),
        lottery,
        h.salt,
        h.alphabet,
    ) == Some(values.skip(0)));
    assert(values.skip(0) =~= values);
    assert(spec_encode(h, values) == enc);
    assert(spec_decode(h, enc) == Ok::<Seq<u64>, Error>(values));
}

/// Decoding is sound: whatever decoding accepts, it accepts only because
/// re-encoding the returned values reproduces the input byte-for-byte.  A
/// tampered string is accepted only if it happens to be a complete, valid
/// encoding of some value sequence itself.
pub proof fn lemma_decode_sound(h: HarshView, input: Seq<u8>, values: Seq<u64>)
    requires
        spec_decode(h, input) == Ok::<Seq<u64>, Error>(values),
    ensures
        spec_encode(h, values) == input,
{
}

} // verus!
