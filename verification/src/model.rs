//! The mathematical model of the codec: what encoding and decoding produce,
//! stated over plain sequences.  The executable operations in [`crate::harsh`]
//! are proved to return exactly these values.

use crate::bytes::spec_position;
use crate::harsh::{DecodeError, Error, HarshView};
use crate::shuffle::spec_shuffle;
use vstd::arithmetic::power::pow;
use vstd::prelude::*;

verus! {

/// A byte sequence read as a character sequence, one character per byte.
pub open spec fn bytes_as_chars(s: Seq<u8>) -> Seq<char> {
    s.map_values(|b: u8| b as char)
}

/// The mixing seed: the sum over all positions of `values[i] % (i + 100)`.
pub open spec fn spec_nhash(values: Seq<u64>) -> nat
    decreases values.len(),
{
    if values.len() == 0 {
        0
    } else {
        spec_nhash(values.drop_last()) + (values.last() as nat) % (values.len() - 1 + 100) as nat
    }
}

/// The seed never exceeds `n * (n + 199) / 2` for `n` values, since the
/// summand at position `i` is below `i + 100`.
pub proof fn lemma_nhash_bound(values: Seq<u64>)
    ensures
        2 * spec_nhash(values) <= values.len() * (values.len() + 199),
    decreases values.len(),
{
    if values.len() == 0 {
    } else {
        let n = values.len() as int;
        lemma_nhash_bound(values.drop_last());
        assert((n - 1) * (n - 1 + 199) + 2 * (n + 99) == n * (n + 199)) by (nonlinear_arith);
    }
}

/// The digit string of `value` in the numeral system given by `alphabet`,
/// most significant digit first.  `value == 0` encodes as one digit.
pub open spec fn spec_hash(value: nat, alphabet: Seq<u8>) -> Seq<u8>
    recommends
        alphabet.len() >= 2,
    decreases value,
    via spec_hash_decreases
{
    let l = alphabet.len() as nat;
    if l < 2 {
        Seq::empty()
    } else if value < l {
        seq![alphabet[value as int]]
    } else {
        spec_hash(value / l, alphabet).push(alphabet[(value % l) as int])
    }
}

#[via_fn]
proof fn spec_hash_decreases(value: nat, alphabet: Seq<u8>) {
    let l = alphabet.len() as nat;
    if l >= 2 && value >= l {
        assert(value / l < value) by (nonlinear_arith)
            requires
                l >= 2,
                value >= l,
        ;
    }
}

/// Digit strings are non-empty and consist of alphabet bytes.
pub proof fn lemma_hash_bytes(value: nat, alphabet: Seq<u8>)
    requires
        alphabet.len() >= 2,
    ensures
        spec_hash(value, alphabet).len() >= 1,
        forall|k: int|
            0 <= k < spec_hash(value, alphabet).len() ==> alphabet.contains(
                #[trigger] spec_hash(value, alphabet)[k],
            ),
    decreases value,
{
    let l = alphabet.len() as nat;
    if value < l {
        assert(alphabet[value as int] == spec_hash(value, alphabet)[0]);
    } else {
        assert(value / l < value) by (nonlinear_arith)
            requires
                l >= 2,
                value >= l,
        ;
        lemma_hash_bytes(value / l, alphabet);
        let prefix = spec_hash(value / l, alphabet);
        assert forall|k: int|
            0 <= k < spec_hash(value, alphabet).len() implies alphabet.contains(
            #[trigger] spec_hash(value, alphabet)[k],
        ) by {
            if k < prefix.len() {
                assert(spec_hash(value, alphabet)[k] == prefix[k]);
            } else {
                assert(spec_hash(value, alphabet)[k] == alphabet[(value % l) as int]);
            }
        }
    }
}

/// The value of a digit string under `alphabet`: the sum of each digit's
/// first position in the alphabet, weighted by powers of the alphabet size.
/// The first position of `b` in `alphabet`, zero when absent.
pub open spec fn spec_digit_pos(alphabet: Seq<u8>, b: u8) -> nat {
    match spec_position(alphabet, b) {
        Some(p) => p as nat,
        None => 0,
    }
}

pub open spec fn spec_unhash_value(input: Seq<u8>, alphabet: Seq<u8>) -> nat
    recommends
        forall|j: int| 0 <= j < input.len() ==> alphabet.contains(#[trigger] input[j]),
    decreases input.len(),
{
    if input.len() == 0 {
        0
    } else {
        spec_digit_pos(alphabet, input[0]) * (pow(
            alphabet.len() as int,
            (input.len() - 1) as nat,
        ) as nat) + spec_unhash_value(input.drop_first(), alphabet)
    }
}

/// What rebuilding an integer from a digit string yields: `None` when a
/// byte is not in the alphabet at all, or when the computation would
/// overflow the integer width (either in the largest power taken or in the
/// accumulated value).
pub open spec fn spec_unhash(input: Seq<u8>, alphabet: Seq<u8>) -> Option<u64> {
    if input.len() == 0 {
        Some(0u64)
    } else if exists|j: int| 0 <= j < input.len() && !alphabet.contains(#[trigger] input[j]) {
        None
    } else if pow(alphabet.len() as int, (input.len() - 1) as nat) > u64::MAX {
        None
    } else if spec_unhash_value(input, alphabet) > u64::MAX {
        None
    } else {
        Some(spec_unhash_value(input, alphabet) as u64)
    }
}

/// One per-value alphabet rotation: the alphabet shuffled with the first
/// `alphabet.len()` bytes of `lottery ++ salt ++ alphabet` as the salt.
pub open spec fn spec_shuffle_step(lottery: u8, salt: Seq<u8>, alphabet: Seq<u8>) -> Seq<u8> {
    spec_shuffle(alphabet, (seq![lottery] + salt + alphabet).take(alphabet.len() as int))
}

/// The encoding loop, from value `idx` on: rotates the alphabet, appends the
/// value's digit string, and appends a separator between values.  Returns
/// the final working alphabet and the extended buffer.
pub open spec fn spec_encode_values(
    h: HarshView,
    values: Seq<u64>,
    idx: int,
    lottery: u8,
    alphabet: Seq<u8>,
    buffer: Seq<u8>,
) -> (Seq<u8>, Seq<u8>)
    decreases values.len() - idx,
{
    if idx < 0 || idx >= values.len() {
        (alphabet, buffer)
    } else {
        let rotated = spec_shuffle_step(lottery, h.salt, alphabet);
        let last = spec_hash(values[idx] as nat, rotated);
        let extended = buffer + last;
        let with_sep = if idx + 1 < values.len() {
            let reduced = (values[idx] as nat) % (last[0] + idx) as nat;
            extended.push(h.separators[(reduced % h.separators.len()) as int])
        } else {
            extended
        };
        spec_encode_values(h, values, idx + 1, lottery, rotated, with_sep)
    }
}

/// Guard padding: one guard inserted at the front, selected by the seed and
/// the first byte; if still short, one appended at the back, selected by the
/// seed and the third byte.
pub open spec fn spec_add_guards(h: HarshView, nhash: nat, buffer: Seq<u8>) -> Seq<u8>
    recommends
        buffer.len() >= 2,
        h.guards.len() >= 1,
{
    let front = seq![h.guards[((nhash + buffer[0]) % (h.guards.len() as int)) as int]] + buffer;
    if front.len() < h.hash_length {
        front.push(h.guards[((nhash + front[2]) % (h.guards.len() as int)) as int])
    } else {
        front
    }
}

/// Length padding: while the buffer is short, re-shuffle the working
/// alphabet with itself, wrap the buffer in the alphabet's two halves, and
/// trim symmetrically when that overshoots the target length.
pub open spec fn spec_pad_loop(h: HarshView, alphabet: Seq<u8>, buffer: Seq<u8>) -> Seq<u8>
    decreases
            (if buffer.len() < h.hash_length {
                h.hash_length - buffer.len()
            } else {
                0
            }),
    via spec_pad_loop_decreases
{
    if buffer.len() >= h.hash_length || alphabet.len() == 0 {
        buffer
    } else {
        let rotated = spec_shuffle(alphabet, alphabet);
        let half = alphabet.len() as int / 2;
        let wrapped = rotated.skip(half) + buffer + rotated.take(half);
        if wrapped.len() > h.hash_length {
            let marker = (wrapped.len() - h.hash_length) / 2;
            wrapped.subrange(marker, marker + h.hash_length)
        } else {
            spec_pad_loop(h, rotated, wrapped)
        }
    }
}

#[via_fn]
proof fn spec_pad_loop_decreases(h: HarshView, alphabet: Seq<u8>, buffer: Seq<u8>) {
    if buffer.len() < h.hash_length && alphabet.len() > 0 {
        crate::shuffle::lemma_shuffle_permutes(alphabet, alphabet);
    }
}

/// What encoding yields: the empty sequence for no values; otherwise the
/// lottery byte, the separator-delimited digit strings, and any padding
/// needed to reach the minimum length.
pub open spec fn spec_encode(h: HarshView, values: Seq<u64>) -> Seq<u8> {
    if values.len() == 0 {
        Seq::empty()
    } else {
        let nhash = spec_nhash(values);
        let lottery = h.alphabet[(nhash % h.alphabet.len() as nat) as int];
        let pair = spec_encode_values(h, values, 0, lottery, h.alphabet, seq![lottery]);
        let padded = if pair.1.len() < h.hash_length {
            spec_add_guards(h, nhash, pair.1)
        } else {
            pair.1
        };
        spec_pad_loop(h, pair.0, padded)
    }
}

/// The first index of `s` holding a byte of `set`, if any.
pub open spec fn spec_find_first(s: Seq<u8>, set: Seq<u8>) -> Option<int>
    decreases s.len(),
{
    if s.len() == 0 {
        None
    } else if set.contains(s[0]) {
        Some(0int)
    } else {
        match spec_find_first(s.drop_first(), set) {
            None => None,
            Some(i) => Some(i + 1),
        }
    }
}

/// The last index of `s` holding a byte of `set`, if any.
pub open spec fn spec_find_last(s: Seq<u8>, set: Seq<u8>) -> Option<int>
    decreases s.len(),
{
    if s.len() == 0 {
        None
    } else if set.contains(s.last()) {
        Some(s.len() - 1)
    } else {
        spec_find_last(s.drop_last(), set)
    }
}

/// An in-range index holding a byte of the set, with none of the set before
/// it, is the first such index.
pub proof fn lemma_find_first_unique(s: Seq<u8>, set: Seq<u8>, i: int)
    requires
        0 <= i < s.len(),
        set.contains(s[i]),
        forall|k: int| 0 <= k < i ==> !set.contains(#[trigger] s[k]),
    ensures
        spec_find_first(s, set) == Some(i),
{
    lemma_find_first_range(s, set);
    match spec_find_first(s, set) {
        None => {
            assert(!set.contains(s[i]));
        },
        Some(p) => {
            if p < i {
                assert(!set.contains(s[p]));
            }
            if p > i {
                assert(!set.contains(s[i]));
            }
        },
    }
}

/// An in-range index holding a byte of the set, with none of the set after
/// it, is the last such index.
pub proof fn lemma_find_last_unique(s: Seq<u8>, set: Seq<u8>, i: int)
    requires
        0 <= i < s.len(),
        set.contains(s[i]),
        forall|k: int| i < k < s.len() ==> !set.contains(#[trigger] s[k]),
    ensures
        spec_find_last(s, set) == Some(i),
{
    lemma_find_last_range(s, set);
    match spec_find_last(s, set) {
        None => {
            assert(!set.contains(s[i]));
        },
        Some(p) => {
            if p < i {
                assert(!set.contains(s[i]));
            }
            if p > i {
                assert(!set.contains(s[p]));
            }
        },
    }
}

/// Guard stripping: cut everything up to and including the first guard, and
/// from what remains everything from the last guard on.
pub open spec fn spec_strip_guards(h: HarshView, input: Seq<u8>) -> Seq<u8> {
    let after = match spec_find_first(input, h.guards) {
        Some(i) => input.skip(i + 1),
        None => input,
    };
    match spec_find_last(after, h.guards) {
        Some(j) => after.take(j),
        None => after,
    }
}

/// `s` split at every byte of `seps`: always one more segment than there are
/// separator occurrences, so segments may be empty.
pub open spec fn spec_segments(s: Seq<u8>, seps: Seq<u8>) -> Seq<Seq<u8>>
    decreases s.len(),
    via spec_segments_decreases
{
    match spec_find_first(s, seps) {
        None => seq![s],
        Some(i) => seq![s.take(i)] + spec_segments(s.skip(i + 1), seps),
    }
}

#[via_fn]
proof fn spec_segments_decreases(s: Seq<u8>, seps: Seq<u8>) {
    lemma_find_first_range(s, seps);
}

/// A found first index is in range, holds a byte of the set, and nothing
/// before it does; `None` means no byte of the set occurs at all.
pub proof fn lemma_find_first_range(s: Seq<u8>, set: Seq<u8>)
    ensures
        spec_find_first(s, set) matches Some(i) ==> 0 <= i < s.len() && set.contains(s[i]) && (
        forall|k: int| 0 <= k < i ==> !set.contains(#[trigger] s[k])),
        spec_find_first(s, set) is None ==> forall|k: int|
            0 <= k < s.len() ==> !set.contains(#[trigger] s[k]),
    decreases s.len(),
{
    if s.len() == 0 {
    } else if set.contains(s[0]) {
    } else {
        lemma_find_first_range(s.drop_first(), set);
        assert forall|k: int| 0 <= k < s.drop_first().len() implies s.drop_first()[k] == s[k
            + 1] by {}
        match spec_find_first(s.drop_first(), set) {
            None => {
                assert forall|k: int| 0 <= k < s.len() implies !set.contains(#[trigger] s[k]) by {
                    if k >= 1 {
                        assert(s.drop_first()[k - 1] == s[k]);
                        assert(!set.contains(s.drop_first()[k - 1]));
                    }
                }
            },
            Some(ip) => {
                assert(s[ip + 1] == s.drop_first()[ip]);
                assert forall|k: int| 0 <= k < ip + 1 implies !set.contains(#[trigger] s[k]) by {
                    if k >= 1 {
                        assert(s.drop_first()[k - 1] == s[k]);
                    }
                }
            },
        }
    }
}

/// A found last index is in range, holds a byte of the set, and nothing
/// after it does; `None` means no byte of the set occurs at all.
pub proof fn lemma_find_last_range(s: Seq<u8>, set: Seq<u8>)
    ensures
        spec_find_last(s, set) matches Some(i) ==> 0 <= i < s.len() && set.contains(s[i]) && (
        forall|k: int| i < k < s.len() ==> !set.contains(#[trigger] s[k])),
        spec_find_last(s, set) is None ==> forall|k: int|
            0 <= k < s.len() ==> !set.contains(#[trigger] s[k]),
    decreases s.len(),
{
    if s.len() == 0 {
    } else if set.contains(s.last()) {
    } else {
        lemma_find_last_range(s.drop_last(), set);
        assert forall|k: int| 0 <= k < s.len() - 1 implies s.drop_last()[k] == s[k] by {}
        assert(s[s.len() - 1] == s.last());
    }
}

/// There is always one more segment than there are separator occurrences,
/// so a split never yields more segments than bytes plus one.
pub proof fn lemma_segments_count(s: Seq<u8>, seps: Seq<u8>)
    ensures
        1 <= spec_segments(s, seps).len() <= s.len() + 1,
    decreases s.len(),
{
    lemma_find_first_range(s, seps);
    match spec_find_first(s, seps) {
        None => {},
        Some(i) => {
            lemma_segments_count(s.skip(i + 1), seps);
        },
    }
}

/// Prepends already-recovered values to the outcome of the remaining
/// segments.
pub open spec fn compose_values(acc: Seq<u64>, rest: Option<Seq<u64>>) -> Option<Seq<u64>> {
    match rest {
        None => None,
        Some(vs) => Some(acc + vs),
    }
}

/// The decoding loop: rotates the alphabet exactly as encoding does and
/// rebuilds each segment's value; `None` as soon as one segment fails.
pub open spec fn spec_decode_values(
    segments: Seq<Seq<u8>>,
    lottery: u8,
    salt: Seq<u8>,
    alphabet: Seq<u8>,
) -> Option<Seq<u64>>
    decreases segments.len(),
{
    if segments.len() == 0 {
        Some(Seq::empty())
    } else {
        let rotated = spec_shuffle_step(lottery, salt, alphabet);
        match spec_unhash(segments[0], rotated) {
            None => None,
            Some(v) => match spec_decode_values(segments.drop_first(), lottery, salt, rotated) {
                None => None,
                Some(rest) => Some(seq![v] + rest),
            },
        }
    }
}

/// What decoding yields: the guard-stripped input must keep at least two
/// bytes (the lottery byte and a payload); every segment must rebuild to a
/// value; and re-encoding the recovered values must reproduce the input
/// byte-for-byte — the integrity check that rejects tampered input.
pub open spec fn spec_decode(h: HarshView, input: Seq<u8>) -> Result<Seq<u64>, Error> {
    let value = spec_strip_guards(h, input);
    if value.len() < 2 {
        Err(Error::Decode(DecodeError::Hash))
    } else {
        let lottery = value[0];
        let rest = value.skip(1);
        match spec_decode_values(spec_segments(rest, h.separators), lottery, h.salt, h.alphabet) {
            None => Err(Error::Decode(DecodeError::Value)),
            Some(vs) => {
                if spec_encode(h, vs) == input {
                    Ok(vs)
                } else {
                    Err(Error::Decode(DecodeError::Hash))
                }
            },
        }
    }
}

/// Whether every byte of `s` is an ASCII hex digit.
pub open spec fn all_hex_digits(s: Seq<u8>) -> bool {
    forall|j: int| 0 <= j < s.len() ==> is_hex_digit(#[trigger] s[j])
}

/// Whether `b` is an ASCII hex digit.
pub open spec fn is_hex_digit(b: u8) -> bool {
    (48 <= b <= 57) || (97 <= b <= 102) || (65 <= b <= 70)
}

/// The numeric value of a hex digit.
pub open spec fn spec_hex_digit(b: u8) -> nat
    recommends
        is_hex_digit(b),
{
    if 48 <= b <= 57 {
        (b - 48) as nat
    } else if 97 <= b <= 102 {
        (b - 87) as nat
    } else if 65 <= b <= 70 {
        (b - 55) as nat
    } else {
        0
    }
}

/// Folds hex digits into `acc`, high digit first.
pub open spec fn spec_hex_value_from(s: Seq<u8>, acc: nat) -> nat
    decreases s.len(),
{
    if s.len() == 0 {
        acc
    } else {
        spec_hex_value_from(s.drop_first(), acc * 16 + spec_hex_digit(s[0]))
    }
}

/// Powers of sixteen, for bounding chunk values.
pub open spec fn pow16(e: nat) -> nat
    decreases e,
{
    if e == 0 {
        1
    } else {
        16 * pow16((e - 1) as nat)
    }
}

/// Small powers of sixteen, concretely.
pub proof fn lemma_pow16_values()
    ensures
        pow16(13) == 0x10_0000_0000_0000,
{
    assert(pow16(0) == 1);
    assert(pow16(1) == 16);
    assert(pow16(2) == 0x100);
    assert(pow16(3) == 0x1000);
    assert(pow16(4) == 0x1_0000);
    assert(pow16(5) == 0x10_0000);
    assert(pow16(6) == 0x100_0000);
    assert(pow16(7) == 0x1000_0000);
    assert(pow16(8) == 0x1_0000_0000);
    assert(pow16(9) == 0x10_0000_0000);
    assert(pow16(10) == 0x100_0000_0000);
    assert(pow16(11) == 0x1000_0000_0000);
    assert(pow16(12) == 0x1_0000_0000_0000);
}

/// Powers of sixteen grow with the exponent.
pub proof fn lemma_pow16_le(e1: nat, e2: nat)
    requires
        e1 <= e2,
    ensures
        pow16(e1) <= pow16(e2),
    decreases e2,
{
    if e1 < e2 {
        lemma_pow16_le(e1, (e2 - 1) as nat);
        assert(pow16(e2) == 16 * pow16((e2 - 1) as nat));
        assert(pow16((e2 - 1) as nat) >= 1) by {
            lemma_pow16_pos((e2 - 1) as nat);
        }
    }
}

/// Powers of sixteen are positive.
pub proof fn lemma_pow16_pos(e: nat)
    ensures
        pow16(e) >= 1,
    decreases e,
{
    if e > 0 {
        lemma_pow16_pos((e - 1) as nat);
    }
}

/// The integers a hex string turns into: chunks of twelve digits, each
/// read with a leading `1` digit so that leading zeroes survive; `None`
/// when any byte is not a hex digit.
pub open spec fn spec_hex_values(s: Seq<u8>) -> Option<Seq<u64>>
    decreases s.len(),
{
    if s.len() == 0 {
        Some(Seq::empty())
    } else {
        let k = if s.len() < 12 {
            s.len() as int
        } else {
            12
        };
        let chunk = s.take(k);
        if !all_hex_digits(chunk) {
            None
        } else {
            match spec_hex_values(s.skip(k)) {
                None => None,
                Some(rest) => Some(seq![spec_hex_value_from(chunk, 1) as u64] + rest),
            }
        }
    }
}

/// A non-hex byte within the first chunk makes the whole parse fail.
pub proof fn lemma_hex_values_none(s: Seq<u8>, j: int)
    requires
        0 <= j < s.len(),
        j < 12,
        !is_hex_digit(s[j]),
    ensures
        spec_hex_values(s) is None,
{
    let k: int = if s.len() < 12 {
        s.len() as int
    } else {
        12
    };
    let chunk = s.take(k);
    assert(chunk[j] == s[j]);
    assert(0 <= j < chunk.len());
    assert(!is_hex_digit(chunk[j]));
    assert(!all_hex_digits(chunk));
}

/// What hex encoding yields: the encoding of the chunked values, or the
/// hex-format error.
pub open spec fn spec_encode_hex(h: HarshView, input: Seq<u8>) -> Result<Seq<u8>, Error> {
    match spec_hex_values(input) {
        None => Err(Error::Hex),
        Some(vs) => Ok(spec_encode(h, vs)),
    }
}

/// The lowercase hex digit string of `value`, no leading zeroes; `0` is one
/// digit.
pub open spec fn spec_hex_str(value: nat) -> Seq<u8>
    decreases value,
{
    if value < 16 {
        seq![spec_hex_char(value)]
    } else {
        spec_hex_str(value / 16).push(spec_hex_char(value % 16))
    }
}

/// The lowercase hex digit for a value below sixteen.
pub open spec fn spec_hex_char(v: nat) -> u8
    recommends
        v < 16,
{
    if v < 10 {
        (48 + v) as u8
    } else {
        (87 + v) as u8
    }
}

/// The concatenated hex fragments of the decoded values, each with its
/// artificial leading digit dropped.
pub open spec fn spec_hex_fragments(values: Seq<u64>) -> Seq<u8>
    decreases values.len(),
{
    if values.len() == 0 {
        Seq::empty()
    } else {
        spec_hex_str(values[0] as nat).skip(1) + spec_hex_fragments(values.drop_first())
    }
}

/// What hex decoding yields: decode, then render each value back to hex
/// without its leading digit; decode failures pass through.
pub open spec fn spec_decode_hex(h: HarshView, input: Seq<u8>) -> Result<Seq<u8>, Error> {
    match spec_decode(h, input) {
        Err(e) => Err(e),
        Ok(vs) => Ok(spec_hex_fragments(vs)),
    }
}

} // verus!
