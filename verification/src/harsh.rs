//! The codec itself: an immutable configuration (alphabet, separators,
//! guards, salt, minimum length) together with the encode and decode
//! operations and their hex convenience wrappers.

use crate::bytes::position_of_byte;
use crate::model::{
    bytes_as_chars, lemma_hash_bytes, lemma_nhash_bound, spec_add_guards, spec_decode,
    spec_encode, spec_encode_values, spec_hash, spec_nhash, spec_pad_loop, spec_shuffle_step,
    spec_unhash, spec_unhash_value,
};
use vstd::arithmetic::power::{lemma_pow_increases, pow};
use vstd::prelude::*;
use vstd::string::{StrSliceExecFns, StringSliceAdditionalSpecFns};

verus! {

/// Errors raised while decoding or while handling hex input.
#[derive(Clone, Debug, PartialEq, Eq)]
pub enum Error {
    /// A hex string handed to `encode_hex` failed to parse.
    Hex,
    /// The input handed to `decode` is not a valid hashid.
    Decode(DecodeError),
}

/// The two ways a decode can fail.
#[derive(Clone, Debug, PartialEq, Eq)]
pub enum DecodeError {
    /// A byte of a segment is not in the working alphabet, or the value
    /// overflowed while being rebuilt.
    Value,
    /// The input is structurally too short, or re-encoding the recovered
    /// values does not reproduce it.
    Hash,
}

/// The mathematical content of a [`Harsh`] instance: the five derived
/// configuration components as plain sequences.
pub struct HarshView {
    pub alphabet: Seq<u8>,
    pub guards: Seq<u8>,
    pub hash_length: int,
    pub salt: Seq<u8>,
    pub separators: Seq<u8>,
}

/// Every byte lies in the printable-compatible ASCII range `1..128`.
pub open spec fn ascii_bytes(s: Seq<u8>) -> bool {
    forall|i: int| 0 <= i < s.len() ==> 0 < #[trigger] s[i] < 128
}

/// No byte occurs in both sequences.
pub open spec fn disjoint_bytes(a: Seq<u8>, b: Seq<u8>) -> bool {
    forall|x: u8| #[trigger] a.contains(x) ==> !b.contains(x)
}

impl HarshView {
    /// A well-formed configuration: the three byte categories are non-empty
    /// ASCII sets, the alphabet is duplicate-free and large enough to act as
    /// a numeral base, and the categories are mutually disjoint.  Every
    /// configuration derived from at least sixteen distinct usable alphabet
    /// bytes satisfies this; the encode and decode contracts assume it.
    pub open spec fn wf(self) -> bool {
        &&& 2 <= self.alphabet.len()
        &&& 1 <= self.guards.len()
        &&& 1 <= self.separators.len()
        &&& ascii_bytes(self.alphabet)
        &&& ascii_bytes(self.separators)
        &&& ascii_bytes(self.guards)
        &&& self.alphabet.no_duplicates()
        &&& disjoint_bytes(self.alphabet, self.separators)
        &&& disjoint_bytes(self.alphabet, self.guards)
        &&& disjoint_bytes(self.separators, self.guards)
        &&& 0 <= self.hash_length
    }
}

/// A hashids-compatible codec.  Immutable once built: every encode or decode
/// call works on private copies of the alphabet, so an instance can be shared
/// freely.
#[derive(Clone, Debug)]
pub struct Harsh {
    alphabet: Vec<u8>,
    guards: Vec<u8>,
    hash_length: usize,
    salt: Vec<u8>,
    separators: Vec<u8>,
}

impl View for Harsh {
    type V = HarshView;

    closed spec fn view(&self) -> HarshView {
        HarshView {
            alphabet: self.alphabet@,
            guards: self.guards@,
            hash_length: self.hash_length as int,
            salt: self.salt@,
            separators: self.separators@,
        }
    }
}

/// Relies on `String::from_utf8`: bytes below 128 are valid UTF-8 and decode
/// to exactly one character per byte.
#[verifier::external_body]
fn ascii_to_string(bytes: Vec<u8>) -> (r: String)
    requires
        forall|i: int| 0 <= i < bytes@.len() ==> bytes@[i] < 128,
    ensures
        r@ == bytes_as_chars(bytes@),
{
    match String::from_utf8(bytes) {
        Ok(s) => s,
        Err(_) => String::new(),
    }
}

/// The mixing seed for a value sequence: the sum over all positions of
/// `values[i] % (i + 100)`.
pub fn create_nhash(values: &[u64]) -> (r: u64)
    requires
        values@.len() <= 0x1_0000_0000,
    ensures
        r as nat == spec_nhash(values@),
{
    let n = values.len();
    let mut sum: u64 = 0;
    let mut idx: usize = 0;
    while idx < n
        invariant
            n == values@.len() <= 0x1_0000_0000,
            0 <= idx <= n,
            sum as nat == spec_nhash(values@.take(idx as int)),
        decreases n - idx,
    {
        let term = values[idx] % ((idx as u64) + 100);
        proof {
            assert(values@.take(idx + 1).drop_last() =~= values@.take(idx as int));
            assert(values@.take(idx + 1).last() == values@[idx as int]);
            lemma_nhash_bound(values@.take(idx + 1));
            assert((idx + 1) * (idx + 1 + 199) <= 0x1_0000_0000 * (0x1_0000_0000 + 199))
                by (nonlinear_arith)
                requires
                    0 <= idx + 1 <= 0x1_0000_0000,
            ;
        }
        sum = sum + term;
        idx = idx + 1;
    }
    proof {
        assert(values@.take(n as int) =~= values@);
    }
    sum
}

/// The digit string of `value` over `alphabet`, most significant digit
/// first, as raw bytes.
pub(crate) fn hash_bytes(value: u64, alphabet: &[u8]) -> (r: Vec<u8>)
    requires
        alphabet@.len() >= 2,
    ensures
        r@ == spec_hash(value as nat, alphabet@),
        r@.len() >= 1,
{
    let l = alphabet.len() as u64;
    let mut digits: Vec<u8> = Vec::new();
    let mut v: u64 = value;
    while v >= l
        invariant
            2 <= l == alphabet@.len(),
            spec_hash(value as nat, alphabet@) == spec_hash(v as nat, alphabet@)
                + digits@.reverse(),
        decreases v,
    {
        let d = alphabet[(v % l) as usize];
        proof {
            assert(digits@.push(d).reverse() =~= seq![d] + digits@.reverse());
            assert((v as nat) / (l as nat) < (v as nat)) by (nonlinear_arith)
                requires
                    l >= 2,
                    v >= l,
            ;
            assert(spec_hash(v as nat, alphabet@) == spec_hash((v / l) as nat, alphabet@).push(d));
            assert(spec_hash((v / l) as nat, alphabet@).push(d) + digits@.reverse()
                =~= spec_hash((v / l) as nat, alphabet@) + digits@.push(d).reverse());
        }
        digits.push(d);
        v = v / l;
    }
    let d = alphabet[v as usize];
    proof {
        assert(spec_hash(v as nat, alphabet@) == seq![d]);
        assert(digits@.push(d).reverse() =~= seq![d] + digits@.reverse());
        assert(spec_hash(value as nat, alphabet@) =~= digits@.push(d).reverse());
    }
    digits.push(d);
    let n = digits.len();
    let mut r: Vec<u8> = Vec::new();
    let mut idx: usize = 0;
    while idx < n
        invariant
            n == digits@.len(),
            0 <= idx <= n,
            r@.len() == idx,
            forall|j: int| 0 <= j < idx ==> r@[j] == digits@[n - 1 - j],
        decreases n - idx,
    {
        r.push(digits[n - 1 - idx]);
        idx = idx + 1;
    }
    proof {
        assert(r@ =~= digits@.reverse());
    }
    r
}

/// The digit string of `value` over `alphabet`, as text.
pub fn hash(value: u64, alphabet: &[u8]) -> (r: String)
    requires
        alphabet@.len() >= 2,
        ascii_bytes(alphabet@),
    ensures
        r@ == bytes_as_chars(spec_hash(value as nat, alphabet@)),
{
    let digits = hash_bytes(value, alphabet);
    proof {
        lemma_hash_bytes(value as nat, alphabet@);
        assert forall|i: int| 0 <= i < digits@.len() implies digits@[i] < 128 by {
            assert(alphabet@.contains(digits@[i]));
            let w = choose|w: int| 0 <= w < alphabet@.len() && alphabet@[w] == digits@[i];
        }
    }
    ascii_to_string(digits)
}

/// The value of `input`'s digits under `alphabet`, `None` when a byte is
/// not in the alphabet or the value overflows.
pub(crate) fn unhash(input: &[u8], alphabet: &[u8]) -> (r: Option<u64>)
    ensures
        r == spec_unhash(input@, alphabet@),
{
    let n = input.len();
    let l = alphabet.len() as u64;
    let mut a: u64 = 0;
    let mut b: u64 = 1;
    let mut j: usize = n;
    proof {
        reveal(pow);
        assert(input@.skip(n as int) =~= Seq::<u8>::empty());
        assert(pow(l as int, 0) == 1);
    }
    while j > 0
        invariant
            n == input@.len(),
            l == alphabet@.len(),
            0 <= j <= n,
            forall|k: int| j <= k < n ==> alphabet@.contains(#[trigger] input@[k]),
            a as nat == spec_unhash_value(input@.skip(j as int), alphabet@),
            j >= 1 ==> b as nat == pow(l as int, (n - j) as nat),
            j == 0 && n >= 1 ==> b as nat == pow(l as int, (n - 1) as nat),
        decreases j,
    {
        j = j - 1;
        let byte = input[j];
        let pos = match position_of_byte(alphabet, byte) {
            Some(p) => p,
            None => {
                proof {
                    crate::bytes::lemma_position_properties(alphabet@, byte);
                    assert(!alphabet@.contains(input@[j as int]));
                }
                return None;
            },
        };
        proof {
            crate::bytes::lemma_position_properties(alphabet@, byte);
            assert(input@.skip(j as int).drop_first() =~= input@.skip(j + 1));
            assert(input@.skip(j as int)[0] == input@[j as int]);
            lemma_unhash_suffix_le(input@, alphabet@, j as int);
        }
        let c = match (pos as u64).checked_mul(b) {
            Some(c) => c,
            None => {
                proof {
                    assert(spec_unhash_value(input@, alphabet@) > u64::MAX);
                }
                return None;
            },
        };
        let next = match a.checked_add(c) {
            Some(next) => next,
            None => {
                proof {
                    assert(spec_unhash_value(input@, alphabet@) > u64::MAX);
                }
                return None;
            },
        };
        a = next;
        if j > 0 {
            b = match b.checked_mul(l) {
                Some(nb) => nb,
                None => {
                    proof {
                        reveal(pow);
                        assert(l >= 1);
                        assert(pow(l as int, (n - j) as nat) == l * pow(l as int, (n - j
                            - 1) as nat));
                        lemma_pow_increases(l as nat, (n - j) as nat, (n - 1) as nat);
                        assert(pow(l as int, (n - 1) as nat) > u64::MAX);
                    }
                    return None;
                },
            };
            proof {
                reveal(pow);
                assert(pow(l as int, (n - j) as nat) == l * pow(l as int, (n - j - 1) as nat));
            }
        }
    }
    proof {
        assert(input@.skip(0) =~= input@);
        if n >= 1 {
            assert(forall|k: int|
                0 <= k < n ==> alphabet@.contains(#[trigger] input@[k]));
            assert(pow(l as int, (n - 1) as nat) <= u64::MAX);
        }
    }
    Some(a)
}

/// Bytes drawn from an ASCII byte set are ASCII.
pub proof fn lemma_ascii_via_membership(a: Seq<u8>, b: Seq<u8>)
    requires
        ascii_bytes(a),
        forall|x: u8| b.contains(x) ==> a.contains(x),
    ensures
        ascii_bytes(b),
{
    assert forall|i: int| 0 <= i < b.len() implies 0 < #[trigger] b[i] < 128 by {
        assert(b.contains(b[i]));
        assert(a.contains(b[i]));
        let w = choose|w: int| 0 <= w < a.len() && a[w] == b[i];
    }
}

/// A concatenation of ASCII byte sequences is ASCII.
pub proof fn lemma_ascii_concat(a: Seq<u8>, b: Seq<u8>)
    requires
        ascii_bytes(a),
        ascii_bytes(b),
    ensures
        ascii_bytes(a + b),
{
    assert forall|i: int| 0 <= i < (a + b).len() implies 0 < #[trigger] (a + b)[i] < 128 by {
        if i < a.len() {
            assert((a + b)[i] == a[i]);
        } else {
            assert((a + b)[i] == b[i - a.len()]);
        }
    }
}

/// The key for one per-value alphabet rotation: the first `alphabet.len()`
/// bytes of `lottery ++ salt ++ alphabet`.
fn shuffle_key(lottery: u8, salt: &[u8], alphabet: &[u8]) -> (r: Vec<u8>)
    requires
        alphabet@.len() >= 1,
    ensures
        r@ == (seq![lottery] + salt@ + alphabet@).take(alphabet@.len() as int),
{
    let alen = alphabet.len();
    let ghost full = seq![lottery] + salt@ + alphabet@;
    let mut key: Vec<u8> = Vec::with_capacity(alen);
    key.push(lottery);
    proof {
        assert(key@ =~= full.take(1));
    }
    let mut k: usize = 0;
    while k < salt.len() && key.len() < alen
        invariant
            alen == alphabet@.len(),
            full == seq![lottery] + salt@ + alphabet@,
            0 <= k <= salt@.len(),
            key@.len() == 1 + k,
            key@.len() <= alen,
            key@ == full.take(key@.len() as int),
        decreases salt@.len() - k,
    {
        proof {
            assert(full[1 + k] == salt@[k as int]);
            assert(full.take(2 + k) =~= full.take(1 + k).push(salt@[k as int]));
        }
        key.push(salt[k]);
        k = k + 1;
    }
    while key.len() < alen
        invariant
            alen == alphabet@.len(),
            full == seq![lottery] + salt@ + alphabet@,
            1 <= key@.len() <= alen,
            key@.len() < alen ==> key@.len() >= 1 + salt@.len(),
            key@ == full.take(key@.len() as int),
        decreases alen - key@.len(),
    {
        let here = key.len();
        let pos = here - 1 - salt.len();
        proof {
            assert(full[here as int] == alphabet@[pos as int]);
            assert(full.take(here + 1) =~= full.take(here as int).push(alphabet@[pos as int]));
        }
        key.push(alphabet[pos]);
    }
    key
}

/// The first index of `s` holding a byte of `set`.
fn find_first_of(s: &[u8], set: &[u8]) -> (r: Option<usize>)
    ensures
        r matches Some(i) ==> crate::model::spec_find_first(s@, set@) == Some(i as int),
        r is None ==> crate::model::spec_find_first(s@, set@) is None,
{
    let n = s.len();
    let mut idx: usize = 0;
    while idx < n
        invariant
            n == s@.len(),
            0 <= idx <= n,
            forall|k: int| 0 <= k < idx ==> !set@.contains(#[trigger] s@[k]),
        decreases n - idx,
    {
        if crate::bytes::contains_byte(set, s[idx]) {
            proof {
                crate::model::lemma_find_first_unique(s@, set@, idx as int);
            }
            return Some(idx);
        }
        idx = idx + 1;
    }
    proof {
        crate::model::lemma_find_first_range(s@, set@);
        match crate::model::spec_find_first(s@, set@) {
            None => {},
            Some(p) => {
                assert(!set@.contains(s@[p]));
            },
        }
    }
    None
}

/// The last index of `s` holding a byte of `set`.
fn find_last_of(s: &[u8], set: &[u8]) -> (r: Option<usize>)
    ensures
        r matches Some(i) ==> crate::model::spec_find_last(s@, set@) == Some(i as int),
        r is None ==> crate::model::spec_find_last(s@, set@) is None,
{
    let n = s.len();
    let mut idx: usize = n;
    while idx > 0
        invariant
            n == s@.len(),
            0 <= idx <= n,
            forall|k: int| idx <= k < n ==> !set@.contains(#[trigger] s@[k]),
        decreases idx,
    {
        idx = idx - 1;
        if crate::bytes::contains_byte(set, s[idx]) {
            proof {
                crate::model::lemma_find_last_unique(s@, set@, idx as int);
            }
            return Some(idx);
        }
    }
    proof {
        crate::model::lemma_find_last_range(s@, set@);
        match crate::model::spec_find_last(s@, set@) {
            None => {},
            Some(p) => {
                assert(!set@.contains(s@[p]));
            },
        }
    }
    None
}

/// A value is at least the value of any suffix of its digit string.
proof fn lemma_unhash_suffix_le(input: Seq<u8>, alphabet: Seq<u8>, j: int)
    requires
        0 <= j <= input.len(),
    ensures
        spec_unhash_value(input.skip(j), alphabet) <= spec_unhash_value(input, alphabet),
    decreases j,
{
    if j == 0 {
        assert(input.skip(0) =~= input);
    } else {
        lemma_unhash_suffix_le(input, alphabet, j - 1);
        assert(input.skip(j - 1).drop_first() =~= input.skip(j));
        assert(spec_unhash_value(input.skip(j), alphabet) <= spec_unhash_value(
            input.skip(j - 1),
            alphabet,
        ));
    }
}

impl Harsh {
    /// Creates a codec with the default options: no salt, the default
    /// alphabet and separators, and no minimum length.  Building from the
    /// defaults never fails, so the fallback arm is unreachable.
    pub fn new() -> (r: Harsh)
        ensures
            crate::builder::spec_build(
                crate::builder::BuilderView {
                    salt: None,
                    alphabet: None,
                    separators: None,
                    hash_length: 0,
                },
            ) == Ok::<HarshView, crate::builder::BuildHarshError>(r@),
            r@.wf(),
    {
        proof {
            crate::builder::lemma_default_build_ok(
                crate::builder::BuilderView {
                    salt: None,
                    alphabet: None,
                    separators: None,
                    hash_length: 0,
                },
            );
        }
        match crate::builder::HarshBuilder::new().build() {
            Ok(h) => h,
            Err(_) => {
                proof {
                    assert(false);
                }
                Harsh::initialize(Vec::new(), Vec::new(), 0, Vec::new(), Vec::new())
            },
        }
    }

    /// A builder for configuring a codec.
    pub fn builder() -> (r: crate::builder::HarshBuilder)
        ensures
            r@ == (crate::builder::BuilderView {
                salt: None,
                alphabet: None,
                separators: None,
                hash_length: 0,
            }),
    {
        crate::builder::HarshBuilder::new()
    }

    /// Packs the five derived configuration components into a codec.
    pub(crate) fn initialize(
        alphabet: Vec<u8>,
        guards: Vec<u8>,
        hash_length: usize,
        salt: Vec<u8>,
        separators: Vec<u8>,
    ) -> (r: Harsh)
        ensures
            r@ == (HarshView {
                alphabet: alphabet@,
                guards: guards@,
                hash_length: hash_length as int,
                salt: salt@,
                separators: separators@,
            }),
    {
        Harsh { alphabet, guards, hash_length, salt, separators }
    }

    /// Encodes a slice of `u64` values into a single hashid.  An empty
    /// slice encodes to the empty string; a non-empty one to a string no
    /// shorter than the configured minimum length, and exactly the value
    /// the model assigns to this configuration and these values.
    pub fn encode(&self, values: &[u64]) -> (r: String)
        requires
            self@.wf(),
            values@.len() <= 0x1_0000_0000,
        ensures
            r@ == bytes_as_chars(spec_encode(self@, values@)),
            ascii_bytes(spec_encode(self@, values@)),
            values@.len() > 0 ==> r@.len() >= self@.hash_length,
            values@.len() == 0 ==> r@.len() == 0,
    {
        let ghost h = self@;
        if values.is_empty() {
            proof {
                assert(bytes_as_chars(spec_encode(h, values@)) =~= Seq::<char>::empty());
            }
            return String::new();
        }
        let nhash = create_nhash(values);
        proof {
            lemma_nhash_bound(values@);
            assert(values@.len() * (values@.len() + 199) <= 0x1_0000_0000 * (0x1_0000_0000 + 199))
                by (nonlinear_arith)
                requires
                    0 <= values@.len() <= 0x1_0000_0000,
            ;
            assert(nhash <= 0x8000_0070_0000_0000u64);
        }
        let mut alphabet = vstd::slice::slice_to_vec(self.alphabet.as_slice());
        let mut buffer: Vec<u8> = Vec::new();
        let lottery_idx = (nhash % (alphabet.len() as u64)) as usize;
        let lottery = alphabet[lottery_idx];
        buffer.push(lottery);
        proof {
            assert(lottery == h.alphabet[(spec_nhash(values@) % h.alphabet.len() as nat) as int]);
            assert(buffer@ =~= seq![lottery]);
        }
        let n = values.len();
        let mut i: usize = 0;
        while i < n
            invariant
                self@ == h,
                h.wf(),
                n == values@.len() <= 0x1_0000_0000,
                0 <= i <= n,
                alphabet@.len() == h.alphabet.len(),
                ascii_bytes(alphabet@),
                ascii_bytes(buffer@),
                buffer@.len() >= 1 + i,
                spec_encode_values(h, values@, 0, lottery, h.alphabet, seq![lottery])
                    == spec_encode_values(h, values@, i as int, lottery, alphabet@, buffer@),
            decreases n - i,
        {
            let key = shuffle_key(lottery, self.salt.as_slice(), alphabet.as_slice());
            let ghost pre_alpha = alphabet@;
            crate::shuffle::shuffle(&mut alphabet, key.as_slice());
            proof {
                crate::shuffle::lemma_shuffle_permutes(pre_alpha, key@);
                lemma_ascii_via_membership(pre_alpha, alphabet@);
                assert(alphabet@ == spec_shuffle_step(lottery, h.salt, pre_alpha));
            }
            let mut last = hash_bytes(values[i], alphabet.as_slice());
            let first_digit = last[0];
            proof {
                lemma_hash_bytes(values@[i as int] as nat, alphabet@);
                lemma_ascii_via_membership(alphabet@, last@);
                lemma_ascii_concat(buffer@, last@);
                assert(first_digit > 0);
            }
            let ghost pre_buffer = buffer@;
            let ghost digits = last@;
            buffer.append(&mut last);
            if i + 1 < n {
                let divisor = (first_digit as u64) + (i as u64);
                let reduced = values[i] % divisor;
                let sep_idx = (reduced % (self.separators.len() as u64)) as usize;
                let sep = self.separators[sep_idx];
                proof {
                    lemma_ascii_concat(buffer@, seq![sep]);
                    assert(buffer@.push(sep) =~= buffer@ + seq![sep]);
                }
                buffer.push(sep);
                proof {
                    assert(reduced as nat == (values@[i as int] as nat) % (digits[0]
                        + i as int) as nat);
                    assert(sep == h.separators[(reduced as nat % h.separators.len()) as int]);
                }
            }
            i = i + 1;
            proof {
                assert(spec_encode_values(h, values@, i - 1, lottery, pre_alpha, pre_buffer)
                    == spec_encode_values(h, values@, i as int, lottery, alphabet@, buffer@));
            }
        }
        let ghost loop_alpha = alphabet@;
        let ghost loop_buffer = buffer@;
        proof {
            assert(spec_encode_values(h, values@, n as int, lottery, alphabet@, buffer@) == (
            alphabet@,
            buffer@,
            ));
        }
        if buffer.len() < self.hash_length {
            let g_idx = ((nhash + (buffer[0] as u64)) % (self.guards.len() as u64)) as usize;
            let guard = self.guards[g_idx];
            buffer.insert(0, guard);
            proof {
                assert(buffer@ =~= seq![guard] + loop_buffer);
                lemma_ascii_concat(seq![guard], loop_buffer);
            }
            if buffer.len() < self.hash_length {
                let g2_idx = ((nhash + (buffer[2] as u64)) % (self.guards.len() as u64)) as usize;
                let guard2 = self.guards[g2_idx];
                proof {
                    lemma_ascii_concat(buffer@, seq![guard2]);
                    assert(buffer@.push(guard2) =~= buffer@ + seq![guard2]);
                }
                buffer.push(guard2);
            }
            proof {
                assert(buffer@ == spec_add_guards(h, spec_nhash(values@), loop_buffer));
            }
        }
        let ghost padded = buffer@;
        let half_length = alphabet.len() / 2;
        while buffer.len() < self.hash_length
            invariant
                self@ == h,
                h.wf(),
                alphabet@.len() == h.alphabet.len(),
                half_length == alphabet@.len() / 2,
                ascii_bytes(alphabet@),
                ascii_bytes(buffer@),
                spec_pad_loop(h, loop_alpha, padded) == spec_pad_loop(h, alphabet@, buffer@),
            decreases h.hash_length - buffer@.len(),
        {
            let copy = vstd::slice::slice_to_vec(alphabet.as_slice());
            let ghost pre = alphabet@;
            crate::shuffle::shuffle(&mut alphabet, copy.as_slice());
            proof {
                crate::shuffle::lemma_shuffle_permutes(pre, pre);
                lemma_ascii_via_membership(pre, alphabet@);
            }
            let mut nbuf = crate::bytes::subvec(alphabet.as_slice(), half_length, alphabet.len());
            let ghost old_buffer = buffer@;
            nbuf.append(&mut buffer);
            let mut left = crate::bytes::subvec(alphabet.as_slice(), 0, half_length);
            nbuf.append(&mut left);
            buffer = nbuf;
            proof {
                assert(buffer@ =~= alphabet@.skip(half_length as int) + old_buffer + alphabet@.take(
                    half_length as int,
                ));
                lemma_ascii_via_membership(pre, alphabet@.skip(half_length as int));
                lemma_ascii_via_membership(pre, alphabet@.take(half_length as int));
                lemma_ascii_concat(alphabet@.skip(half_length as int), old_buffer);
                lemma_ascii_concat(
                    alphabet@.skip(half_length as int) + old_buffer,
                    alphabet@.take(half_length as int),
                );
            }
            if buffer.len() > self.hash_length {
                let excess = buffer.len() - self.hash_length;
                let marker = excess / 2;
                let ghost wrapped = buffer@;
                buffer = crate::bytes::subvec(buffer.as_slice(), marker, marker + self.hash_length);
                proof {
                    assert forall|x: u8| buffer@.contains(x) implies wrapped.contains(x) by {
                        let w = choose|w: int| 0 <= w < buffer@.len() && buffer@[w] == x;
                        assert(wrapped[marker + w] == x);
                    }
                    lemma_ascii_via_membership(wrapped, buffer@);
                }
            }
        }
        proof {
            assert(spec_pad_loop(h, alphabet@, buffer@) == buffer@);
            assert(spec_encode(h, values@) == buffer@);
        }
        let out = ascii_to_string(buffer);
        out
    }

    /// Decodes a single hashid back into the `u64` values it encodes.
    /// Succeeds exactly when the input is what this configuration encodes
    /// the returned values to; any other input is rejected with a decode
    /// error, as the model specifies.
    pub fn decode(&self, input: &str) -> (r: Result<Vec<u64>, Error>)
        requires
            self@.wf(),
            input.spec_bytes().len() <= 0xFFFF_FFFF,
        ensures
            r matches Ok(v) ==> spec_decode(self@, input.spec_bytes()) == Ok::<Seq<u64>, Error>(
                v@,
            ),
            r matches Err(e) ==> spec_decode(self@, input.spec_bytes()) == Err::<Seq<u64>, Error>(
                e,
            ),
    {
        let ghost h = self@;
        let bytes = input.as_bytes_vec();
        let ghost bytes_g = bytes@;
        proof {
            crate::model::lemma_find_first_range(bytes@, h.guards);
        }
        let after_first: Vec<u8> = match find_first_of(bytes.as_slice(), self.guards.as_slice()) {
            Some(i) => crate::bytes::subvec(bytes.as_slice(), i + 1, bytes.len()),
            None => vstd::slice::slice_to_vec(bytes.as_slice()),
        };
        proof {
            crate::model::lemma_find_last_range(after_first@, h.guards);
        }
        let stripped: Vec<u8> = match find_last_of(after_first.as_slice(), self.guards.as_slice()) {
            Some(j) => crate::bytes::subvec(after_first.as_slice(), 0, j),
            None => after_first,
        };
        let ghost stripped_g = stripped@;
        proof {
            assert(stripped_g == crate::model::spec_strip_guards(h, bytes_g));
        }
        if stripped.len() < 2 {
            return Err(Error::Decode(DecodeError::Hash));
        }
        let lottery = stripped[0];
        let rest = crate::bytes::subvec(stripped.as_slice(), 1, stripped.len());
        let mut alphabet = vstd::slice::slice_to_vec(self.alphabet.as_slice());
        let mut values: Vec<u64> = Vec::new();
        let ghost all_segs = crate::model::spec_segments(rest@, h.separators);
        let ghost mut si: int = 0;
        let n = rest.len();
        let mut seg_start: usize = 0;
        let mut pos: usize = 0;
        proof {
            crate::model::lemma_segments_count(rest@, h.separators);
            assert(rest@.skip(0) =~= rest@);
            assert(all_segs.skip(0) =~= all_segs);
            match crate::model::spec_decode_values(all_segs, lottery, h.salt, h.alphabet) {
                None => {},
                Some(vs) => {
                    assert(Seq::<u64>::empty() + vs =~= vs);
                },
            }
        }
        while pos <= n
            invariant
                self@ == h,
                h.wf(),
                n == rest@.len(),
                n + 1 <= 0xFFFF_FFFF,
                input.spec_bytes() == bytes_g,
                crate::model::spec_strip_guards(h, bytes_g) == stripped_g,
                stripped_g.len() >= 2,
                lottery == stripped_g[0],
                rest@ == stripped_g.skip(1),
                all_segs == crate::model::spec_segments(rest@, h.separators),
                0 <= seg_start,
                seg_start <= pos <= n + 1,
                0 <= si <= all_segs.len(),
                values@.len() == si,
                alphabet@.len() == h.alphabet.len(),
                forall|k: int|
                    seg_start <= k < pos && k < n ==> !h.separators.contains(
                        #[trigger] rest@[k],
                    ),
                seg_start <= n ==> all_segs.skip(si) == crate::model::spec_segments(
                    rest@.skip(seg_start as int),
                    h.separators,
                ),
                seg_start == n + 1 ==> si == all_segs.len(),
                pos == n + 1 ==> seg_start == n + 1,
                crate::model::spec_decode_values(all_segs, lottery, h.salt, h.alphabet)
                    == crate::model::compose_values(
                    values@,
                    crate::model::spec_decode_values(
                        all_segs.skip(si),
                        lottery,
                        h.salt,
                        alphabet@,
                    ),
                ),
            decreases n + 1 - pos,
        {
            let boundary = if pos == n {
                true
            } else {
                crate::bytes::contains_byte(self.separators.as_slice(), rest[pos])
            };
            if boundary {
                let segment = crate::bytes::subvec(rest.as_slice(), seg_start, pos);
                let ghost remaining = rest@.skip(seg_start as int);
                proof {
                    assert forall|k: int|
                        0 <= k < pos - seg_start implies !h.separators.contains(
                        #[trigger] remaining[k],
                    ) by {
                        assert(remaining[k] == rest@[seg_start + k]);
                    }
                    if pos < n {
                        assert(remaining[pos - seg_start] == rest@[pos as int]);
                        crate::model::lemma_find_first_unique(
                            remaining,
                            h.separators,
                            pos - seg_start,
                        );
                        assert(remaining.take(pos - seg_start) =~= segment@);
                        assert(remaining.skip(pos - seg_start + 1) =~= rest@.skip(pos + 1));
                    } else {
                        crate::model::lemma_find_first_range(remaining, h.separators);
                        match crate::model::spec_find_first(remaining, h.separators) {
                            None => {},
                            Some(p) => {
                                assert(remaining[p] == rest@[seg_start + p]);
                            },
                        }
                        assert(remaining =~= segment@);
                    }
                }
                let key = shuffle_key(lottery, self.salt.as_slice(), alphabet.as_slice());
                let ghost pre_alpha = alphabet@;
                crate::shuffle::shuffle(&mut alphabet, key.as_slice());
                proof {
                    crate::shuffle::lemma_shuffle_permutes(pre_alpha, key@);
                    assert(alphabet@ == spec_shuffle_step(lottery, h.salt, pre_alpha));
                    assert(all_segs.skip(si)[0] == segment@);
                    assert(all_segs.skip(si).drop_first() =~= all_segs.skip(si + 1));
                }
                match unhash(segment.as_slice(), alphabet.as_slice()) {
                    None => {
                        proof {
                            assert(crate::model::spec_decode_values(
                                all_segs.skip(si),
                                lottery,
                                h.salt,
                                pre_alpha,
                            ) is None);
                            assert(crate::model::spec_decode_values(
                                all_segs,
                                lottery,
                                h.salt,
                                h.alphabet,
                            ) is None);
                        }
                        return Err(Error::Decode(DecodeError::Value));
                    },
                    Some(v) => {
                        proof {
                            match crate::model::spec_decode_values(
                                all_segs.skip(si + 1),
                                lottery,
                                h.salt,
                                alphabet@,
                            ) {
                                None => {},
                                Some(vs) => {
                                    assert(values@ + (seq![v] + vs) =~= values@.push(v) + vs);
                                },
                            }
                            si = si + 1;
                        }
                        values.push(v);
                    },
                }
                seg_start = pos + 1;
            }
            pos = pos + 1;
        }
        proof {
            assert(all_segs.skip(all_segs.len() as int) =~= Seq::<Seq<u8>>::empty());
            assert(crate::model::spec_decode_values(
                all_segs.skip(si),
                lottery,
                h.salt,
                alphabet@,
            ) == Some(Seq::<u64>::empty()));
            assert(values@ + Seq::<u64>::empty() =~= values@);
            assert(crate::model::spec_decode_values(all_segs, lottery, h.salt, h.alphabet) == Some(
                values@,
            ));
            assert(values@.len() <= n + 1);
        }
        let encoded = self.encode(values.as_slice());
        let enc_bytes = encoded.as_str().as_bytes_vec();
        proof {
            let e = spec_encode(h, values@);
            assert(encoded@ == bytes_as_chars(e));
            assert(vstd::utf8::is_ascii_chars(encoded@)) by {
                assert forall|i: int|
                    0 <= i < encoded@.len() implies '\0' <= #[trigger] encoded@[i]
                    <= '\u{7f}' by {
                    assert(encoded@[i] == e[i] as char);
                    assert(0 < e[i] < 128);
                }
            }
            vstd::utf8::is_ascii_chars_encode_utf8(encoded@);
            assert(enc_bytes@ =~= e);
        }
        if crate::bytes::eq_bytes(enc_bytes.as_slice(), bytes.as_slice()) {
            Ok(values)
        } else {
            Err(Error::Decode(DecodeError::Hash))
        }
    }

    /// Encodes a hex string into a hashid: the digits are read in chunks of
    /// twelve, each with an artificial leading `1` digit, and the resulting
    /// integers are encoded.  Fails with the hex error exactly when a byte
    /// is not a hex digit.
    pub fn encode_hex(&self, hex: &str) -> (r: Result<String, Error>)
        requires
            self@.wf(),
            hex.spec_bytes().len() <= 0x1_0000_0000,
        ensures
            r matches Ok(s) ==> crate::model::spec_encode_hex(self@, hex.spec_bytes()) matches Ok(
                b,
            ) && s@ == bytes_as_chars(b),
            r matches Err(e) ==> crate::model::spec_encode_hex(self@, hex.spec_bytes()) == Err::<
                Seq<u8>,
                Error,
            >(e),
    {
        let ghost h = self@;
        let bytes = hex.as_bytes_vec();
        let mut values: Vec<u64> = Vec::new();
        let n = bytes.len();
        let mut start: usize = 0;
        proof {
            assert(bytes@.skip(0) =~= bytes@);
            match crate::model::spec_hex_values(bytes@) {
                None => {},
                Some(vs) => {
                    assert(Seq::<u64>::empty() + vs =~= vs);
                },
            }
        }
        while start < n
            invariant
                n == bytes@.len() <= 0x1_0000_0000,
                hex.spec_bytes() == bytes@,
                0 <= start <= n,
                values@.len() <= start,
                crate::model::spec_hex_values(bytes@) == crate::model::compose_values(
                    values@,
                    crate::model::spec_hex_values(bytes@.skip(start as int)),
                ),
            decreases n - start,
        {
            let end = if n - start < 12 {
                n
            } else {
                start + 12
            };
            let ghost chunk = bytes@.subrange(start as int, end as int);
            proof {
                assert(bytes@.skip(start as int).take(if n - start < 12 {
                    (n - start) as int
                } else {
                    12
                }) =~= chunk);
            }
            let mut acc: u64 = 1;
            let mut k: usize = start;
            proof {
                assert(crate::model::pow16(1) == 16) by {
                    assert(crate::model::pow16(0) == 1);
                }
                assert(chunk.skip(0) =~= chunk);
            }
            while k < end
                invariant
                    n == bytes@.len() <= 0x1_0000_0000,
                    hex.spec_bytes() == bytes@,
                    0 <= start <= k <= end <= n,
                    end - start <= 12,
                    n - start < 12 ==> end == n,
                    n - start >= 12 ==> end == start + 12,
                    chunk == bytes@.subrange(start as int, end as int),
                    bytes@.skip(start as int).take((end - start) as int) == chunk,
                    forall|j: int|
                        0 <= j < k - start ==> crate::model::is_hex_digit(#[trigger] chunk[j]),
                    acc as nat <= crate::model::pow16((k - start + 1) as nat) - 1,
                    crate::model::spec_hex_value_from(chunk, 1) == crate::model::spec_hex_value_from(
                        chunk.skip((k - start) as int),
                        acc as nat,
                    ),
                    values@.len() <= start,
                    crate::model::spec_hex_values(bytes@) == crate::model::compose_values(
                        values@,
                        crate::model::spec_hex_values(bytes@.skip(start as int)),
                    ),
                decreases end - k,
            {
                let b = bytes[k];
                let digit: u64 = if 48 <= b && b <= 57 {
                    (b - 48) as u64
                } else if 97 <= b && b <= 102 {
                    (b - 87) as u64
                } else if 65 <= b && b <= 70 {
                    (b - 55) as u64
                } else {
                    proof {
                        let s = bytes@.skip(start as int);
                        assert(s[(k - start) as int] == bytes@[k as int]);
                        crate::model::lemma_hex_values_none(s, (k - start) as int);
                    }
                    return Err(Error::Hex);
                };
                proof {
                    assert(chunk[(k - start) as int] == bytes@[k as int]);
                    assert(crate::model::is_hex_digit(chunk[(k - start) as int]));
                    assert(digit as nat == crate::model::spec_hex_digit(chunk[(k - start) as int]));
                    assert(chunk.skip((k - start) as int)[0] == chunk[(k - start) as int]);
                    assert(chunk.skip((k - start) as int).drop_first() =~= chunk.skip(
                        (k - start) + 1,
                    ));
                    crate::model::lemma_pow16_values();
                    crate::model::lemma_pow16_le((k - start + 1) as nat, 12);
                    assert(acc as nat <= crate::model::pow16(12) - 1);
                    assert(16 * (acc as nat) + 15 <= 16 * crate::model::pow16(12) - 1);
                }
                acc = acc * 16 + digit;
                k = k + 1;
            }
            proof {
                assert(chunk.skip((end - start) as int) =~= Seq::<u8>::empty());
                assert(crate::model::all_hex_digits(chunk));
                assert(crate::model::spec_hex_value_from(chunk, 1) == acc as nat);
                let tail = bytes@.skip(end as int);
                assert(bytes@.skip(start as int).skip((end - start) as int) =~= tail);
                match crate::model::spec_hex_values(tail) {
                    None => {
                        assert(crate::model::spec_hex_values(bytes@.skip(start as int)) is None);
                    },
                    Some(rest) => {
                        assert(crate::model::spec_hex_values(bytes@.skip(start as int)) == Some(
                            seq![(crate::model::spec_hex_value_from(chunk, 1) as u64)] + rest,
                        ));
                        assert(values@ + (seq![acc] + rest) =~= values@.push(acc) + rest);
                    },
                }
            }
            values.push(acc);
            start = end;
        }
        proof {
            assert(bytes@.skip(n as int) =~= Seq::<u8>::empty());
            assert(crate::model::spec_hex_values(bytes@.skip(n as int)) == Some(
                Seq::<u64>::empty(),
            ));
            assert(values@ + Seq::<u64>::empty() =~= values@);
            assert(crate::model::spec_hex_values(bytes@) == Some(values@));
        }
        Ok(self.encode(values.as_slice()))
    }

    /// Decodes a hashid produced by `encode_hex` back into its hex string:
    /// each recovered value is rendered in lowercase hex and its artificial
    /// leading digit dropped.  Decode failures pass through unchanged.
    pub fn decode_hex(&self, value: &str) -> (r: Result<String, Error>)
        requires
            self@.wf(),
            value.spec_bytes().len() <= 0xFFFF_FFFF,
        ensures
            r matches Ok(s) ==> crate::model::spec_decode_hex(self@, value.spec_bytes())
                matches Ok(b) && s@ == bytes_as_chars(b),
            r matches Err(e) ==> crate::model::spec_decode_hex(self@, value.spec_bytes()) == Err::<
                Seq<u8>,
                Error,
            >(e),
    {
        let ghost h = self@;
        let values = match self.decode(value) {
            Ok(v) => v,
            Err(e) => {
                return Err(e);
            },
        };
        let mut out: Vec<u8> = Vec::new();
        let n = values.len();
        let mut i: usize = 0;
        proof {
            assert(values@.skip(0) =~= values@);
            assert(Seq::<u8>::empty() + crate::model::spec_hex_fragments(values@)
                =~= crate::model::spec_hex_fragments(values@));
        }
        while i < n
            invariant
                n == values@.len(),
                0 <= i <= n,
                ascii_bytes(out@),
                crate::model::spec_hex_fragments(values@) == out@
                    + crate::model::spec_hex_fragments(values@.skip(i as int)),
            decreases n - i,
        {
            let digits = hex_str_bytes(values[i]);
            let m = digits.len();
            let mut k: usize = 1;
            proof {
                assert(values@.skip(i as int)[0] == values@[i as int]);
                assert(values@.skip(i as int).drop_first() =~= values@.skip(i + 1));
                assert(digits@.subrange(1, m as int) =~= digits@.skip(1));
                assert((out@ + digits@.subrange(1, m as int))
                    + crate::model::spec_hex_fragments(values@.skip(i + 1)) =~= out@ + (
                digits@.skip(1) + crate::model::spec_hex_fragments(values@.skip(i + 1))));
            }
            while k < m
                invariant
                    n == values@.len(),
                    0 <= i < n,
                    m == digits@.len(),
                    1 <= k <= m,
                    ascii_bytes(digits@),
                    ascii_bytes(out@),
                    crate::model::spec_hex_fragments(values@) == (out@ + digits@.subrange(
                        k as int,
                        m as int,
                    )) + crate::model::spec_hex_fragments(values@.skip(i + 1)),
                decreases m - k,
            {
                proof {
                    assert(digits@.subrange(k as int, m as int) =~= seq![digits@[k as int]]
                        + digits@.subrange(k + 1, m as int));
                    assert((out@.push(digits@[k as int]) + digits@.subrange(k + 1, m as int))
                        =~= (out@ + digits@.subrange(k as int, m as int)));
                    lemma_ascii_concat(out@, seq![digits@[k as int]]);
                    assert(out@.push(digits@[k as int]) =~= out@ + seq![digits@[k as int]]);
                }
                out.push(digits[k]);
                k = k + 1;
            }
            proof {
                assert(digits@.subrange(m as int, m as int) =~= Seq::<u8>::empty());
                assert(out@ + Seq::<u8>::empty() =~= out@);
                assert((out@ + digits@.subrange(m as int, m as int))
                    + crate::model::spec_hex_fragments(values@.skip(i + 1)) == out@
                    + crate::model::spec_hex_fragments(values@.skip(i + 1)));
            }
            i = i + 1;
        }
        proof {
            assert(values@.skip(n as int) =~= Seq::<u64>::empty());
            assert(crate::model::spec_hex_fragments(values@.skip(n as int))
                =~= Seq::<u8>::empty());
            assert(out@ + Seq::<u8>::empty() =~= out@);
            assert(crate::model::spec_hex_fragments(values@) == out@);
        }
        Ok(ascii_to_string(out))
    }
}

impl Default for Harsh {
    /// The same codec as [`Harsh::new`].
    fn default() -> (r: Harsh)
        ensures
            crate::builder::spec_build(
                crate::builder::BuilderView {
                    salt: None,
                    alphabet: None,
                    separators: None,
                    hash_length: 0,
                },
            ) == Ok::<HarshView, crate::builder::BuildHarshError>(r@),
            r@.wf(),
    {
        Harsh::new()
    }
}

/// The lowercase hex digits of `value`, most significant first.
fn hex_str_bytes(value: u64) -> (r: Vec<u8>)
    ensures
        r@ == crate::model::spec_hex_str(value as nat),
        r@.len() >= 1,
        ascii_bytes(r@),
{
    let mut digits: Vec<u8> = Vec::new();
    let mut v: u64 = value;
    while v >= 16
        invariant
            crate::model::spec_hex_str(value as nat) == crate::model::spec_hex_str(v as nat)
                + digits@.reverse(),
            ascii_bytes(digits@),
        decreases v,
    {
        let rem = v % 16;
        let d: u8 = if rem < 10 {
            (48 + rem) as u8
        } else {
            (87 + rem) as u8
        };
        proof {
            assert(d == crate::model::spec_hex_char((v % 16) as nat));
            assert(digits@.push(d).reverse() =~= seq![d] + digits@.reverse());
            assert(crate::model::spec_hex_str(v as nat) == crate::model::spec_hex_str(
                (v / 16) as nat,
            ).push(d));
            assert(crate::model::spec_hex_str((v / 16) as nat).push(d) + digits@.reverse()
                =~= crate::model::spec_hex_str((v / 16) as nat) + digits@.push(d).reverse());
            lemma_ascii_concat(digits@, seq![d]);
            assert(digits@.push(d) =~= digits@ + seq![d]);
        }
        digits.push(d);
        v = v / 16;
    }
    let d: u8 = if v < 10 {
        (48 + v) as u8
    } else {
        (87 + v) as u8
    };
    proof {
        assert(d == crate::model::spec_hex_char(v as nat));
        assert(crate::model::spec_hex_str(v as nat) == seq![d]);
        assert(digits@.push(d).reverse() =~= seq![d] + digits@.reverse());
        assert(crate::model::spec_hex_str(value as nat) =~= digits@.push(d).reverse());
        lemma_ascii_concat(digits@, seq![d]);
        assert(digits@.push(d) =~= digits@ + seq![d]);
    }
    digits.push(d);
    let n = digits.len();
    let mut r: Vec<u8> = Vec::new();
    let mut idx: usize = 0;
    while idx < n
        invariant
            n == digits@.len(),
            0 <= idx <= n,
            r@.len() == idx,
            ascii_bytes(digits@),
            forall|j: int| 0 <= j < idx ==> r@[j] == digits@[n - 1 - j],
        decreases n - idx,
    {
        r.push(digits[n - 1 - idx]);
        idx = idx + 1;
    }
    proof {
        assert(r@ =~= digits@.reverse());
        assert forall|j: int| 0 <= j < r@.len() implies 0 < #[trigger] r@[j] < 128 by {
            assert(r@[j] == digits@[n - 1 - j]);
        }
    }
    r
}

} // verus!
