//! Configuration: validates the caller's alphabet, partitions it into
//! alphabet and separators, rebalances the two, shuffles both with the salt,
//! and carves the guard set out of the result.

use crate::bytes::{contains_byte, take_front};
use crate::harsh::{Harsh, HarshView};
use crate::shuffle::{shuffle, spec_shuffle};
use vstd::prelude::*;
use vstd::seq_lib::*;
use vstd::slice::slice_to_vec;
use vstd::string::StrSliceExecFns;
use vstd::string::StringSliceAdditionalSpecFns;
use vstd::utf8::{is_ascii_chars, is_ascii_chars_encode_utf8};

verus! {

/// Errors encountered while deriving a `Harsh` configuration.
#[derive(Clone, Debug, PartialEq, Eq)]
pub enum BuildHarshError {
    /// The provided alphabet has fewer than sixteen distinct usable bytes.
    AlphabetLength,
    /// The provided alphabet contains an illegal character.
    IllegalCharacter(char),
    /// A separator character is not found in the alphabet.
    Separator,
}

/// The default alphabet: the 62 latin alphanumerics.
pub open spec fn spec_default_alphabet() -> Seq<u8> {
    "abcdefghijklmnopqrstuvwxyzABCDEFGHIJKLMNOPQRSTUVWXYZ1234567890"@.map_values(
        |c: char| c as u8,
    )
}

/// The default separator candidates: the c/f/h/i/s/t/u consonants and their
/// upper-case forms.
pub open spec fn spec_default_separators() -> Seq<u8> {
    "cfhistuCFHISTU"@.map_values(|c: char| c as u8)
}

/// The default alphabet as a byte buffer.
pub fn default_alphabet() -> (r: Vec<u8>)
    ensures
        r@ == spec_default_alphabet(),
{
    let s = "abcdefghijklmnopqrstuvwxyzABCDEFGHIJKLMNOPQRSTUVWXYZ1234567890";
    let r = s.as_bytes_vec();
    proof {
        reveal_strlit("abcdefghijklmnopqrstuvwxyzABCDEFGHIJKLMNOPQRSTUVWXYZ1234567890");
        assert(is_ascii_chars(s@));
        is_ascii_chars_encode_utf8(s@);
        assert(r@ =~= spec_default_alphabet());
    }
    r
}

/// The default separator candidates as a byte buffer.
pub fn default_separators() -> (r: Vec<u8>)
    ensures
        r@ == spec_default_separators(),
{
    let s = "cfhistuCFHISTU";
    let r = s.as_bytes_vec();
    proof {
        reveal_strlit("cfhistuCFHISTU");
        assert(is_ascii_chars(s@));
        is_ascii_chars_encode_utf8(s@);
        assert(r@ =~= spec_default_separators());
    }
    r
}

/// The contents of an optional byte buffer, as an optional sequence.
pub open spec fn opt_view(o: Option<Vec<u8>>) -> Option<Seq<u8>> {
    match o {
        None => None,
        Some(v) => Some(v@),
    }
}

/// Membership in `s`, as a predicate on bytes.
pub open spec fn in_set(s: Seq<u8>) -> spec_fn(u8) -> bool {
    |c: u8| s.contains(c)
}

/// Absence from `s`, as a predicate on bytes.
pub open spec fn not_in_set(s: Seq<u8>) -> spec_fn(u8) -> bool {
    |c: u8| !s.contains(c)
}

/// `s` with exact duplicate bytes removed, first occurrence kept.
pub open spec fn spec_dedup(s: Seq<u8>) -> Seq<u8>
    decreases s.len(),
{
    if s.len() == 0 {
        Seq::empty()
    } else {
        let rest = spec_dedup(s.drop_last());
        if rest.contains(s.last()) {
            rest
        } else {
            rest.push(s.last())
        }
    }
}

pub proof fn lemma_dedup_properties(s: Seq<u8>)
    ensures
        spec_dedup(s).no_duplicates(),
        forall|b: u8| spec_dedup(s).contains(b) == s.contains(b),
        spec_dedup(s).len() <= s.len(),
    decreases s.len(),
{
    broadcast use lemma_seq_contains_after_push;

    if s.len() == 0 {
        assert(forall|b: u8| !spec_dedup(s).contains(b) && !s.contains(b));
    } else {
        lemma_dedup_properties(s.drop_last());
        let rest = spec_dedup(s.drop_last());
        assert forall|b: u8| spec_dedup(s).contains(b) == s.contains(b) by {
            if s.contains(b) {
                let w = choose|w: int| 0 <= w < s.len() && s[w] == b;
                if w == s.len() - 1 {
                    assert(s.last() == b);
                } else {
                    assert(s.drop_last()[w] == b);
                    assert(s.drop_last().contains(b));
                }
                assert(spec_dedup(s).contains(b));
            }
            if spec_dedup(s).contains(b) {
                if rest.contains(b) {
                    assert(s.drop_last().contains(b));
                    let w = choose|w: int| 0 <= w < s.drop_last().len() && s.drop_last()[w] == b;
                    assert(s[w] == b);
                } else {
                    assert(b == s.last());
                    assert(s[s.len() - 1] == b);
                }
            }
        }
    }
}

/// What the builder derives from a caller alphabet: the default alphabet
/// when none was given, otherwise the deduplicated alphabet, unless it holds
/// a space or ends up with fewer than sixteen distinct bytes.
pub open spec fn spec_unique_alphabet(alphabet: Option<Seq<u8>>) -> Result<
    Seq<u8>,
    BuildHarshError,
> {
    match alphabet {
        None => Ok(spec_dedup(spec_default_alphabet())),
        Some(a) => {
            if a.contains(32u8) {
                Err(BuildHarshError::IllegalCharacter(' '))
            } else if spec_dedup(a).len() < 16 {
                Err(BuildHarshError::AlphabetLength)
            } else {
                Ok(spec_dedup(a))
            }
        },
    }
}

/// Deduplicates the caller alphabet (or takes the default), rejecting a
/// space byte and an alphabet with fewer than sixteen distinct bytes.
fn unique_alphabet(alphabet: &Option<Vec<u8>>) -> (r: Result<Vec<u8>, BuildHarshError>)
    ensures
        r matches Ok(a) ==> spec_unique_alphabet(opt_view(*alphabet)) == Ok::<
            Seq<u8>,
            BuildHarshError,
        >(a@) && a@.no_duplicates(),
        r matches Err(e) ==> spec_unique_alphabet(opt_view(*alphabet)) == Err::<
            Seq<u8>,
            BuildHarshError,
        >(e),
{
    let is_custom = alphabet.is_some();
    let source: Vec<u8> = if is_custom {
        slice_to_vec(alphabet.as_ref().unwrap().as_slice())
    } else {
        default_alphabet()
    };
    proof {
        if is_custom {
            assert(opt_view(*alphabet) == Some(source@));
        }
    }
    let mut ret: Vec<u8> = Vec::new();
    let n = source.len();
    let mut idx: usize = 0;
    while idx < n
        invariant
            n == source@.len(),
            0 <= idx <= n,
            ret@ == spec_dedup(source@.take(idx as int)),
            is_custom ==> forall|k: int| 0 <= k < idx ==> source@[k] != 32u8,
            is_custom ==> opt_view(*alphabet) == Some(source@),
        decreases n - idx,
    {
        let item = source[idx];
        if is_custom && item == 32u8 {
            proof {
                assert(source@.contains(32u8));
            }
            return Err(BuildHarshError::IllegalCharacter(' '));
        }
        proof {
            assert(source@.take(idx + 1).drop_last() =~= source@.take(idx as int));
            assert(source@.take(idx + 1).last() == source@[idx as int]);
        }
        if !contains_byte(ret.as_slice(), item) {
            ret.push(item);
        }
        idx = idx + 1;
        proof {
            lemma_dedup_properties(source@.take(idx as int));
        }
    }
    proof {
        assert(source@.take(n as int) =~= source@);
        lemma_dedup_properties(source@);
    }
    if is_custom {
        proof {
            assert(!source@.contains(32u8)) by {
                if source@.contains(32u8) {
                    let w = choose|w: int| 0 <= w < source@.len() && source@[w] == 32u8;
                }
            }
        }
        if ret.len() < 16 {
            return Err(BuildHarshError::AlphabetLength);
        }
    }
    Ok(ret)
}

/// What the rebalancing step derives: separators restricted to the alphabet
/// and shuffled; bytes borrowed from the alphabet's front (or separators
/// truncated) when the alphabet outweighs the separators more than 7:2; and
/// the remaining alphabet shuffled.
pub open spec fn spec_alphabet_and_separators(
    separators: Option<Seq<u8>>,
    alphabet: Seq<u8>,
    salt: Seq<u8>,
) -> (Seq<u8>, Seq<u8>) {
    let source = match separators {
        None => spec_default_separators(),
        Some(s) => s,
    };
    let seps1 = source.filter(in_set(alphabet));
    let alpha1 = alphabet.filter(not_in_set(seps1));
    let seps2 = spec_shuffle(seps1, salt);
    let picked = if seps2.len() == 0 || 2 * alpha1.len() > 7 * seps2.len() {
        let c = (2 * alpha1.len() + 6) / 7;
        let length: int = if c == 1 {
            2
        } else {
            c as int
        };
        if length > seps2.len() {
            let diff = length - seps2.len();
            (alpha1.skip(diff), seps2 + alpha1.take(diff))
        } else {
            (alpha1, seps2.take(length))
        }
    } else {
        (alpha1, seps2)
    };
    (spec_shuffle(picked.0, salt), picked.1)
}

/// A filter whose predicate holds everywhere keeps the sequence unchanged.
proof fn lemma_filter_all_true(s: Seq<u8>, pred: spec_fn(u8) -> bool)
    requires
        forall|i: int| 0 <= i < s.len() ==> pred(#[trigger] s[i]),
    ensures
        s.filter(pred) == s,
    decreases s.len(),
{
    reveal(Seq::filter);
    if s.len() == 0 {
        assert(s.filter(pred) =~= s);
    } else {
        lemma_filter_all_true(s.drop_last(), pred);
        assert(s.filter(pred) =~= s);
    }
}

/// Keeps the bytes of `source` that `keep` accepts, in order.
fn filter_bytes_in(source: &[u8], keep: &[u8]) -> (r: Vec<u8>)
    ensures
        r@ == source@.filter(in_set(keep@)),
{
    broadcast use {Seq::lemma_filter_push, Seq::lemma_take_succ_push};

    let n = source.len();
    let mut ret: Vec<u8> = Vec::new();
    let mut idx: usize = 0;
    proof {
        reveal(Seq::filter);
        assert(source@.take(0).filter(in_set(keep@)) =~= Seq::<u8>::empty());
    }
    while idx < n
        invariant
            n == source@.len(),
            0 <= idx <= n,
            ret@ == source@.take(idx as int).filter(in_set(keep@)),
        decreases n - idx,
    {
        let item = source[idx];
        if contains_byte(keep, item) {
            ret.push(item);
        }
        proof {
            assert(source@.take(idx + 1) =~= source@.take(idx as int).push(item));
            Seq::lemma_filter_push(source@.take(idx as int), item, in_set(keep@));
            if keep@.contains(item) {
                assert(in_set(keep@)(item));
            } else {
                assert(!in_set(keep@)(item));
            }
        }
        idx = idx + 1;
    }
    proof {
        assert(source@.take(n as int) =~= source@);
    }
    ret
}

/// Keeps the bytes of `source` that `avoid` does not hold, in order.
fn filter_bytes_out(source: &[u8], avoid: &[u8]) -> (r: Vec<u8>)
    ensures
        r@ == source@.filter(not_in_set(avoid@)),
{
    broadcast use {Seq::lemma_filter_push, Seq::lemma_take_succ_push};

    let n = source.len();
    let mut ret: Vec<u8> = Vec::new();
    let mut idx: usize = 0;
    proof {
        reveal(Seq::filter);
        assert(source@.take(0).filter(not_in_set(avoid@)) =~= Seq::<u8>::empty());
    }
    while idx < n
        invariant
            n == source@.len(),
            0 <= idx <= n,
            ret@ == source@.take(idx as int).filter(not_in_set(avoid@)),
        decreases n - idx,
    {
        let item = source[idx];
        if !contains_byte(avoid, item) {
            ret.push(item);
        }
        proof {
            assert(source@.take(idx + 1) =~= source@.take(idx as int).push(item));
            Seq::lemma_filter_push(source@.take(idx as int), item, not_in_set(avoid@));
            if avoid@.contains(item) {
                assert(!not_in_set(avoid@)(item));
            } else {
                assert(not_in_set(avoid@)(item));
            }
        }
        idx = idx + 1;
    }
    proof {
        assert(source@.take(n as int) =~= source@);
    }
    ret
}

/// Derives the working alphabet and separator set from the candidate sets
/// and the salt.  The separator set that comes back is never empty.
pub fn alphabet_and_separators(separators: &Option<Vec<u8>>, alphabet: &[u8], salt: &[u8]) -> (r: (
    Vec<u8>,
    Vec<u8>,
))
    requires
        alphabet@.no_duplicates(),
        alphabet@.len() >= 16,
    ensures
        (r.0@, r.1@) == spec_alphabet_and_separators(opt_view(*separators), alphabet@, salt@),
        r.1@.len() >= 1,
{
    broadcast use Seq::lemma_filter_len;

    let source: Vec<u8> = match separators {
        None => default_separators(),
        Some(s) => slice_to_vec(s.as_slice()),
    };
    let mut seps: Vec<u8> = filter_bytes_in(source.as_slice(), alphabet);
    let mut alpha: Vec<u8> = filter_bytes_out(alphabet, seps.as_slice());
    let ghost seps1 = seps@;
    let ghost alpha1 = alpha@;
    shuffle(&mut seps, salt);
    proof {
        crate::shuffle::lemma_shuffle_permutes(seps1, salt@);
    }
    let rebalance = seps.len() == 0 || 2 * (alpha.len() as u128) > 7 * (seps.len() as u128);
    if rebalance {
        proof {
            if seps1.len() == 0 {
                assert forall|i: int|
                    0 <= i < alphabet@.len() implies not_in_set(seps1)(#[trigger] alphabet@[i]) by {}
                lemma_filter_all_true(alphabet@, not_in_set(seps1));
                assert(alpha1.len() >= 16);
            } else {
                assert(2 * alpha1.len() > 7 * seps1.len() >= 7);
                assert(alpha1.len() >= 4);
            }
        }
        let c = ((2 * (alpha.len() as u128) + 6) / 7) as usize;
        proof {
            assert(c == (2 * alpha1.len() + 6) / 7);
            assert(c >= (2 * 4 + 6) / 7);
        }
        let length: usize = if c == 1 {
            2
        } else {
            c
        };
        proof {
            assert(length >= 2);
        }
        if length > seps.len() {
            let diff = length - seps.len();
            proof {
                assert(c <= alpha1.len());
                assert(diff <= alpha1.len());
            }
            let mut moved = take_front(&mut alpha, diff);
            seps.append(&mut moved);
        } else {
            seps.truncate(length);
            proof {
                assert(seps@ =~= spec_shuffle(seps1, salt@).take(length as int));
            }
        }
        proof {
            assert(seps@.len() >= 2);
        }
    }
    let ghost alpha2 = alpha@;
    shuffle(&mut alpha, salt);
    proof {
        crate::shuffle::lemma_shuffle_permutes(alpha2, salt@);
    }
    (alpha, seps)
}

/// A duplicate-free sequence whose members all occur in `b` is no longer
/// than `b`.
proof fn lemma_no_dup_members_bound(a: Seq<u8>, b: Seq<u8>)
    requires
        a.no_duplicates(),
        forall|i: int| 0 <= i < a.len() ==> b.contains(#[trigger] a[i]),
    ensures
        a.len() <= b.len(),
{
    broadcast use vstd::set::group_set_axioms;

    a.unique_seq_to_set();
    b.lemma_cardinality_of_set();
    assert forall|x: u8| a.to_set().contains(x) implies b.to_set().contains(x) by {
        assert(a.contains(x));
        let w = choose|w: int| 0 <= w < a.len() && a[w] == x;
        assert(b.contains(x));
    }
    assert(a.to_set().subset_of(b.to_set()));
    vstd::set_lib::lemma_len_subset(a.to_set(), b.to_set());
}

/// Filtering by a predicate and by its complement splits the length.
proof fn lemma_filter_split_len(s: Seq<u8>, p: spec_fn(u8) -> bool, q: spec_fn(u8) -> bool)
    requires
        forall|x: u8| #[trigger] p(x) == !q(x),
    ensures
        s.filter(p).len() + s.filter(q).len() == s.len(),
    decreases s.len(),
{
    reveal(Seq::filter);
    if s.len() == 0 {
    } else {
        lemma_filter_split_len(s.drop_last(), p, q);
    }
}

/// Filtering preserves the absence of duplicates.
proof fn lemma_filter_no_dup(s: Seq<u8>, p: spec_fn(u8) -> bool)
    requires
        s.no_duplicates(),
    ensures
        s.filter(p).no_duplicates(),
    decreases s.len(),
{
    reveal(Seq::filter);
    broadcast use {Seq::lemma_filter_contains_rev, lemma_seq_contains_after_push};

    if s.len() == 0 {
    } else {
        assert forall|i: int, j: int|
            0 <= i < s.drop_last().len() && 0 <= j < s.drop_last().len() && i
                != j implies s.drop_last()[i] != s.drop_last()[j] by {
            assert(s[i] == s.drop_last()[i]);
        }
        lemma_filter_no_dup(s.drop_last(), p);
        if p(s.last()) {
            if s.drop_last().filter(p).contains(s.last()) {
                assert(s.drop_last().contains(s.last()));
                let w = choose|w: int|
                    0 <= w < s.drop_last().len() && s.drop_last()[w] == s.last();
                assert(s[w] == s[s.len() - 1]);
            }
            vstd::seq_lib::lemma_no_dup_in_concat(
                s.drop_last().filter(p),
                seq![s.last()],
            );
            assert(s.drop_last().filter(p).push(s.last()) =~= s.drop_last().filter(p) + seq![
                s.last(),
            ]);
        }
    }
}

/// What the rebalancing pipeline guarantees of its two outputs when fed at
/// least sixteen distinct alphabet bytes: both draw their bytes from the
/// candidate alphabet, both are duplicate-free (for a duplicate-free
/// separator source), they are disjoint, the separators are never empty,
/// and together they are as large as the alphabet was.
pub proof fn lemma_alphabet_and_separators_wf(
    separators: Option<Seq<u8>>,
    alphabet: Seq<u8>,
    salt: Seq<u8>,
)
    requires
        alphabet.no_duplicates(),
        alphabet.len() >= 16,
        (match separators {
            None => spec_default_separators(),
            Some(s) => s,
        }).no_duplicates(),
    ensures
        ({
            let derived = spec_alphabet_and_separators(separators, alphabet, salt);
            &&& derived.0.no_duplicates()
            &&& derived.1.no_duplicates()
            &&& (forall|i: int|
                0 <= i < derived.0.len() ==> alphabet.contains(#[trigger] derived.0[i]))
            &&& (forall|i: int|
                0 <= i < derived.1.len() ==> alphabet.contains(#[trigger] derived.1[i]))
            &&& crate::harsh::disjoint_bytes(derived.0, derived.1)
            &&& derived.1.len() >= 1
            &&& derived.0.len() + derived.1.len() >= 16
        }),
{
    broadcast use {
        Seq::lemma_filter_pred,
        Seq::lemma_filter_contains_rev,
        Seq::lemma_filter_len,
        vstd::seq_lib::to_multiset_len,
        vstd::seq_lib::to_multiset_contains,
    };

    let source = match separators {
        None => spec_default_separators(),
        Some(s) => s,
    };
    let seps1 = source.filter(in_set(alphabet));
    let alpha1 = alphabet.filter(not_in_set(seps1));
    let seps2 = spec_shuffle(seps1, salt);
    crate::shuffle::lemma_shuffle_permutes(seps1, salt);
    lemma_filter_no_dup(source, in_set(alphabet));
    lemma_filter_no_dup(alphabet, not_in_set(seps1));
    seps1.lemma_multiset_has_no_duplicates();
    seps2.lemma_multiset_has_no_duplicates_conv();
    // every byte of both candidate sets occurs in the alphabet
    assert forall|i: int| 0 <= i < seps2.len() implies alphabet.contains(#[trigger] seps2[i]) by {
        assert(seps2.contains(seps2[i]));
        assert(seps1.contains(seps2[i]));
        assert(in_set(alphabet)(seps2[i]));
    }
    assert forall|i: int| 0 <= i < alpha1.len() implies alphabet.contains(
        #[trigger] alpha1[i],
    ) by {
        assert(alpha1.contains(alpha1[i]));
        assert(alphabet.contains(alpha1[i]));
    }
    // the two partitions cover the alphabet
    let dropped = alphabet.filter(in_set(seps1));
    assert forall|x: u8| #[trigger] in_set(seps1)(x) == !not_in_set(seps1)(x) by {}
    lemma_filter_split_len(alphabet, in_set(seps1), not_in_set(seps1));
    lemma_filter_no_dup(alphabet, in_set(seps1));
    assert forall|i: int| 0 <= i < dropped.len() implies seps1.contains(#[trigger] dropped[i]) by {
        assert(in_set(seps1)(dropped[i]));
    }
    lemma_no_dup_members_bound(dropped, seps1);
    assert(alpha1.len() + seps1.len() >= alphabet.len());
    // disjointness of the pre-rebalance sets
    assert(crate::harsh::disjoint_bytes(alpha1, seps2)) by {
        assert forall|x: u8| #[trigger] alpha1.contains(x) implies !seps2.contains(x) by {
            if seps2.contains(x) {
                assert(seps1.contains(x));
                let w = choose|w: int| 0 <= w < alpha1.len() && alpha1[w] == x;
                assert(not_in_set(seps1)(alpha1[w]));
            }
        }
    }
    let rebalance = seps2.len() == 0 || 2 * alpha1.len() > 7 * seps2.len();
    if rebalance {
        if seps1.len() == 0 {
            assert forall|i: int|
                0 <= i < alphabet.len() implies not_in_set(seps1)(#[trigger] alphabet[i]) by {}
            lemma_filter_all_true(alphabet, not_in_set(seps1));
            assert(alpha1.len() >= 16);
        } else {
            assert(2 * alpha1.len() > 7 * seps1.len() >= 7);
            assert(alpha1.len() >= 4);
        }
        let c = (2 * alpha1.len() + 6) / 7;
        let length: int = if c == 1 {
            2
        } else {
            c as int
        };
        assert(2 <= length <= alpha1.len());
        if length > seps2.len() {
            let diff = length - seps2.len();
            let moved = alpha1.take(diff);
            let kept = alpha1.skip(diff);
            assert forall|i: int, j: int|
                0 <= i < kept.len() && 0 <= j < kept.len() && i != j implies kept[i] != kept[j] by {
                assert(kept[i] == alpha1[diff + i]);
                assert(kept[j] == alpha1[diff + j]);
            }
            assert forall|i: int, j: int|
                0 <= i < moved.len() && 0 <= j < moved.len() && i != j implies moved[i]
                != moved[j] by {
                assert(moved[i] == alpha1[i]);
                assert(moved[j] == alpha1[j]);
            }
            let seps3 = seps2 + moved;
            assert forall|i: int, j: int|
                0 <= i < seps3.len() && 0 <= j < seps3.len() && i != j implies seps3[i]
                != seps3[j] by {
                if i < seps2.len() && j < seps2.len() {
                } else if i >= seps2.len() && j >= seps2.len() {
                    assert(seps3[i] == alpha1[i - seps2.len()]);
                    assert(seps3[j] == alpha1[j - seps2.len()]);
                } else if i < seps2.len() && j >= seps2.len() {
                    assert(seps3[j] == alpha1[j - seps2.len()]);
                    assert(alpha1.contains(alpha1[j - seps2.len()]));
                    assert(seps3[i] == seps2[i]);
                    assert(seps2.contains(seps2[i]));
                } else {
                    assert(seps3[i] == alpha1[i - seps2.len()]);
                    assert(alpha1.contains(alpha1[i - seps2.len()]));
                    assert(seps3[j] == seps2[j]);
                    assert(seps2.contains(seps2[j]));
                }
            }
            assert(seps3.no_duplicates());
            assert(kept.no_duplicates());
            assert forall|x: u8| #[trigger] kept.contains(x) implies !seps3.contains(x) by {
                let w = choose|w: int| 0 <= w < kept.len() && kept[w] == x;
                assert(kept[w] == alpha1[diff + w]);
                if seps3.contains(x) {
                    let v = choose|v: int| 0 <= v < seps3.len() && seps3[v] == x;
                    if v < seps2.len() {
                        assert(seps2.contains(x));
                        assert(alpha1.contains(x));
                    } else {
                        assert(seps3[v] == alpha1[v - seps2.len()]);
                        assert(alpha1[v - seps2.len()] == alpha1[diff + w]);
                        assert(v - seps2.len() < diff <= diff + w);
                    }
                }
            }
            assert forall|i: int| 0 <= i < kept.len() implies alphabet.contains(
                #[trigger] kept[i],
            ) by {
                assert(kept[i] == alpha1[diff + i]);
            }
            assert forall|i: int| 0 <= i < seps3.len() implies alphabet.contains(
                #[trigger] seps3[i],
            ) by {
                if i < seps2.len() {
                    assert(seps3[i] == seps2[i]);
                } else {
                    assert(seps3[i] == alpha1[i - seps2.len()]);
                }
            }
            let final_alpha = spec_shuffle(kept, salt);
            crate::shuffle::lemma_shuffle_permutes(kept, salt);
            kept.lemma_multiset_has_no_duplicates();
            final_alpha.lemma_multiset_has_no_duplicates_conv();
            assert forall|i: int| 0 <= i < final_alpha.len() implies alphabet.contains(
                #[trigger] final_alpha[i],
            ) by {
                assert(final_alpha.contains(final_alpha[i]));
                assert(kept.contains(final_alpha[i]));
                let w = choose|w: int| 0 <= w < kept.len() && kept[w] == final_alpha[i];
            }
            assert forall|x: u8| #[trigger] final_alpha.contains(x) implies !seps3.contains(
                x,
            ) by {
                assert(kept.contains(x));
            }
        } else {
            let seps3 = seps2.take(length);
            assert forall|i: int, j: int|
                0 <= i < seps3.len() && 0 <= j < seps3.len() && i != j implies seps3[i]
                != seps3[j] by {
                assert(seps3[i] == seps2[i]);
                assert(seps3[j] == seps2[j]);
            }
            assert forall|i: int| 0 <= i < seps3.len() implies alphabet.contains(
                #[trigger] seps3[i],
            ) by {
                assert(seps3[i] == seps2[i]);
            }
            assert forall|x: u8| #[trigger] seps3.contains(x) implies seps2.contains(x) by {
                let w = choose|w: int| 0 <= w < seps3.len() && seps3[w] == x;
                assert(seps2[w] == x);
            }
            let final_alpha = spec_shuffle(alpha1, salt);
            crate::shuffle::lemma_shuffle_permutes(alpha1, salt);
            alpha1.lemma_multiset_has_no_duplicates();
            final_alpha.lemma_multiset_has_no_duplicates_conv();
            assert forall|i: int| 0 <= i < final_alpha.len() implies alphabet.contains(
                #[trigger] final_alpha[i],
            ) by {
                assert(final_alpha.contains(final_alpha[i]));
                assert(alpha1.contains(final_alpha[i]));
                let w = choose|w: int| 0 <= w < alpha1.len() && alpha1[w] == final_alpha[i];
            }
            assert forall|x: u8| #[trigger] final_alpha.contains(x) implies !seps3.contains(
                x,
            ) by {
                assert(alpha1.contains(x));
            }
        }
    } else {
        let final_alpha = spec_shuffle(alpha1, salt);
        crate::shuffle::lemma_shuffle_permutes(alpha1, salt);
        alpha1.lemma_multiset_has_no_duplicates();
        final_alpha.lemma_multiset_has_no_duplicates_conv();
        assert forall|i: int| 0 <= i < final_alpha.len() implies alphabet.contains(
            #[trigger] final_alpha[i],
        ) by {
            assert(final_alpha.contains(final_alpha[i]));
            assert(alpha1.contains(final_alpha[i]));
            let w = choose|w: int| 0 <= w < alpha1.len() && alpha1[w] == final_alpha[i];
        }
        assert forall|x: u8| #[trigger] final_alpha.contains(x) implies !seps2.contains(x) by {
            assert(alpha1.contains(x));
        }
    }
}

/// What the guard derivation yields: `(alphabet, separators, guards)`, the
/// guards drained from the separators' front when the alphabet has shrunk
/// below three bytes, otherwise from the alphabet's front.
pub open spec fn spec_guards(alphabet: Seq<u8>, separators: Seq<u8>) -> (Seq<u8>, Seq<u8>, Seq<u8>) {
    let guard_count = (alphabet.len() + 11) / 12;
    if alphabet.len() < 3 {
        (alphabet, separators.skip(guard_count as int), separators.take(guard_count as int))
    } else {
        (alphabet.skip(guard_count as int), separators, alphabet.take(guard_count as int))
    }
}

/// Drains the guard set out of the alphabet (or, for a degenerately small
/// alphabet, out of the separators) and returns it.
pub(crate) fn guards(alphabet: &mut Vec<u8>, separators: &mut Vec<u8>) -> (r: Vec<u8>)
    requires
        old(alphabet)@.len() < 3 ==> (old(alphabet)@.len() + 11) / 12 <= old(separators)@.len(),
    ensures
        (final(alphabet)@, final(separators)@, r@) == spec_guards(
            old(alphabet)@,
            old(separators)@,
        ),
{
    let len = alphabet.len();
    let guard_count = len / 12 + if len % 12 == 0 {
        0
    } else {
        1
    };
    proof {
        assert(guard_count == (len + 11) / 12);
    }
    if len < 3 {
        take_front(separators, guard_count)
    } else {
        proof {
            assert(guard_count <= len);
        }
        take_front(alphabet, guard_count)
    }
}

/// The view of a [`HarshBuilder`]: the caller-supplied options, each still
/// optional.
pub struct BuilderView {
    pub salt: Option<Seq<u8>>,
    pub alphabet: Option<Seq<u8>>,
    pub separators: Option<Seq<u8>>,
    pub hash_length: int,
}

/// What building derives from the supplied options: either a complete
/// configuration or the error that the alphabet validation raises.
pub open spec fn spec_build(b: BuilderView) -> Result<HarshView, BuildHarshError> {
    match spec_unique_alphabet(b.alphabet) {
        Err(e) => Err(e),
        Ok(alpha) => {
            if alpha.len() < 16 {
                Err(BuildHarshError::AlphabetLength)
            } else {
                let salt = match b.salt {
                    None => Seq::<u8>::empty(),
                    Some(s) => s,
                };
                let derived = spec_alphabet_and_separators(b.separators, alpha, salt);
                let carved = spec_guards(derived.0, derived.1);
                Ok(
                    HarshView {
                        alphabet: carved.0,
                        guards: carved.2,
                        hash_length: b.hash_length,
                        salt: salt,
                        separators: carved.1,
                    },
                )
            }
        },
    }
}

/// The default candidate sets hold no duplicates and only printable ASCII,
/// and every default separator occurs in the default alphabet.
proof fn lemma_default_sets_facts()
    ensures
        spec_default_alphabet().len() == 62,
        spec_default_separators().len() == 14,
        spec_default_alphabet().no_duplicates(),
        spec_default_separators().no_duplicates(),
        forall|i: int|
            0 <= i < spec_default_alphabet().len() ==> 0 < #[trigger] spec_default_alphabet()[i]
                < 128,
        forall|i: int|
            0 <= i < spec_default_separators().len() ==> spec_default_alphabet().contains(
                #[trigger] spec_default_separators()[i],
            ),
{
    reveal_strlit("abcdefghijklmnopqrstuvwxyzABCDEFGHIJKLMNOPQRSTUVWXYZ1234567890");
    reveal_strlit("cfhistuCFHISTU");
    assert forall|i: int|
        0 <= i < spec_default_separators().len() implies spec_default_alphabet().contains(
        #[trigger] spec_default_separators()[i],
    ) by {
        let b = spec_default_separators()[i];
        if b == 99 {
            assert(spec_default_alphabet()[2] == 99);
        } else if b == 102 {
            assert(spec_default_alphabet()[5] == 102);
        } else if b == 104 {
            assert(spec_default_alphabet()[7] == 104);
        } else if b == 105 {
            assert(spec_default_alphabet()[8] == 105);
        } else if b == 115 {
            assert(spec_default_alphabet()[18] == 115);
        } else if b == 116 {
            assert(spec_default_alphabet()[19] == 116);
        } else if b == 117 {
            assert(spec_default_alphabet()[20] == 117);
        } else if b == 67 {
            assert(spec_default_alphabet()[28] == 67);
        } else if b == 70 {
            assert(spec_default_alphabet()[31] == 70);
        } else if b == 72 {
            assert(spec_default_alphabet()[33] == 72);
        } else if b == 73 {
            assert(spec_default_alphabet()[34] == 73);
        } else if b == 83 {
            assert(spec_default_alphabet()[44] == 83);
        } else if b == 84 {
            assert(spec_default_alphabet()[45] == 84);
        } else {
            assert(b == 85);
            assert(spec_default_alphabet()[46] == 85);
        }
    }
}

/// Deduplicating a sequence that has no duplicates leaves it unchanged.
proof fn lemma_dedup_identity(s: Seq<u8>)
    requires
        s.no_duplicates(),
    ensures
        spec_dedup(s) == s,
    decreases s.len(),
{
    if s.len() == 0 {
        assert(spec_dedup(s) =~= s);
    } else {
        assert forall|i: int, j: int|
            0 <= i < s.drop_last().len() && 0 <= j < s.drop_last().len() && i
                != j implies s.drop_last()[i] != s.drop_last()[j] by {
            assert(s[i] == s.drop_last()[i]);
        }
        lemma_dedup_identity(s.drop_last());
        if s.drop_last().contains(s.last()) {
            let w = choose|w: int| 0 <= w < s.drop_last().len() && s.drop_last()[w] == s.last();
            assert(s[w] == s[s.len() - 1]);
        }
        assert(spec_dedup(s) =~= s);
    }
}

/// Building from the default options always succeeds and yields a
/// well-formed configuration.
pub proof fn lemma_default_build_ok(b: BuilderView)
    requires
        b.alphabet is None,
        b.separators is None,
        b.salt is None,
        b.hash_length >= 0,
    ensures
        spec_build(b) is Ok,
        (spec_build(b)->Ok_0).wf(),
{
    broadcast use {Seq::lemma_filter_contains, Seq::lemma_filter_len};

    lemma_default_sets_facts();
    let alpha0 = spec_dedup(spec_default_alphabet());
    lemma_dedup_identity(spec_default_alphabet());
    assert(alpha0 == spec_default_alphabet());
    assert(alpha0.len() == 62);
    let salt = Seq::<u8>::empty();
    let seps_source = spec_default_separators();
    assert forall|i: int|
        0 <= i < seps_source.len() implies in_set(alpha0)(#[trigger] seps_source[i]) by {}
    lemma_filter_all_true(seps_source, in_set(alpha0));
    let seps1 = seps_source.filter(in_set(alpha0));
    assert(seps1 == seps_source);
    assert(seps1.len() == 14);
    let alpha1 = alpha0.filter(not_in_set(seps1));
    let dropped = alpha0.filter(in_set(seps1));
    assert forall|x: u8| #[trigger] in_set(seps1)(x) == !not_in_set(seps1)(x) by {}
    lemma_filter_split_len(alpha0, in_set(seps1), not_in_set(seps1));
    lemma_filter_no_dup(alpha0, in_set(seps1));
    assert forall|i: int| 0 <= i < dropped.len() implies seps1.contains(#[trigger] dropped[i]) by {
        Seq::lemma_filter_pred(alpha0, in_set(seps1), i);
    }
    lemma_no_dup_members_bound(dropped, seps1);
    assert forall|i: int| 0 <= i < seps1.len() implies dropped.contains(#[trigger] seps1[i]) by {
        assert(alpha0.contains(seps1[i]));
        let w = choose|w: int| 0 <= w < alpha0.len() && alpha0[w] == seps1[i];
        assert(in_set(seps1)(alpha0[w]));
        assert(dropped.contains(alpha0[w]));
    }
    lemma_no_dup_members_bound(seps1, dropped);
    assert(dropped.len() == 14);
    assert(alpha1.len() == 48);
    let seps2 = spec_shuffle(seps1, salt);
    assert(seps2 == seps1);
    assert(!(seps2.len() == 0 || 2 * alpha1.len() > 7 * seps2.len()));
    let derived = spec_alphabet_and_separators(None, alpha0, salt);
    assert(derived.0 == spec_shuffle(alpha1, salt));
    assert(derived.0 == alpha1);
    assert(derived.0.len() == 48);
    let carved = spec_guards(derived.0, derived.1);
    assert(carved.0 == derived.0.skip(4));
    assert(carved.0.len() == 44);
    assert(spec_build(b) is Ok);
    assert((spec_build(b)->Ok_0).alphabet == carved.0);
    lemma_build_wf(b);
}

/// Every successful build whose inputs are clean — a printable-ASCII
/// alphabet, duplicate-free separator candidates — and whose derived
/// alphabet keeps at least two bytes yields a well-formed configuration:
/// exactly the configurations the encode and decode contracts and the laws
/// speak about.
pub proof fn lemma_build_wf(b: BuilderView)
    requires
        spec_build(b) is Ok,
        b.hash_length >= 0,
        (match b.alphabet {
            None => true,
            Some(a) => forall|i: int| 0 <= i < a.len() ==> 0 < #[trigger] a[i] < 128,
        }),
        (match b.separators {
            None => true,
            Some(s) => s.no_duplicates(),
        }),
        (spec_build(b)->Ok_0).alphabet.len() >= 2,
    ensures
        (spec_build(b)->Ok_0).wf(),
{
    lemma_default_sets_facts();
    let alpha0 = spec_unique_alphabet(b.alphabet)->Ok_0;
    match b.alphabet {
        None => {
            lemma_dedup_properties(spec_default_alphabet());
            assert forall|i: int| 0 <= i < alpha0.len() implies 0 < #[trigger] alpha0[i]
                < 128 by {
                assert(alpha0.contains(alpha0[i]));
                assert(spec_default_alphabet().contains(alpha0[i]));
                let w = choose|w: int|
                    0 <= w < spec_default_alphabet().len() && spec_default_alphabet()[w]
                        == alpha0[i];
            }
        },
        Some(a) => {
            lemma_dedup_properties(a);
            assert forall|i: int| 0 <= i < alpha0.len() implies 0 < #[trigger] alpha0[i]
                < 128 by {
                assert(alpha0.contains(alpha0[i]));
                assert(a.contains(alpha0[i]));
                let w = choose|w: int| 0 <= w < a.len() && a[w] == alpha0[i];
            }
        },
    }
    assert(alpha0.no_duplicates());
    assert(alpha0.len() >= 16);
    let salt = match b.salt {
        None => Seq::<u8>::empty(),
        Some(s) => s,
    };
    lemma_alphabet_and_separators_wf(b.separators, alpha0, salt);
    let derived = spec_alphabet_and_separators(b.separators, alpha0, salt);
    let carved = spec_guards(derived.0, derived.1);
    let h = spec_build(b)->Ok_0;
    assert(h.alphabet == carved.0);
    assert(h.separators == carved.1);
    assert(h.guards == carved.2);
    assert forall|i: int| 0 <= i < derived.0.len() implies 0 < #[trigger] derived.0[i] < 128 by {
        assert(alpha0.contains(derived.0[i]));
        let w = choose|w: int| 0 <= w < alpha0.len() && alpha0[w] == derived.0[i];
    }
    assert forall|i: int| 0 <= i < derived.1.len() implies 0 < #[trigger] derived.1[i] < 128 by {
        assert(alpha0.contains(derived.1[i]));
        let w = choose|w: int| 0 <= w < alpha0.len() && alpha0[w] == derived.1[i];
    }
    let guard_count = (derived.0.len() + 11) / 12;
    if derived.0.len() < 3 {
        assert(carved.0 == derived.0);
        assert(derived.0.len() == 2);
        assert(guard_count == 1);
        assert(derived.1.len() >= 14);
        let guards = derived.1.take(1);
        let seps = derived.1.skip(1);
        assert(carved.1 == seps);
        assert(carved.2 == guards);
        assert(guards.len() == 1 && seps.len() >= 13);
        assert forall|i: int| 0 <= i < seps.len() implies 0 < #[trigger] seps[i] < 128 by {
            assert(seps[i] == derived.1[1 + i]);
        }
        assert forall|i: int| 0 <= i < guards.len() implies 0 < #[trigger] guards[i] < 128 by {
            assert(guards[i] == derived.1[i]);
        }
        assert(crate::harsh::disjoint_bytes(carved.0, carved.1)) by {
            assert forall|x: u8| #[trigger] carved.0.contains(x) implies !carved.1.contains(
                x,
            ) by {
                if carved.1.contains(x) {
                    let w = choose|w: int| 0 <= w < seps.len() && seps[w] == x;
                    assert(derived.1[1 + w] == x);
                    assert(derived.1.contains(x));
                }
            }
        }
        assert(crate::harsh::disjoint_bytes(carved.0, carved.2)) by {
            assert forall|x: u8| #[trigger] carved.0.contains(x) implies !carved.2.contains(
                x,
            ) by {
                if carved.2.contains(x) {
                    let w = choose|w: int| 0 <= w < guards.len() && guards[w] == x;
                    assert(derived.1[w] == x);
                    assert(derived.1.contains(x));
                }
            }
        }
        assert(crate::harsh::disjoint_bytes(carved.1, carved.2)) by {
            assert forall|x: u8| #[trigger] carved.1.contains(x) implies !carved.2.contains(
                x,
            ) by {
                let w = choose|w: int| 0 <= w < seps.len() && seps[w] == x;
                assert(derived.1[1 + w] == x);
                if carved.2.contains(x) {
                    let v = choose|v: int| 0 <= v < guards.len() && guards[v] == x;
                    assert(derived.1[v] == x);
                    assert(v == 0 && 1 + w >= 1);
                }
            }
        }
    } else {
        assert(1 <= guard_count <= derived.0.len());
        let alpha = derived.0.skip(guard_count as int);
        let guards = derived.0.take(guard_count as int);
        assert(carved.0 == alpha);
        assert(carved.1 == derived.1);
        assert(carved.2 == guards);
        assert(guards.len() >= 1);
        assert forall|i: int, j: int|
            0 <= i < alpha.len() && 0 <= j < alpha.len() && i != j implies alpha[i] != alpha[j] by {
            assert(alpha[i] == derived.0[guard_count + i]);
            assert(alpha[j] == derived.0[guard_count + j]);
        }
        assert forall|i: int| 0 <= i < alpha.len() implies 0 < #[trigger] alpha[i] < 128 by {
            assert(alpha[i] == derived.0[guard_count + i]);
        }
        assert forall|i: int| 0 <= i < guards.len() implies 0 < #[trigger] guards[i] < 128 by {
            assert(guards[i] == derived.0[i]);
        }
        assert(crate::harsh::disjoint_bytes(carved.0, carved.1)) by {
            assert forall|x: u8| #[trigger] carved.0.contains(x) implies !carved.1.contains(
                x,
            ) by {
                let w = choose|w: int| 0 <= w < alpha.len() && alpha[w] == x;
                assert(derived.0[guard_count + w] == x);
                assert(derived.0.contains(x));
            }
        }
        assert(crate::harsh::disjoint_bytes(carved.0, carved.2)) by {
            assert forall|x: u8| #[trigger] carved.0.contains(x) implies !carved.2.contains(
                x,
            ) by {
                let w = choose|w: int| 0 <= w < alpha.len() && alpha[w] == x;
                assert(derived.0[guard_count + w] == x);
                if carved.2.contains(x) {
                    let v = choose|v: int| 0 <= v < guards.len() && guards[v] == x;
                    assert(derived.0[v] == x);
                    assert(v < guard_count <= guard_count + w);
                }
            }
        }
        assert(crate::harsh::disjoint_bytes(carved.1, carved.2)) by {
            assert forall|x: u8| #[trigger] carved.1.contains(x) implies !carved.2.contains(
                x,
            ) by {
                if carved.2.contains(x) {
                    let v = choose|v: int| 0 <= v < guards.len() && guards[v] == x;
                    assert(derived.0[v] == x);
                    assert(derived.0.contains(x));
                    assert(!derived.1.contains(x));
                }
            }
        }
    }
}

/// A builder used to configure and create a [`Harsh`] instance.
#[derive(Debug)]
pub struct HarshBuilder {
    salt: Option<Vec<u8>>,
    alphabet: Option<Vec<u8>>,
    separators: Option<Vec<u8>>,
    hash_length: usize,
}

impl View for HarshBuilder {
    type V = BuilderView;

    closed spec fn view(&self) -> BuilderView {
        BuilderView {
            salt: opt_view(self.salt),
            alphabet: opt_view(self.alphabet),
            separators: opt_view(self.separators),
            hash_length: self.hash_length as int,
        }
    }
}

impl HarshBuilder {
    /// Creates a new `HarshBuilder` with no salt, the default alphabet and
    /// separators, and no minimum length.
    pub fn new() -> (r: HarshBuilder)
        ensures
            r@ == (BuilderView {
                salt: None,
                alphabet: None,
                separators: None,
                hash_length: 0,
            }),
    {
        HarshBuilder { salt: None, alphabet: None, separators: None, hash_length: 0 }
    }

    /// Provides a salt.  The string's UTF-8 bytes key every shuffle, so
    /// multi-byte characters are best avoided.
    pub fn salt(self, salt: &str) -> (r: HarshBuilder)
        ensures
            r@ == (BuilderView { salt: Some(salt.spec_bytes()), ..self@ }),
    {
        HarshBuilder {
            salt: Some(salt.as_bytes_vec()),
            alphabet: self.alphabet,
            separators: self.separators,
            hash_length: self.hash_length,
        }
    }

    /// Provides an alphabet, as the string's UTF-8 bytes.
    pub fn alphabet(self, alphabet: &str) -> (r: HarshBuilder)
        ensures
            r@ == (BuilderView { alphabet: Some(alphabet.spec_bytes()), ..self@ }),
    {
        HarshBuilder {
            salt: self.salt,
            alphabet: Some(alphabet.as_bytes_vec()),
            separators: self.separators,
            hash_length: self.hash_length,
        }
    }

    /// Provides a set of separator candidates, as the string's UTF-8 bytes.
    pub fn separators(self, separators: &str) -> (r: HarshBuilder)
        ensures
            r@ == (BuilderView { separators: Some(separators.spec_bytes()), ..self@ }),
    {
        HarshBuilder {
            salt: self.salt,
            alphabet: self.alphabet,
            separators: Some(separators.as_bytes_vec()),
            hash_length: self.hash_length,
        }
    }

    /// Provides a minimum hash length; hashids shorter than this are padded.
    pub fn length(self, hash_length: usize) -> (r: HarshBuilder)
        ensures
            r@ == (BuilderView { hash_length: hash_length as int, ..self@ }),
    {
        HarshBuilder {
            salt: self.salt,
            alphabet: self.alphabet,
            separators: self.separators,
            hash_length,
        }
    }

    /// Initializes a new [`Harsh`] from the collected options, consuming the
    /// builder.  Fails exactly when the alphabet validation fails: a space
    /// byte in a caller alphabet, or fewer than sixteen distinct bytes.
    pub fn build(self) -> (r: Result<Harsh, BuildHarshError>)
        ensures
            r matches Ok(h) ==> spec_build(self@) == Ok::<HarshView, BuildHarshError>(h@),
            r matches Err(e) ==> spec_build(self@) == Err::<HarshView, BuildHarshError>(e),
    {
        let alphabet = match unique_alphabet(&self.alphabet) {
            Ok(a) => a,
            Err(e) => {
                return Err(e);
            },
        };
        if alphabet.len() < 16 {
            return Err(BuildHarshError::AlphabetLength);
        }
        let salt = match self.salt {
            Some(s) => s,
            None => Vec::new(),
        };
        let derived = alphabet_and_separators(&self.separators, alphabet.as_slice(),
            salt.as_slice());
        let mut alpha = derived.0;
        let mut seps = derived.1;
        let guard_set = guards(&mut alpha, &mut seps);
        Ok(Harsh::initialize(alpha, guard_set, self.hash_length, salt, seps))
    }
}

} // verus!
