//! The deterministic, salt-keyed shuffle that underlies alphabet derivation
//! and per-value alphabet rotation.
//!
//! The permutation is a pure function of the byte sequence and the salt:
//! index `i` runs from `len - 1` down to `1`, and at each step a byte drawn
//! by cycling through the salt, together with a running sum, selects the swap
//! partner `j < i`.  An empty salt leaves the sequence untouched.

use vstd::multiset::Multiset;
use vstd::prelude::*;
use vstd::seq_lib::*;

verus! {

/// The swaps still to be performed, from index `i` down to `1`, with `v` the
/// cursor into the salt and `p` the running sum of salt bytes drawn so far.
pub open spec fn shuffle_swaps(values: Seq<u8>, salt: Seq<u8>, i: int, v: int, p: int) -> Seq<u8>
    recommends
        salt.len() > 0,
        i < values.len(),
    decreases i,
{
    if i <= 0 {
        values
    } else {
        let vw = v % (salt.len() as int);
        let n = salt[vw] as int;
        let pn = p + n;
        let j = (n + vw + pn) % i;
        shuffle_swaps(values.update(i, values[j]).update(j, values[i]), salt, i - 1, vw + 1, pn)
    }
}

/// What shuffling `values` with `salt` yields.
pub open spec fn spec_shuffle(values: Seq<u8>, salt: Seq<u8>) -> Seq<u8> {
    if salt.len() == 0 {
        values
    } else {
        shuffle_swaps(values, salt, values.len() - 1, 0, 0)
    }
}

pub proof fn lemma_shuffle_swaps_multiset(values: Seq<u8>, salt: Seq<u8>, i: int, v: int, p: int)
    requires
        salt.len() > 0,
        i < values.len(),
    ensures
        shuffle_swaps(values, salt, i, v, p).to_multiset() == values.to_multiset(),
        shuffle_swaps(values, salt, i, v, p).len() == values.len(),
    decreases i,
{
    broadcast use {to_multiset_update, lemma_update_is_remove_insert, to_multiset_len, to_multiset_contains};

    if i <= 0 {
    } else {
        let vw = v % (salt.len() as int);
        let n = salt[vw] as int;
        let pn = p + n;
        let j = (n + vw + pn) % i;
        let swapped = values.update(i, values[j]).update(j, values[i]);
        assert(swapped.to_multiset() == values.to_multiset()) by {
            assert(0 <= j < i);
            assert(values.update(i, values[j]).to_multiset() == values.to_multiset().remove(
                values[i],
            ).insert(values[j]));
            assert(values.update(i, values[j])[j] == values[j]);
            assert(swapped.to_multiset() == values.update(i, values[j]).to_multiset().remove(
                values[j],
            ).insert(values[i]));
            assert(values.to_multiset().contains(values[i]));
            lemma_swap_multisets(values.to_multiset(), values[i], values[j]);
        }
        lemma_shuffle_swaps_multiset(swapped, salt, i - 1, vw + 1, pn);
    }
}

/// Removing `a` and inserting `b`, then removing `b` and inserting `a`,
/// restores the original multiset.
proof fn lemma_swap_multisets(m: Multiset<u8>, a: u8, b: u8)
    requires
        m.contains(a),
    ensures
        m.remove(a).insert(b).remove(b).insert(a) == m,
{
    let n = m.remove(a).insert(b).remove(b).insert(a);
    assert forall|x: u8| n.count(x) == m.count(x) by {}
    assert(n =~= m);
}

/// A salt-keyed shuffle is a permutation: it keeps the multiset of bytes
/// (hence the length, the membership and, for duplicate-free input, the
/// absence of duplicates).
pub proof fn lemma_shuffle_permutes(values: Seq<u8>, salt: Seq<u8>)
    ensures
        spec_shuffle(values, salt).to_multiset() == values.to_multiset(),
        spec_shuffle(values, salt).len() == values.len(),
        forall|b: u8| spec_shuffle(values, salt).contains(b) == values.contains(b),
        values.no_duplicates() ==> spec_shuffle(values, salt).no_duplicates(),
{
    broadcast use {to_multiset_len, to_multiset_contains};

    if salt.len() == 0 {
    } else if values.len() == 0 {
        assert(spec_shuffle(values, salt) == values);
    } else {
        lemma_shuffle_swaps_multiset(values, salt, values.len() - 1, 0, 0);
    }
    let shuffled = spec_shuffle(values, salt);
    assert forall|b: u8| shuffled.contains(b) == values.contains(b) by {
        assert(shuffled.to_multiset().count(b) == values.to_multiset().count(b));
    }
    if values.no_duplicates() {
        values.lemma_multiset_has_no_duplicates();
        shuffled.lemma_multiset_has_no_duplicates_conv();
    }
}

/// Shuffling with an empty salt is the identity.
pub proof fn lemma_shuffle_empty_salt(values: Seq<u8>)
    ensures
        spec_shuffle(values, Seq::<u8>::empty()) == values,
{
}

/// Permutes `values` in place, driven by `salt`.  The result is a pure
/// function of the two inputs; an empty salt performs no swaps at all.
pub fn shuffle(values: &mut Vec<u8>, salt: &[u8])
    ensures
        final(values)@ == spec_shuffle(old(values)@, salt@),
        final(values)@.len() == old(values)@.len(),
{
    if salt.len() == 0 {
        return ;
    }
    let values_length = values.len();
    if values_length == 0 {
        return ;
    }
    let salt_length = salt.len();
    let mut v: usize = 0;
    let mut p: u128 = 0;
    let mut i: usize = values_length - 1;
    while i >= 1
        invariant
            salt_length == salt@.len(),
            salt_length > 0,
            values@.len() == old(values)@.len(),
            values_length == values@.len(),
            0 <= i < values_length,
            p <= 255u128 * ((values_length - 1 - i) as u128),
            spec_shuffle(old(values)@, salt@) == shuffle_swaps(
                values@,
                salt@,
                i as int,
                v as int,
                p as int,
            ),
        decreases i,
    {
        v = v % salt_length;
        let n = salt[v];
        let ghost pre_p = p;
        p = p + n as u128;
        let j = (((n as u128) + (v as u128) + p) % (i as u128)) as usize;
        proof {
            assert(j == (n as int + v as int + (pre_p + n) as int) % (i as int)) by {
                assert(((n as u128) + (v as u128) + p) as int == n as int + v as int + (pre_p
                    + n) as int);
            }
            assert(0 <= j < i);
        }
        let tmp_i = values[i];
        let tmp_j = values[j];
        values[i] = tmp_j;
        values[j] = tmp_i;
        i = i - 1;
        v = v + 1;
    }
}

} // verus!
