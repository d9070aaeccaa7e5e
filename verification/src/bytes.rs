//! Small executable helpers over byte buffers that the builder and the codec
//! share: membership tests, first-occurrence search, and prefix extraction.

use vstd::prelude::*;

verus! {

/// The first index at which `needle` occurs in `haystack`, if any.
pub open spec fn spec_position(haystack: Seq<u8>, needle: u8) -> Option<int>
    decreases haystack.len(),
{
    if haystack.len() == 0 {
        None
    } else if haystack[0] == needle {
        Some(0int)
    } else {
        match spec_position(haystack.drop_first(), needle) {
            None => None,
            Some(i) => Some(i + 1),
        }
    }
}

/// A found position is in range, holds the needle, and nothing before it does.
pub proof fn lemma_position_properties(haystack: Seq<u8>, needle: u8)
    ensures
        spec_position(haystack, needle) is Some <==> haystack.contains(needle),
        spec_position(haystack, needle) matches Some(i) ==> 0 <= i < haystack.len()
            && haystack[i] == needle && (forall|k: int| 0 <= k < i ==> haystack[k] != needle),
    decreases haystack.len(),
{
    if haystack.len() == 0 {
    } else if haystack[0] == needle {
    } else {
        lemma_position_properties(haystack.drop_first(), needle);
        if haystack.contains(needle) {
            let w = choose|w: int| 0 <= w < haystack.len() && haystack[w] == needle;
            assert(haystack.drop_first()[w - 1] == needle);
        }
        match spec_position(haystack.drop_first(), needle) {
            None => {},
            Some(ip) => {
                assert(haystack[ip + 1] == haystack.drop_first()[ip]);
                assert forall|k: int| 0 <= k < ip + 1 implies haystack[k] != needle by {
                    if k >= 1 {
                        assert(haystack.drop_first()[k - 1] == haystack[k]);
                    }
                }
            },
        }
    }
}

/// Whether `needle` occurs in `haystack`.
pub fn contains_byte(haystack: &[u8], needle: u8) -> (r: bool)
    ensures
        r == haystack@.contains(needle),
{
    let n = haystack.len();
    let mut idx: usize = 0;
    while idx < n
        invariant
            n == haystack@.len(),
            0 <= idx <= n,
            forall|k: int| 0 <= k < idx ==> haystack@[k] != needle,
        decreases n - idx,
    {
        if haystack[idx] == needle {
            assert(haystack@[idx as int] == needle);
            return true;
        }
        idx = idx + 1;
    }
    false
}

/// The first position of `needle` in `haystack`, scanning from the front.
pub fn position_of_byte(haystack: &[u8], needle: u8) -> (r: Option<usize>)
    ensures
        r matches Some(i) ==> spec_position(haystack@, needle) == Some(i as int),
        r is None ==> spec_position(haystack@, needle) is None,
{
    proof {
        lemma_position_properties(haystack@, needle);
    }
    let n = haystack.len();
    let mut idx: usize = 0;
    while idx < n
        invariant
            n == haystack@.len(),
            0 <= idx <= n,
            forall|k: int| 0 <= k < idx ==> haystack@[k] != needle,
        decreases n - idx,
    {
        if haystack[idx] == needle {
            proof {
                lemma_position_unique(haystack@, needle, idx as int);
            }
            return Some(idx);
        }
        idx = idx + 1;
    }
    None
}

/// If `i` holds the needle and nothing before it does, then `i` is the first
/// position.
proof fn lemma_position_unique(haystack: Seq<u8>, needle: u8, i: int)
    requires
        0 <= i < haystack.len(),
        haystack[i] == needle,
        forall|k: int| 0 <= k < i ==> haystack[k] != needle,
    ensures
        spec_position(haystack, needle) == Some(i),
{
    lemma_position_properties(haystack, needle);
    assert(haystack.contains(needle));
    let p = spec_position(haystack, needle)->Some_0;
    if p < i {
        assert(haystack[p] != needle);
    }
    if p > i {
        assert(haystack[i] != needle);
    }
}

/// Whether two byte buffers hold the same bytes.
pub fn eq_bytes(a: &[u8], b: &[u8]) -> (r: bool)
    ensures
        r == (a@ == b@),
{
    let n = a.len();
    if n != b.len() {
        proof {
            assert(a@ != b@);
        }
        return false;
    }
    let mut idx: usize = 0;
    while idx < n
        invariant
            n == a@.len() == b@.len(),
            0 <= idx <= n,
            forall|k: int| 0 <= k < idx ==> a@[k] == b@[k],
        decreases n - idx,
    {
        if a[idx] != b[idx] {
            proof {
                assert(a@[idx as int] != b@[idx as int]);
            }
            return false;
        }
        idx = idx + 1;
    }
    proof {
        assert(a@ =~= b@);
    }
    true
}

/// The bytes of `v` from `from` (inclusive) to `to` (exclusive).
pub fn subvec(v: &[u8], from: usize, to: usize) -> (r: Vec<u8>)
    requires
        from <= to <= v@.len(),
    ensures
        r@ == v@.subrange(from as int, to as int),
{
    let mut r: Vec<u8> = Vec::new();
    let mut idx: usize = from;
    while idx < to
        invariant
            from <= idx <= to <= v@.len(),
            r@ == v@.subrange(from as int, idx as int),
        decreases to - idx,
    {
        r.push(v[idx]);
        proof {
            assert(v@.subrange(from as int, idx + 1) =~= v@.subrange(from as int, idx as int).push(
                v@[idx as int],
            ));
        }
        idx = idx + 1;
    }
    r
}

/// Removes and returns the first `count` bytes of `v`, leaving the rest.
pub fn take_front(v: &mut Vec<u8>, count: usize) -> (r: Vec<u8>)
    requires
        count <= old(v)@.len(),
    ensures
        r@ == old(v)@.take(count as int),
        final(v)@ == old(v)@.skip(count as int),
{
    let mut front: Vec<u8> = Vec::new();
    let mut idx: usize = 0;
    while idx < count
        invariant
            count <= v@.len(),
            v@ == old(v)@,
            0 <= idx <= count,
            front@ == old(v)@.take(idx as int),
        decreases count - idx,
    {
        front.push(v[idx]);
        proof {
            assert(old(v)@.take(idx + 1) =~= old(v)@.take(idx as int).push(old(v)@[idx as int]));
        }
        idx = idx + 1;
    }
    let mut rest: Vec<u8> = Vec::new();
    let n = v.len();
    let mut k: usize = count;
    while k < n
        invariant
            count <= n == v@.len(),
            v@ == old(v)@,
            count <= k <= n,
            rest@ == old(v)@.subrange(count as int, k as int),
        decreases n - k,
    {
        rest.push(v[k]);
        proof {
            assert(old(v)@.subrange(count as int, k + 1) =~= old(v)@.subrange(
                count as int,
                k as int,
            ).push(old(v)@[k as int]));
        }
        k = k + 1;
    }
    proof {
        assert(rest@ =~= old(v)@.skip(count as int));
    }
    *v = rest;
    front
}

} // verus!
