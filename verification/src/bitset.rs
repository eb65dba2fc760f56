//! A set of positions packed into 64-bit words, one bit per position.
use vstd::prelude::*;

verus! {

/// Whether the bit for `pos` is set in `words`. Positions beyond the last
/// word are not in the set.
pub open spec fn is_marked(words: Seq<u64>, pos: int) -> bool {
    &&& 0 <= pos < 64 * words.len()
    &&& words[pos / 64] & (1u64 << ((pos % 64) as u64)) != 0
}

/// The set of positions whose bit is set in `words`.
pub open spec fn marked(words: Seq<u64>) -> Set<int> {
    Set::new(|pos: int| is_marked(words, pos))
}

/// Setting one bit of a word changes the answer for that bit and for no
/// other.
proof fn lemma_set_bit(word: u64, bit: u64)
    requires
        bit < 64,
    ensures
        forall|other: u64|
            other < 64 ==> (#[trigger] ((word | (1u64 << bit)) & (1u64 << other)) != 0 <==> (word
                & (1u64 << other) != 0 || other == bit)),
{
    assert forall|other: u64| other < 64 implies (#[trigger] ((word | (1u64 << bit)) & (1u64
        << other)) != 0 <==> (word & (1u64 << other) != 0 || other == bit)) by {
        assert(((word | (1u64 << bit)) & (1u64 << other)) != 0 <==> (word & (1u64 << other) != 0
            || other == bit)) by (bit_vector)
            requires
                bit < 64,
                other < 64,
        ;
    }
}

/// Words that are all zero hold the empty set.
pub proof fn lemma_cleared(words: Seq<u64>)
    requires
        forall|i: int| 0 <= i < words.len() ==> words[i] == 0,
    ensures
        marked(words) == Set::<int>::empty(),
{
    assert forall|pos: int| !is_marked(words, pos) by {
        let bit = (pos % 64) as u64;
        assert(0u64 & (1u64 << bit) == 0) by (bit_vector);
    }
}

/// Adds `pos` to the set and tells whether it was new.
pub fn mark_visited(visited: &mut [u64], pos: usize) -> (fresh: bool)
    requires
        pos < 64 * old(visited)@.len(),
    ensures
        final(visited)@.len() == old(visited)@.len(),
        marked(final(visited)@) == marked(old(visited)@).insert(pos as int),
        fresh == !marked(old(visited)@).contains(pos as int),
{
    let idx = pos / 64;
    let bit = 1u64 << ((pos % 64) as u64);
    let word = visited[idx];
    proof {
        lemma_set_bit(word, (pos % 64) as u64);
    }
    if word & bit == 0 {
        visited[idx] = word | bit;
        true
    } else {
        false
    }
}

} // verus!
