use vstd::prelude::*;
use bit_iter::BitIter;

verus! {

/// Whether bit `i` of the word `w` is set.
pub open spec fn bit_set(w: u64, i: u64) -> bool {
    i < 64 && (w >> i) & 1u64 == 1u64
}

/// The positions of the set bits of `w`, as a set of integers in `[0, 64)`.
pub open spec fn bits_of(w: u64) -> Set<int> {
    Set::new(|i: int| 0 <= i < 64 && bit_set(w, i as u64))
}

/// Whether `s` lists the members of `set`, in ascending order and once
/// each, all of them below 64.
pub open spec fn ascending_listing(s: Seq<usize>, set: Set<int>) -> bool {
    &&& forall|k: int| 0 <= k < s.len() ==> #[trigger] s[k] < 64
    &&& forall|k: int, l: int| 0 <= k < l < s.len() ==> #[trigger] s[k] < #[trigger] s[l]
    &&& forall|i: int| #[trigger] set.contains(i) <==> (0 <= i < 64 && s.contains(i as usize))
}

proof fn lemma_bit_facts()
    ensures
        forall|j: u64| !#[trigger] bit_set(0u64, j),
        forall|w: u64, i: u64, j: u64|
            i < 64 ==> (#[trigger] bit_set(w | (1u64 << i), j) <==> (j == i || bit_set(w, j))),
        forall|w: u64, i: u64, j: u64|
            i < 64 ==> (#[trigger] bit_set(w & !(1u64 << i), j) <==> (j != i && bit_set(w, j))),
{
    assert(forall|j: u64| !(j < 64 && (0u64 >> j) & 1u64 == 1u64)) by (bit_vector);
    assert(forall|w: u64, i: u64, j: u64|
        i < 64 ==> ((j < 64 && ((w | (1u64 << i)) >> j) & 1u64 == 1u64) <==> (j == i || (j < 64
            && (w >> j) & 1u64 == 1u64)))) by (bit_vector);
    assert(forall|w: u64, i: u64, j: u64|
        i < 64 ==> ((j < 64 && ((w & !(1u64 << i)) >> j) & 1u64 == 1u64) <==> (j != i && (j < 64
            && (w >> j) & 1u64 == 1u64)))) by (bit_vector);
}

/// The word with no bit set lists no position.
pub proof fn lemma_bits_of_zero()
    ensures
        bits_of(0u64) == Set::<int>::empty(),
{
    lemma_bit_facts();
    assert(bits_of(0u64) =~= Set::<int>::empty());
}

/// The positions of a word are below 64.
pub proof fn lemma_bits_of_range(w: u64)
    ensures
        forall|i: int| #[trigger] bits_of(w).contains(i) ==> 0 <= i < 64,
{
}

/// Setting bit `i` adds `i` to the positions.
pub proof fn lemma_bits_of_set(w: u64, i: u64)
    requires
        i < 64,
    ensures
        bits_of(w | (1u64 << i)) == bits_of(w).insert(i as int),
{
    lemma_bit_facts();
    assert forall|j: int| #[trigger] bits_of(w | (1u64 << i)).contains(j) <==> bits_of(w).insert(
        i as int,
    ).contains(j) by {
        if 0 <= j < 64 {
            assert(bit_set(w | (1u64 << i), j as u64) <==> (j as u64 == i || bit_set(w, j as u64)));
        }
    }
    assert(bits_of(w | (1u64 << i)) =~= bits_of(w).insert(i as int));
}

/// Clearing bit `i` removes `i` from the positions.
pub proof fn lemma_bits_of_clear(w: u64, i: u64)
    requires
        i < 64,
    ensures
        bits_of(w & !(1u64 << i)) == bits_of(w).remove(i as int),
{
    lemma_bit_facts();
    assert forall|j: int| #[trigger] bits_of(w & !(1u64 << i)).contains(j) <==> bits_of(w).remove(
        i as int,
    ).contains(j) by {
        if 0 <= j < 64 {
            assert(bit_set(w & !(1u64 << i), j as u64) <==> (j as u64 != i && bit_set(
                w,
                j as u64,
            )));
        }
    }
    assert(bits_of(w & !(1u64 << i)) =~= bits_of(w).remove(i as int));
}

/// The positions of the set bits of `word`, in ascending order.
///
/// Trusted: `bit_iter::BitIter::from(word)` iterated to the end, which its
/// documentation states yields the positions of the `1` bits of the word in
/// ascending order (each one once).
#[verifier::external_body]
pub(crate) fn set_bits(word: u64) -> (r: Vec<usize>)
    ensures
        ascending_listing(r@, bits_of(word)),
{
    BitIter::from(word).collect()
}

} // verus!
