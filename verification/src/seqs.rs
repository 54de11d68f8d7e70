//! Facts about sequences without repeats.

use vstd::prelude::*;

verus! {

/// Taking the item at `i` out of a sequence without repeats leaves a
/// sequence without repeats that does not hold the item; `i` is where the
/// item stood.
pub proof fn lemma_remove_distinct<T>(s: Seq<T>, i: int)
    requires
        s.no_duplicates(),
        0 <= i < s.len(),
    ensures
        s.index_of(s[i]) == i,
        s.remove(i).no_duplicates(),
        !s.remove(i).contains(s[i]),
        forall|j: int| 0 <= j < s.remove(i).len() ==> s.contains(#[trigger] s.remove(i)[j]),
{
    let after = s.remove(i);
    let at = s.index_of(s[i]);
    assert(s[at] == s[i]);
    assert forall|j: int| 0 <= j < after.len() implies after[j] == s[if j < i {
        j
    } else {
        j + 1
    }] by {}
    assert forall|a: int, b: int| 0 <= a < after.len() && 0 <= b < after.len() && a
        != b implies after[a] != after[b] by {
        let a0 = if a < i { a } else { a + 1 };
        let b0 = if b < i { b } else { b + 1 };
        assert(after[a] == s[a0]);
        assert(after[b] == s[b0]);
    }
    if after.contains(s[i]) {
        let a = choose|a: int| 0 <= a < after.len() && after[a] == s[i];
        let a0 = if a < i { a } else { a + 1 };
        assert(after[a] == s[a0]);
    }
    assert forall|j: int| 0 <= j < after.len() implies s.contains(#[trigger] after[j]) by {
        let j0 = if j < i { j } else { j + 1 };
        assert(after[j] == s[j0]);
    }
}

} // verus!
