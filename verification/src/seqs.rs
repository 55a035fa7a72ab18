//! Slot numbers: which slot an arena hands out next, and facts about
//! sequences of slots without repeats, as the intrusive lists need them.

use vstd::prelude::*;

verus! {

/// The slot that a new entry takes in an arena of `arena_len` slots with the
/// spare slots `spare`: the spare slot freed last, else the slot by which
/// the arena grows.
pub open spec fn next_slot(spare: Seq<usize>, arena_len: nat) -> usize {
    if spare.len() > 0 {
        spare.last()
    } else {
        arena_len as usize
    }
}

/// In a sequence without repeats, an element is found at its one position.
pub proof fn lemma_index_of<A>(s: Seq<A>, pos: int)
    requires
        s.no_duplicates(),
        0 <= pos < s.len(),
    ensures
        s.contains(s[pos]),
        s.index_of(s[pos]) == pos,
{
    let found = s.index_of(s[pos]);
    assert(s[found] == s[pos]);
}

/// Removing position `pos` leaves a sequence without repeats that holds
/// every other element and no longer holds the removed one.
pub proof fn lemma_remove<A>(s: Seq<A>, pos: int)
    requires
        s.no_duplicates(),
        0 <= pos < s.len(),
    ensures
        s.remove(pos).no_duplicates(),
        !s.remove(pos).contains(s[pos]),
        forall|x: A| #[trigger] s.remove(pos).contains(x) <==> s.contains(x) && x != s[pos],
{
    let shorter = s.remove(pos);
    assert forall|a: int, b: int|
        0 <= a < shorter.len() && 0 <= b < shorter.len() && a != b implies shorter[a]
        != shorter[b] by {
        let ja = if a < pos { a } else { a + 1 };
        let jb = if b < pos { b } else { b + 1 };
        assert(shorter[a] == s[ja] && shorter[b] == s[jb]);
    }
    assert forall|x: A| #[trigger] shorter.contains(x) implies s.contains(x) && x != s[pos] by {
        let i = shorter.index_of(x);
        let j = if i < pos { i } else { i + 1 };
        assert(shorter[i] == s[j]);
    }
    assert forall|x: A| s.contains(x) && x != s[pos] implies #[trigger] shorter.contains(x) by {
        let j = s.index_of(x);
        let i = if j < pos { j } else { j - 1 };
        assert(shorter[i] == s[j]);
    }
}

/// Putting `x`, which `s` does not hold, in front of `s` keeps it free of repeats.
pub proof fn lemma_push_front<A>(s: Seq<A>, x: A)
    requires
        s.no_duplicates(),
        !s.contains(x),
    ensures
        (seq![x] + s).no_duplicates(),
        forall|y: A| #[trigger] (seq![x] + s).contains(y) <==> y == x || s.contains(y),
{
    let longer = seq![x] + s;
    assert forall|a: int, b: int|
        0 <= a < longer.len() && 0 <= b < longer.len() && a != b implies longer[a]
        != longer[b] by {
        if a > 0 {
            assert(s.contains(s[a - 1]));
        }
        if b > 0 {
            assert(s.contains(s[b - 1]));
        }
    }
    assert forall|y: A| #[trigger] longer.contains(y) implies y == x || s.contains(y) by {
        let i = longer.index_of(y);
        if i > 0 {
            assert(longer[i] == s[i - 1]);
        }
    }
    assert forall|y: A| y == x || s.contains(y) implies #[trigger] longer.contains(y) by {
        if y == x {
            assert(longer[0] == x);
        } else {
            let j = s.index_of(y);
            assert(longer[j + 1] == y);
        }
    }
}

/// A sequence of distinct numbers below `bound` has at most `bound` elements.
pub proof fn lemma_distinct_below(s: Seq<usize>, bound: nat)
    requires
        s.no_duplicates(),
        forall|i: int| 0 <= i < s.len() ==> (#[trigger] s[i]) < bound,
    ensures
        s.len() <= bound,
    decreases bound,
{
    if bound == 0 {
        if s.len() > 0 {
            assert(s[0] < bound);
        }
    } else {
        let top = (bound - 1) as usize;
        if s.contains(top) {
            let pos = s.index_of(top);
            let rest = s.remove(pos);
            lemma_remove(s, pos);
            assert forall|i: int| 0 <= i < rest.len() implies (#[trigger] rest[i]) < bound - 1 by {
                assert(rest.contains(rest[i]));
                let j = s.index_of(rest[i]);
                assert(s[j] < bound);
            }
            lemma_distinct_below(rest, (bound - 1) as nat);
        } else {
            assert forall|i: int| 0 <= i < s.len() implies (#[trigger] s[i]) < bound - 1 by {
                assert(s.contains(s[i]));
            }
            lemma_distinct_below(s, (bound - 1) as nat);
        }
    }
}

} // verus!
