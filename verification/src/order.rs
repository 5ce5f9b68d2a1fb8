//! Keeping a sequence in order of an integer key: insertion behind every
//! element whose key does not exceed the new one.

use vstd::prelude::*;

verus! {

/// Keys never decrease along the sequence.
pub open spec fn ordered_by<T>(s: Seq<T>, key: spec_fn(T) -> int) -> bool {
    forall|i: int, j: int| 0 <= i < j < s.len() ==> key(s[i]) <= key(s[j])
}

/// Keys strictly increase along the sequence.
pub open spec fn strictly_ordered_by<T>(s: Seq<T>, key: spec_fn(T) -> int) -> bool {
    forall|i: int, j: int| 0 <= i < j < s.len() ==> key(s[i]) < key(s[j])
}

/// The place where `x` enters `s`: behind the last element whose key does not
/// exceed the key of `x`, at the front when there is none.
pub open spec fn slot_for<T>(s: Seq<T>, x: T, key: spec_fn(T) -> int) -> int
    decreases s.len(),
{
    if s.len() == 0 {
        0
    } else if key(s.last()) <= key(x) {
        s.len() as int
    } else {
        slot_for(s.drop_last(), x, key)
    }
}

/// `s` with `x` put in at its slot.
pub open spec fn insert_by<T>(s: Seq<T>, x: T, key: spec_fn(T) -> int) -> Seq<T> {
    s.insert(slot_for(s, x, key), x)
}

/// The elements of `s` put in one after the other, starting from nothing.
pub open spec fn sort_by<T>(s: Seq<T>, key: spec_fn(T) -> int) -> Seq<T>
    decreases s.len(),
{
    if s.len() == 0 {
        Seq::empty()
    } else {
        insert_by(sort_by(s.drop_last(), key), s.last(), key)
    }
}

/// The slot lies within the sequence, everything from it on has a greater key,
/// and the element before it, if any, has a key that is not greater.
pub proof fn lemma_slot_for<T>(s: Seq<T>, x: T, key: spec_fn(T) -> int)
    ensures
        0 <= slot_for(s, x, key) <= s.len(),
        forall|k: int| slot_for(s, x, key) <= k < s.len() ==> key(#[trigger] s[k]) > key(x),
        slot_for(s, x, key) > 0 ==> key(s[slot_for(s, x, key) - 1]) <= key(x),
    decreases s.len(),
{
    if s.len() > 0 && key(s.last()) > key(x) {
        let front = s.drop_last();
        lemma_slot_for(front, x, key);
        assert forall|k: int| slot_for(s, x, key) <= k < s.len() implies key(#[trigger] s[k]) > key(
            x,
        ) by {
            if k < front.len() {
                assert(s[k] == front[k]);
            }
        }
    }
}

/// A position with the two properties of the slot is the slot.
pub proof fn lemma_slot_is<T>(s: Seq<T>, x: T, key: spec_fn(T) -> int, j: int)
    requires
        0 <= j <= s.len(),
        forall|k: int| j <= k < s.len() ==> key(#[trigger] s[k]) > key(x),
        j > 0 ==> key(s[j - 1]) <= key(x),
    ensures
        slot_for(s, x, key) == j,
    decreases s.len(),
{
    if s.len() > 0 {
        if key(s.last()) <= key(x) {
            if j < s.len() {
                assert(key(s[s.len() - 1]) > key(x));
            }
        } else {
            assert(j < s.len());
            let front = s.drop_last();
            assert forall|k: int| j <= k < front.len() implies key(#[trigger] front[k]) > key(
                x,
            ) by {
                assert(front[k] == s[k]);
            }
            lemma_slot_is(front, x, key, j);
        }
    }
}

/// Sorting keeps the length.
pub proof fn lemma_sort_len<T>(s: Seq<T>, key: spec_fn(T) -> int)
    ensures
        sort_by(s, key).len() == s.len(),
    decreases s.len(),
{
    if s.len() > 0 {
        lemma_sort_len(s.drop_last(), key);
        lemma_slot_for(sort_by(s.drop_last(), key), s.last(), key);
    }
}

/// Putting an element into an ordered sequence leaves it ordered.
pub proof fn lemma_insert_keeps_order<T>(s: Seq<T>, x: T, key: spec_fn(T) -> int)
    requires
        ordered_by(s, key),
    ensures
        ordered_by(insert_by(s, x, key), key),
{
    lemma_slot_for(s, x, key);
    let j = slot_for(s, x, key);
    let r = insert_by(s, x, key);
    assert forall|a: int, b: int| 0 <= a < b < r.len() implies key(r[a]) <= key(r[b]) by {
        if b < j {
            assert(r[a] == s[a] && r[b] == s[b]);
        } else if b == j {
            assert(r[a] == s[a]);
            if j > 0 {
                assert(a <= j - 1);
                assert(key(s[a]) <= key(s[j - 1]));
            }
        } else {
            assert(r[b] == s[b - 1]);
            if a < j {
                assert(r[a] == s[a]);
            } else if a == j {
                assert(key(s[b - 1]) > key(x));
            } else {
                assert(r[a] == s[a - 1]);
            }
        }
    }
}

/// Sorting puts the elements in order.
pub proof fn lemma_sort_ordered<T>(s: Seq<T>, key: spec_fn(T) -> int)
    ensures
        ordered_by(sort_by(s, key), key),
    decreases s.len(),
{
    if s.len() > 0 {
        lemma_sort_ordered(s.drop_last(), key);
        lemma_insert_keeps_order(sort_by(s.drop_last(), key), s.last(), key);
    }
}

/// Sorting leaves an ordered sequence as it is.
pub proof fn lemma_sort_of_ordered<T>(s: Seq<T>, key: spec_fn(T) -> int)
    requires
        ordered_by(s, key),
    ensures
        sort_by(s, key) == s,
    decreases s.len(),
{
    if s.len() > 0 {
        let front = s.drop_last();
        assert forall|i: int, j: int| 0 <= i < j < front.len() implies key(front[i]) <= key(
            front[j],
        ) by {
            assert(front[i] == s[i] && front[j] == s[j]);
        }
        lemma_sort_of_ordered(front, key);
        if front.len() > 0 {
            assert(front.last() == s[front.len() - 1]);
            assert(key(s[front.len() - 1]) <= key(s[s.len() - 1]));
        }
        assert(front.insert(front.len() as int, s.last()) =~= s);
    } else {
        assert(sort_by(s, key) =~= s);
    }
}

/// What a sequence holds after one more element went in at `j`.
pub proof fn lemma_insert_members<T>(s: Seq<T>, j: int, x: T)
    requires
        0 <= j <= s.len(),
    ensures
        forall|c: T| s.insert(j, x).contains(c) <==> (s.contains(c) || c == x),
{
    let r = s.insert(j, x);
    assert forall|c: T| r.contains(c) <==> (s.contains(c) || c == x) by {
        if r.contains(c) {
            let i = choose|i: int| 0 <= i < r.len() && r[i] == c;
            if i < j {
                assert(s[i] == c);
            } else if i > j {
                assert(s[i - 1] == c);
            }
        }
        if s.contains(c) {
            let i = choose|i: int| 0 <= i < s.len() && s[i] == c;
            if i < j {
                assert(r[i] == c);
            } else {
                assert(r[i + 1] == c);
            }
        }
        if c == x {
            assert(r[j] == c);
        }
    }
}

/// Sorting keeps the elements: what the sorted sequence holds is what the
/// sequence held.
pub proof fn lemma_sort_members<T>(s: Seq<T>, key: spec_fn(T) -> int)
    ensures
        sort_by(s, key).len() == s.len(),
        forall|c: T| sort_by(s, key).contains(c) <==> s.contains(c),
    decreases s.len(),
{
    lemma_sort_len(s, key);
    if s.len() > 0 {
        let front = s.drop_last();
        let sorted = sort_by(front, key);
        lemma_sort_members(front, key);
        lemma_slot_for(sorted, s.last(), key);
        lemma_insert_members(sorted, slot_for(sorted, s.last(), key), s.last());
        assert forall|c: T| sort_by(s, key).contains(c) <==> s.contains(c) by {
            if s.contains(c) {
                let i = choose|i: int| 0 <= i < s.len() && s[i] == c;
                if i < front.len() {
                    assert(front[i] == c);
                }
            }
            if front.contains(c) {
                let i = choose|i: int| 0 <= i < front.len() && front[i] == c;
                assert(s[i] == c);
            }
            if c == s.last() {
                assert(s[s.len() - 1] == c);
            }
        }
    } else {
        assert forall|c: T| sort_by(s, key).contains(c) <==> s.contains(c) by {}
    }
}

} // verus!
