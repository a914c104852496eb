//! Laws of the ring: proved statements that relate the operations of
//! `crate::list::List` through the member sequences their contracts speak of.

use vstd::prelude::*;
use crate::list::rotated;

verus! {

/// The member sequence after pushing each element of `es`, in order, at the
/// head of a list whose members were `s`.
pub open spec fn lpush_all(s: Seq<usize>, es: Seq<usize>) -> Seq<usize>
    decreases es.len(),
{
    if es.len() == 0 {
        s
    } else {
        lpush_all(seq![es.first()] + s, es.drop_first())
    }
}

proof fn lemma_lpush_all_prepends_reversed(s: Seq<usize>, es: Seq<usize>)
    ensures
        lpush_all(s, es) == es.reverse() + s,
    decreases es.len(),
{
    if es.len() == 0 {
        assert(es.reverse() + s =~= s);
    } else {
        lemma_lpush_all_prepends_reversed(seq![es.first()] + s, es.drop_first());
        assert(es.reverse() =~= es.drop_first().reverse() + seq![es.first()]);
        assert(es.drop_first().reverse() + (seq![es.first()] + s) =~= es.reverse() + s);
    }
}

/// Pushing the elements of `es` at the head of an empty list, in order,
/// leaves exactly the members of `es` in reverse insertion order; since each
/// `lpop` returns the first remaining member and drops it, repeated `lpop`
/// returns the elements in exact reverse insertion order and empties the
/// list after exactly `es.len()` pops.
pub proof fn lemma_lpush_then_lpop_reverses(es: Seq<usize>)
    ensures
        lpush_all(Seq::empty(), es) == es.reverse(),
        lpush_all(Seq::empty(), es).len() == es.len(),
{
    lemma_lpush_all_prepends_reversed(Seq::empty(), es);
    assert(es.reverse() + Seq::<usize>::empty() =~= es.reverse());
}

/// Pushing `x` at the tail makes `x` the last member and leaves every prior
/// member in place, so popping the tail right afterwards returns `x` and
/// restores the original order unchanged.
pub proof fn lemma_rpush_then_rpop(s: Seq<usize>, x: usize)
    requires
        s.len() >= 1,
    ensures
        s.push(x).last() == x,
        s.push(x).drop_last() == s,
{
    assert(s.push(x).drop_last() =~= s);
}

/// The member sequence after `k` rotations of a list whose members were `s`.
pub open spec fn rotations(s: Seq<usize>, k: nat) -> Seq<usize>
    decreases k,
{
    if k == 0 {
        s
    } else {
        rotated(rotations(s, (k - 1) as nat))
    }
}

proof fn lemma_rotations_shift(s: Seq<usize>, k: nat)
    requires
        k <= s.len(),
    ensures
        rotations(s, k) == s.subrange(k as int, s.len() as int) + s.subrange(0, k as int),
    decreases k,
{
    let n = s.len() as int;
    if k == 0 {
        assert(s.subrange(0, n) + s.subrange(0, 0) =~= s);
    } else {
        lemma_rotations_shift(s, (k - 1) as nat);
        let t = s.subrange(k - 1, n) + s.subrange(0, k - 1);
        assert(t.len() == n);
        assert(t[0] == s[k - 1]);
        assert(rotated(t) =~= s.subrange(k as int, n) + s.subrange(0, k as int));
    }
}

/// Rotation law: one rotation moves the head to the tail and keeps the
/// member count, and rotating a list of n members n times restores the
/// original order.
pub proof fn lemma_rotation_round_trip(s: Seq<usize>)
    requires
        s.len() >= 2,
    ensures
        rotated(s).len() == s.len(),
        rotations(s, s.len()) == s,
{
    lemma_rotations_shift(s, s.len());
    assert(s.subrange(s.len() as int, s.len() as int) + s.subrange(0, s.len() as int) =~= s);
}

/// Removing the head is the same operation as popping at the head: on a
/// duplicate-free member sequence the head's index is 0, and dropping index
/// 0 leaves exactly the sequence without its first member.
pub proof fn lemma_remove_head_is_lpop(s: Seq<usize>)
    requires
        s.len() > 0,
        s.no_duplicates(),
    ensures
        s.index_of(s[0]) == 0,
        s.remove(s.index_of(s[0])) == s.drop_first(),
{
    assert(s.contains(s[0]));
    let i = s.index_of(s[0]);
    assert(0 <= i < s.len() && s[i] == s[0]);
    assert(s.remove(0) =~= s.drop_first());
}

/// Removing the tail is the same operation as popping at the tail: on a
/// duplicate-free member sequence the tail's index is the last one, and
/// dropping it leaves exactly the sequence without its last member.
pub proof fn lemma_remove_tail_is_rpop(s: Seq<usize>)
    requires
        s.len() > 0,
        s.no_duplicates(),
    ensures
        s.index_of(s.last()) == s.len() - 1,
        s.remove(s.index_of(s.last())) == s.drop_last(),
{
    assert(s.contains(s.last()));
    let i = s.index_of(s.last());
    assert(0 <= i < s.len() && s[i] == s.last());
    assert(i == s.len() - 1);
    assert(s.remove(s.len() - 1) =~= s.drop_last());
}

} // verus!
