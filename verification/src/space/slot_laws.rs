//! What a set of slots is as a list, which slot has which rank, and how a number
//! is shown.

use vstd::prelude::*;

use crate::space::slots::{bit, decimal, lists, lists_word, rank_of};

verus! {

/// A list of a set has every member once, by rising number, and nothing else.
pub proof fn law_lists_hold_their_set(v: Seq<u64>, set: Set<u64>, slot: u64, i: int, j: int)
    requires
        lists(v, set),
    ensures
        v.contains(slot) <==> set.contains(slot),
        0 <= i < j < v.len() ==> v[i] < v[j],
        v.to_set() == set,
        v.len() == set.len(),
{
    assert(v.to_set() =~= set) by {
        assert forall|s: u64| v.to_set().contains(s) <==> set.contains(s) by {
            assert(v.to_set().contains(s) <==> v.contains(s));
        }
    }
    assert(v.no_duplicates());
    v.unique_seq_to_set();
}

/// The slots of a word of a bitmap are those whose bit in it is set: the slot of
/// bit `b` is 64 times the word's place and `b`.
pub proof fn law_slots_of_a_word(v: Seq<u64>, index: int, word: u64, b: u64)
    requires
        lists_word(v, index, word),
        b < 64,
        0 <= index <= 0x3ff_ffff_ffff_ffff,
    ensures
        v.contains((index * 64 + b) as u64) <==> (word >> b) & 1 == 1,
        forall|i: int| 0 <= i < v.len() ==> index * 64 <= #[trigger] v[i] < index * 64 + 64,
{
    let s = (index * 64 + b) as u64;
    assert(s / 64 == index && s % 64 == b) by (nonlinear_arith)
        requires
            s == index * 64 + b,
            0 <= b < 64,
            0 <= index,
    ;
    assert(v.contains(s) <==> s / 64 == index && bit(word, s % 64));
    assert forall|i: int| 0 <= i < v.len() implies index * 64 <= #[trigger] v[i] < index * 64
        + 64 by {
        assert(v.contains(v[i]));
    }
}

/// The rank of a member is how many members are less: the least has rank zero, and
/// a greater one has a greater rank.
pub proof fn law_ranks_rise(set: Set<u64>, s: u64, t: u64)
    requires
        set.finite(),
        set.contains(s),
        set.contains(t),
        s < t,
    ensures
        rank_of(set, s) < rank_of(set, t),
        rank_of(set, t) < set.len(),
        (forall|x: u64| #[trigger] set.contains(x) ==> s <= x) ==> rank_of(set, s) == 0,
{
    let below = set.filter(|x: u64| x < s);
    let more = set.filter(|x: u64| x < t);
    assert(below.insert(s).subset_of(more));
    vstd::set_lib::lemma_len_subset(below.insert(s), more);
    assert(more.insert(t).subset_of(set));
    vstd::set_lib::lemma_len_subset(more.insert(t), set);
    if forall|x: u64| #[trigger] set.contains(x) ==> s <= x {
        assert(below =~= Set::<u64>::empty());
    }
}

/// The number that digits stand for, the highest first.
pub open spec fn value_of_digits(text: Seq<char>) -> nat
    decreases text.len(),
{
    if text.len() == 0 {
        0
    } else {
        (value_of_digits(text.drop_last()) * 10 + (text.last() as u32 - '0' as u32)) as nat
    }
}

/// A number is shown in digits that stand for it, and without a leading zero.
pub proof fn law_numbers_are_shown_in_digits(n: nat, i: int)
    ensures
        value_of_digits(decimal(n)) == n,
        decimal(n).len() > 0,
        0 <= i < decimal(n).len() ==> '0' <= decimal(n)[i] <= '9',
        decimal(n).len() > 1 ==> decimal(n)[0] != '0',
        n == 0 ==> decimal(n) == seq!['0'],
    decreases n,
{
    reveal_with_fuel(value_of_digits, 3);
    if n < 10 {
        let text = decimal(n);
        assert(text.drop_last() =~= Seq::<char>::empty());
    } else {
        law_numbers_are_shown_in_digits(n / 10, i);
        law_numbers_are_shown_in_digits(n / 10, 0);
        let text = decimal(n);
        assert(text.drop_last() =~= decimal(n / 10));
        if decimal(n / 10).len() == 1 {
            assert(value_of_digits(decimal(n / 10)) == decimal(n / 10)[0] as u32 - '0' as u32) by {
                assert(decimal(n / 10).drop_last() =~= Seq::<char>::empty());
            }
        }
    }
}

} // verus!
