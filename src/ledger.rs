use vstd::prelude::*;
use crate::types::Address;

verus! {

/// The resolution state of a call: open, or decided for one side.
#[derive(Clone, Copy, Debug, PartialEq, Eq, Structural)]
pub enum CallOutcome {
    Unresolved,
    Up,
    Down,
}

/// One staker's cumulative stake on one side of a call.
#[derive(Debug)]
pub struct StakeEntry {
    pub staker: Address,
    pub amount: i128,
}

impl View for StakeEntry {
    type V = (Seq<u8>, i128);

    open spec fn view(&self) -> (Seq<u8>, i128) {
        (self.staker@, self.amount)
    }
}

impl Clone for StakeEntry {
    fn clone(&self) -> (r: Self)
        ensures
            r@ == self@,
    {
        StakeEntry { staker: self.staker.clone(), amount: self.amount }
    }
}

/// The stakes of one side as (staker, amount) pairs.
pub open spec fn entries_view(s: Seq<StakeEntry>) -> Seq<(Seq<u8>, i128)> {
    Seq::new(s.len(), |i: int| s[i]@)
}

/// The amount `who` has staked according to `s` (0 when absent).
pub open spec fn stake_of(s: Seq<(Seq<u8>, i128)>, who: Seq<u8>) -> int
    decreases s.len(),
{
    if s.len() == 0 {
        0
    } else if s.last().0 == who {
        s.last().1 as int
    } else {
        stake_of(s.drop_last(), who)
    }
}

/// The sum of all amounts in `s`.
pub open spec fn stake_total(s: Seq<(Seq<u8>, i128)>) -> int
    decreases s.len(),
{
    if s.len() == 0 {
        0
    } else {
        stake_total(s.drop_last()) + s.last().1
    }
}

/// Each staker appears once, with a positive amount, and `total` is the sum
/// of all amounts.
pub open spec fn side_wf(s: Seq<(Seq<u8>, i128)>, total: i128) -> bool {
    &&& total == stake_total(s)
    &&& forall|i: int| 0 <= i < s.len() ==> (#[trigger] s[i]).1 > 0
    &&& forall|i: int, j: int| 0 <= i < j < s.len() ==> (#[trigger] s[i]).0 != (#[trigger] s[j]).0
}

pub(crate) proof fn lemma_stake_absent(s: Seq<(Seq<u8>, i128)>, who: Seq<u8>)
    requires
        forall|k: int| 0 <= k < s.len() ==> (#[trigger] s[k]).0 != who,
    ensures
        stake_of(s, who) == 0,
    decreases s.len(),
{
    if s.len() > 0 {
        assert(s[s.len() - 1].0 != who);
        lemma_stake_absent(s.drop_last(), who);
    }
}

pub(crate) proof fn lemma_stake_present(s: Seq<(Seq<u8>, i128)>, j: int)
    requires
        0 <= j < s.len(),
        forall|a: int, b: int| 0 <= a < b < s.len() ==> (#[trigger] s[a]).0 != (#[trigger] s[b]).0,
    ensures
        stake_of(s, s[j].0) == s[j].1,
    decreases s.len(),
{
    if j < s.len() - 1 {
        assert(s[j].0 != s[s.len() - 1].0);
        assert(s.drop_last()[j] == s[j]);
        lemma_stake_present(s.drop_last(), j);
    }
}

proof fn lemma_total_push(s: Seq<(Seq<u8>, i128)>, e: (Seq<u8>, i128), who: Seq<u8>)
    ensures
        stake_total(s.push(e)) == stake_total(s) + e.1,
        stake_of(s.push(e), who) == if e.0 == who {
            e.1 as int
        } else {
            stake_of(s, who)
        },
{
    assert(s.push(e).drop_last() == s);
}

proof fn lemma_total_update(s: Seq<(Seq<u8>, i128)>, j: int, e: (Seq<u8>, i128), who: Seq<u8>)
    requires
        0 <= j < s.len(),
        e.0 == s[j].0,
        forall|a: int, b: int| 0 <= a < b < s.len() ==> (#[trigger] s[a]).0 != (#[trigger] s[b]).0,
    ensures
        stake_total(s.update(j, e)) == stake_total(s) - s[j].1 + e.1,
        stake_of(s.update(j, e), who) == if e.0 == who {
            e.1 as int
        } else {
            stake_of(s, who)
        },
    decreases s.len(),
{
    let u = s.update(j, e);
    if j == s.len() - 1 {
        assert(u.drop_last() == s.drop_last());
    } else {
        assert(u.drop_last() == s.drop_last().update(j, e));
        assert(s[j].0 != s[s.len() - 1].0);
        lemma_total_update(s.drop_last(), j, e, who);
    }
}

proof fn lemma_entry_within_total(s: Seq<(Seq<u8>, i128)>, j: int)
    requires
        0 <= j < s.len(),
        forall|i: int| 0 <= i < s.len() ==> (#[trigger] s[i]).1 > 0,
    ensures
        0 < s[j].1 <= stake_total(s),
    decreases s.len(),
{
    lemma_total_nonneg(s.drop_last());
    if j < s.len() - 1 {
        assert(s.drop_last()[j] == s[j]);
        lemma_entry_within_total(s.drop_last(), j);
    }
}

proof fn lemma_total_nonneg(s: Seq<(Seq<u8>, i128)>)
    requires
        forall|i: int| 0 <= i < s.len() ==> (#[trigger] s[i]).1 > 0,
    ensures
        stake_total(s) >= 0,
    decreases s.len(),
{
    if s.len() > 0 {
        assert(s[s.len() - 1].1 > 0);
        lemma_total_nonneg(s.drop_last());
    }
}

/// The position of `who` among the stakers of one side, if present.
pub fn find_staker(entries: &Vec<StakeEntry>, who: &Address) -> (r: Option<usize>)
    ensures
        match r {
            Some(j) => j < entries@.len() && entries@[j as int].staker@ == who@,
            None => forall|k: int| 0 <= k < entries@.len() ==> (#[trigger] entries@[k]).staker@ != who@,
        },
{
    let mut i: usize = 0;
    while i < entries.len()
        invariant
            i <= entries@.len(),
            forall|k: int| 0 <= k < i ==> (#[trigger] entries@[k]).staker@ != who@,
        decreases entries@.len() - i,
    {
        if entries[i].staker.same_as(who) {
            return Some(i);
        }
        i = i + 1;
    }
    None
}

/// Adds `amount` to the balance of `staker` on one side whose running total
/// is `total`, and returns the new total. A staker new to the side gets an
/// entry of its own.
pub fn credit(entries: &mut Vec<StakeEntry>, total: i128, staker: &Address, amount: i128) -> (r: i128)
    requires
        side_wf(entries_view(old(entries)@), total),
        amount > 0,
        total + amount <= i128::MAX,
    ensures
        r == total + amount,
        side_wf(entries_view(final(entries)@), r),
        forall|who: Seq<u8>|
            #[trigger] stake_of(entries_view(final(entries)@), who) == stake_of(entries_view(old(entries)@), who)
                + if who == staker@ {
                amount as int
            } else {
                0int
            },
        final(entries)@.len() == old(entries)@.len() + if stake_of(entries_view(old(entries)@), staker@) == 0 {
            1int
        } else {
            0int
        },
{
    let ghost before = entries_view(entries@);
    match find_staker(entries, staker) {
        Some(j) => {
            let current = entries[j].amount;
            proof {
                assert(before[j as int] == entries@[j as int]@);
                lemma_entry_within_total(before, j as int);
                lemma_stake_present(before, j as int);
            }
            let entry = StakeEntry { staker: staker.clone(), amount: current + amount };
            entries.set(j, entry);
            proof {
                let after = entries_view(entries@);
                assert(after == before.update(j as int, entry@));
                lemma_total_update(before, j as int, entry@, staker@);
                assert forall|who: Seq<u8>| #[trigger] stake_of(after, who) == stake_of(before, who) + if who == staker@ {
                    amount as int
                } else {
                    0int
                } by {
                    lemma_total_update(before, j as int, entry@, who);
                }
                assert forall|a: int, b: int| 0 <= a < b < after.len() implies (#[trigger] after[a]).0 != (#[trigger] after[b]).0 by {
                    assert(before[a].0 != before[b].0);
                }
            }
        },
        None => {
            let entry = StakeEntry { staker: staker.clone(), amount };
            entries.push(entry);
            proof {
                let after = entries_view(entries@);
                assert(after == before.push(entry@));
                assert forall|k: int| 0 <= k < before.len() implies (#[trigger] before[k]).0 != staker@ by {
                    assert(before[k] == old(entries)@[k]@);
                }
                lemma_stake_absent(before, staker@);
                lemma_total_push(before, entry@, staker@);
                assert forall|who: Seq<u8>| #[trigger] stake_of(after, who) == stake_of(before, who) + if who == staker@ {
                    amount as int
                } else {
                    0int
                } by {
                    lemma_total_push(before, entry@, who);
                }
                assert forall|a: int, b: int| 0 <= a < b < after.len() implies (#[trigger] after[a]).0 != (#[trigger] after[b]).0 by {
                    if b < before.len() {
                        assert(before[a].0 != before[b].0);
                    } else {
                        assert(before[a].0 != staker@);
                    }
                }
            }
        },
    }
    total + amount
}

} // verus!
