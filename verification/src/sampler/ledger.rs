//! Sums over a table keyed by process id, in whatever order its entries are walked.

use vstd::prelude::*;
use vstd::set_lib::{FiniteFull, FiniteRange};

verus! {

/// The sum of the entries of a table.
pub open spec fn ledger_sum(m: Map<i32, nat>) -> nat
    decreases m.dom().len(),
    when m.dom().finite()
{
    if m.dom().len() == 0 {
        0
    } else {
        let pid = m.dom().choose();
        m[pid] + ledger_sum(m.remove(pid))
    }
}

/// There are finitely many process ids, at most `2^32`.
pub proof fn lemma_pids_are_finite(pids: Set<i32>)
    ensures
        pids.finite(),
        pids.len() <= 0x1_0000_0000,
{
    i32::range_properties(i32::MIN, i32::MAX);
    i32::full_properties();
    let below = <i32 as FiniteRange>::range_set(i32::MIN, i32::MAX);
    assert(Set::<i32>::full() =~= below.insert(i32::MAX));
    vstd::set_lib::lemma_set_subset_finite(Set::<i32>::full(), pids);
    vstd::set_lib::lemma_len_subset(pids, Set::<i32>::full());
}

/// Any entry may be the first to be added.
pub proof fn lemma_ledger_take(m: Map<i32, nat>, pid: i32)
    requires
        m.contains_key(pid),
    ensures
        ledger_sum(m) == m[pid] + ledger_sum(m.remove(pid)),
    decreases m.dom().len(),
{
    lemma_pids_are_finite(m.dom());
    lemma_pids_are_finite(m.remove(pid).dom());
    let first = m.dom().choose();
    if first != pid {
        lemma_pids_are_finite(m.remove(first).dom());
        lemma_ledger_take(m.remove(first), pid);
        lemma_ledger_take(m.remove(pid), first);
        assert(m.remove(first).remove(pid) =~= m.remove(pid).remove(first));
    }
}

/// A new or changed entry changes the sum by what it adds.
pub proof fn lemma_ledger_insert(m: Map<i32, nat>, pid: i32, value: nat)
    ensures
        ledger_sum(m.insert(pid, value)) == value + ledger_sum(m.remove(pid)),
{
    lemma_ledger_take(m.insert(pid, value), pid);
    assert(m.insert(pid, value).remove(pid) =~= m.remove(pid));
}

/// More entries, and larger ones, make a larger sum.
pub proof fn lemma_ledger_monotonic(small: Map<i32, nat>, large: Map<i32, nat>)
    requires
        forall|pid: i32| #[trigger]
            small.contains_key(pid) ==> large.contains_key(pid) && small[pid] <= large[pid],
    ensures
        ledger_sum(small) <= ledger_sum(large),
    decreases small.dom().len(),
{
    lemma_pids_are_finite(small.dom());
    lemma_pids_are_finite(large.dom());
    if small.dom().len() != 0 {
        let pid = small.dom().choose();
        assert(small.contains_key(pid));
        lemma_ledger_take(large, pid);
        lemma_ledger_monotonic(small.remove(pid), large.remove(pid));
    }
}

/// A table of zeros adds up to nothing.
pub proof fn lemma_zero_ledger(m: Map<i32, nat>)
    requires
        forall|pid: i32| #[trigger] m.contains_key(pid) ==> m[pid] == 0,
    ensures
        ledger_sum(m) == 0,
    decreases m.dom().len(),
{
    lemma_pids_are_finite(m.dom());
    if m.dom().len() != 0 {
        let pid = m.dom().choose();
        assert(m.contains_key(pid));
        lemma_zero_ledger(m.remove(pid));
    }
}

/// Where no entry's gain less its loss falls, and new entries have no loss, the gains less the
/// losses do not fall.
pub proof fn lemma_ledger_net(
    gains: Map<i32, nat>,
    losses: Map<i32, nat>,
    more: Map<i32, nat>,
    fewer: Map<i32, nat>,
)
    requires
        gains.dom() == losses.dom(),
        more.dom() == fewer.dom(),
        forall|pid: i32| #[trigger]
            gains.contains_key(pid) ==> more.contains_key(pid) && gains[pid] + fewer[pid]
                <= more[pid] + losses[pid],
        forall|pid: i32| #[trigger]
            more.contains_key(pid) && !gains.contains_key(pid) ==> fewer[pid] == 0,
    ensures
        ledger_sum(gains) + ledger_sum(fewer) <= ledger_sum(more) + ledger_sum(losses),
    decreases gains.dom().len(),
{
    lemma_pids_are_finite(gains.dom());
    lemma_pids_are_finite(losses.dom());
    if gains.dom().len() != 0 {
        let pid = gains.dom().choose();
        assert(gains.contains_key(pid));
        assert(losses.contains_key(pid));
        assert(more.contains_key(pid));
        assert(fewer.contains_key(pid));
        lemma_ledger_take(gains, pid);
        lemma_ledger_take(losses, pid);
        lemma_ledger_take(more, pid);
        lemma_ledger_take(fewer, pid);
        assert(gains.remove(pid).dom() =~= losses.remove(pid).dom());
        assert(more.remove(pid).dom() =~= fewer.remove(pid).dom());
        lemma_ledger_net(
            gains.remove(pid),
            losses.remove(pid),
            more.remove(pid),
            fewer.remove(pid),
        );
    } else {
        assert forall|pid: i32| #[trigger] fewer.contains_key(pid) implies fewer[pid] == 0 by {
            assert(more.contains_key(pid));
            assert(!gains.contains_key(pid));
        }
        lemma_zero_ledger(fewer);
    }
}

/// The sum of the entries that a walk meets, one after the other.
pub open spec fn walk_sum(m: Map<i32, nat>, order: Seq<i32>) -> nat
    decreases order.len(),
{
    if order.len() == 0 {
        0
    } else {
        walk_sum(m, order.drop_last()) + m[order.last()]
    }
}

/// A walk depends only on the entries that it meets.
proof fn lemma_walk_agree(a: Map<i32, nat>, b: Map<i32, nat>, order: Seq<i32>)
    requires
        forall|i: int| 0 <= i < order.len() ==> a[#[trigger] order[i]] == b[order[i]],
    ensures
        walk_sum(a, order) == walk_sum(b, order),
    decreases order.len(),
{
    if order.len() > 0 {
        assert(a[order[order.len() - 1]] == b[order[order.len() - 1]]);
        assert forall|i: int| 0 <= i < order.drop_last().len() implies a[#[trigger] order.drop_last()[i]]
            == b[order.drop_last()[i]] by {
            assert(order.drop_last()[i] == order[i]);
        }
        lemma_walk_agree(a, b, order.drop_last());
    }
}

/// A walk that meets each entry once comes to the sum of the table, whatever its order.
pub proof fn lemma_walk_is_ledger(m: Map<i32, nat>, order: Seq<i32>)
    requires
        order.no_duplicates(),
        order.to_set() == m.dom(),
    ensures
        walk_sum(m, order) == ledger_sum(m),
    decreases order.len(),
{
    lemma_pids_are_finite(m.dom());
    if order.len() == 0 {
        assert(m.dom() =~= Set::empty());
    } else {
        let last = order.last();
        let front = order.drop_last();
        assert(order.to_set().contains(order[order.len() - 1]));
        assert forall|pid: i32| front.to_set().contains(pid) == m.remove(last).dom().contains(
            pid,
        ) by {
            if front.contains(pid) {
                let i = choose|i: int| 0 <= i < front.len() && front[i] == pid;
                assert(order[i] == pid);
                assert(order.to_set().contains(pid));
            }
            if m.remove(last).dom().contains(pid) {
                assert(order.to_set().contains(pid));
                let i = choose|i: int| 0 <= i < order.len() && order[i] == pid;
                assert(front[i] == pid);
            }
        }
        assert(front.to_set() =~= m.remove(last).dom());
        lemma_walk_is_ledger(m.remove(last), front);
        lemma_ledger_take(m, last);
        assert forall|i: int| 0 <= i < front.len() implies m[#[trigger] front[i]] == m.remove(
            last,
        )[front[i]] by {
            assert(front[i] == order[i]);
        }
        lemma_walk_agree(m, m.remove(last), front);
    }
}

} // verus!
