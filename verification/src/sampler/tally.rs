//! Saturating sums of readings that a process may or may not expose.

use vstd::prelude::*;

verus! {

/// `n`, or the largest `u64` where `n` is larger.
pub open spec fn saturated(n: nat) -> u64 {
    if n <= u64::MAX {
        n as u64
    } else {
        u64::MAX
    }
}

/// What an absent reading adds to a sum: nothing.
pub open spec fn amount(reading: Option<u64>) -> nat {
    match reading {
        Some(v) => v as nat,
        None => 0,
    }
}

/// The sum of the readings that are there.
pub open spec fn exposed_sum(readings: Seq<Option<u64>>) -> nat
    decreases readings.len(),
{
    if readings.len() == 0 {
        0
    } else {
        exposed_sum(readings.drop_last()) + amount(readings.last())
    }
}

/// At least one reading is there.
pub open spec fn any_exposed(readings: Seq<Option<u64>>) -> bool {
    exists|i: int| 0 <= i < readings.len() && (#[trigger] readings[i]) is Some
}

/// The saturating sum of the readings that are there, or `None` where none is: "not observed"
/// stays apart from "observed as zero".
pub open spec fn tallied(readings: Seq<Option<u64>>) -> Option<u64> {
    if any_exposed(readings) {
        Some(saturated(exposed_sum(readings)))
    } else {
        None
    }
}

/// A running tally.
#[derive(Clone, Copy)]
pub struct Tally {
    total: u64,
    seen: bool,
}

impl Tally {
    /// The tally has taken in exactly `readings`.
    pub closed spec fn covers(self, readings: Seq<Option<u64>>) -> bool {
        &&& self.seen == any_exposed(readings)
        &&& self.total == saturated(exposed_sum(readings))
    }

    /// A tally of nothing.
    pub fn new() -> (t: Tally)
        ensures
            t.covers(Seq::empty()),
    {
        Tally { total: 0, seen: false }
    }

    /// Takes in one more reading.
    pub fn add(&mut self, reading: Option<u64>)
        ensures
            forall|readings: Seq<Option<u64>>| #[trigger]
                old(self).covers(readings) ==> final(self).covers(readings.push(reading)),
    {
        if let Some(v) = reading {
            self.total = self.total.saturating_add(v);
            self.seen = true;
        }
        assert forall|readings: Seq<Option<u64>>| #[trigger] old(self).covers(readings) implies self.covers(
            readings.push(reading),
        ) by {
            let longer = readings.push(reading);
            assert(longer.drop_last() =~= readings);
            if reading is Some {
                assert(longer[readings.len() as int] is Some);
            } else {
                assert forall|i: int| 0 <= i < longer.len() && (#[trigger] longer[i]) is Some implies any_exposed(
                    readings,
                ) by {
                    assert(readings[i] is Some);
                }
                if any_exposed(readings) {
                    let i = choose|i: int|
                        0 <= i < readings.len() && (#[trigger] readings[i]) is Some;
                    assert(longer[i] is Some);
                }
            }
        }
    }

    /// The sum so far, or `None` where no reading was there.
    pub fn get(&self) -> (r: Option<u64>)
        ensures
            forall|readings: Seq<Option<u64>>| #[trigger]
                self.covers(readings) ==> r == tallied(readings),
    {
        if self.seen {
            Some(self.total)
        } else {
            None
        }
    }
}

} // verus!
