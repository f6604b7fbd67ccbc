//! The planned schedule: one target instant per listed entry, starting
//! at the anchored instant and advancing by the configured offset.

use crate::entries::FileEntry;
use vstd::arithmetic::mul::lemma_mul_inequality;
use vstd::prelude::*;

verus! {

/// One entry paired with the instant its modification time shall be set
/// to, as a Unix timestamp in seconds.
#[derive(Debug)]
pub struct PlannedItem {
    pub entry: FileEntry,
    pub instant: i64,
}

/// Planning failed: some target instant does not fit the timestamp type.
#[derive(Clone, Copy, Debug, PartialEq, Eq, Structural)]
pub enum PlanError {
    InstantOverflow,
}

/// Lays one target instant per entry: the first equals `start`, each
/// following one lies exactly `step` seconds later. Entries keep their
/// order. Fails exactly when the last instant, `start + (N-1)*step`,
/// exceeds the largest representable timestamp.
pub fn plan_schedule(entries: Vec<FileEntry>, start: i64, step: u64) -> (r: Result<
    Vec<PlannedItem>,
    PlanError,
>)
    ensures
        r matches Ok(v) ==> {
            &&& v@.len() == entries@.len()
            &&& (forall|i: int|
                0 <= i < v@.len() ==> (#[trigger] v@[i]).instant as int == start as int + i * (
                step as int))
            &&& (forall|i: int| 0 <= i < v@.len() ==> (#[trigger] v@[i]).entry == entries@[i])
        },
        r is Err <==> (entries@.len() >= 1 && start as int + (entries@.len() - 1) * (step as int)
            > i64::MAX as int),
{
    let ghost orig = entries@;
    let mut rest = entries;
    let mut items: Vec<PlannedItem> = Vec::new();
    let mut cur: i64 = start;
    proof {
        assert(rest@ =~= orig.skip(0));
    }
    while rest.len() > 0
        invariant
            orig == entries@,
            items@.len() + rest@.len() == orig.len(),
            rest@ =~= orig.skip(items@.len() as int),
            forall|i: int|
                0 <= i < items@.len() ==> (#[trigger] items@[i]).instant as int == start as int + i
                    * (step as int) && items@[i].entry == orig[i],
            rest@.len() > 0 ==> cur as int == start as int + items@.len() * (step as int),
            rest@.len() == 0 && orig.len() >= 1 ==> cur as int == start as int + (orig.len() - 1) * (
            step as int),
        decreases rest@.len(),
    {
        let ghost k = items@.len() as int;
        proof {
            assert(rest@[0] == orig[k]);
        }
        let e = rest.remove(0);
        proof {
            assert(rest@ =~= orig.skip(k + 1));
        }
        items.push(PlannedItem { entry: e, instant: cur });
        if rest.len() > 0 {
            let sum: i128 = (cur as i128) + (step as i128);
            if sum > (i64::MAX as i128) {
                proof {
                    assert((k + 1) * (step as int) == k * (step as int) + (step as int))
                        by (nonlinear_arith);
                    lemma_mul_inequality(k + 1, orig.len() - 1, step as int);
                }
                return Err(PlanError::InstantOverflow);
            }
            cur = sum as i64;
            proof {
                assert((k + 1) * (step as int) == k * (step as int) + (step as int))
                    by (nonlinear_arith);
            }
        }
    }
    Ok(items)
}

/// A schedule of the shape plan_schedule lays out ascends monotonically
/// with constant step: each instant lies exactly `step` seconds after
/// the previous one, and no later entry's instant lies before an
/// earlier one's.
pub proof fn lemma_schedule_monotone(v: Seq<PlannedItem>, start: i64, step: u64)
    requires
        forall|i: int|
            0 <= i < v.len() ==> (#[trigger] v[i]).instant as int == start as int + i * (
            step as int),
    ensures
        forall|i: int|
            0 <= i < v.len() - 1 ==> (#[trigger] v[i + 1]).instant as int == v[i].instant as int
                + step as int,
        forall|i: int, j: int|
            0 <= i <= j < v.len() ==> (#[trigger] v[i]).instant <= (#[trigger] v[j]).instant,
{
    assert forall|i: int| 0 <= i < v.len() - 1 implies (#[trigger] v[i + 1]).instant as int
        == v[i].instant as int + step as int by {
        assert((i + 1) * (step as int) == i * (step as int) + (step as int)) by (nonlinear_arith);
    }
    assert forall|i: int, j: int| 0 <= i <= j < v.len() implies (#[trigger] v[i]).instant <= (
    #[trigger] v[j]).instant by {
        lemma_mul_inequality(i, j, step as int);
    }
}

} // verus!
