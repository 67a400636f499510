//! Properties of the search stated and proved on their own, over the same
//! spec functions that the search's contracts use.

use vstd::prelude::*;

use crate::model::appears_on_day;
use crate::model::count_emp;
use crate::model::eligible;
use crate::model::is_ranked_order;
use crate::model::prefers;
use crate::model::rank_before;
use crate::model::Config;
use crate::model::Employee;

verus! {

/// Undo correctness: tentatively assigning an employee to the next open slot
/// and then undoing that assignment is a no-op on the search state. The
/// schedule itself is restored exactly, and with it every derived workload
/// count and every per-day booking.
pub proof fn lemma_assign_undo_restores(s: Seq<usize>, e: usize, cfg: Config)
    ensures
        s.push(e).drop_last() == s,
        forall|x: usize|
            #[trigger] count_emp(s.push(e).drop_last(), x) == count_emp(s, x),
        forall|x: usize, day: int|
            #[trigger] appears_on_day(s.push(e).drop_last(), x, day, cfg) == appears_on_day(
                s,
                x,
                day,
                cfg,
            ),
{
    assert(s.push(e).drop_last() =~= s);
}

/// Preference bias: if two employees are both eligible for the slot being
/// filled and they differ in that the first prefers the current shift on the
/// current day while the second does not, then the candidate order tries the
/// preferring employee first.
pub proof fn lemma_preference_bias(
    r: Seq<usize>,
    s: Seq<usize>,
    employees: Seq<Employee>,
    day: usize,
    shift: usize,
    cfg: Config,
    a: usize,
    b: usize,
    ka: int,
    kb: int,
)
    requires
        is_ranked_order(r, s, employees, day, shift, cfg),
        eligible(s, a, day as int, cfg),
        eligible(s, b, day as int, cfg),
        prefers(employees, a, day, shift),
        !prefers(employees, b, day, shift),
        0 <= ka < r.len(),
        r[ka] == a,
        0 <= kb < r.len(),
        r[kb] == b,
    ensures
        ka < kb,
{
    if kb < ka {
        assert(rank_before(employees, r[kb], r[ka], day, shift));
        assert(false);
    }
    if ka == kb {
        assert(false);
    }
}

} // verus!
