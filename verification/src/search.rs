//! The backtracking search: eligibility filter, preference ranking, and the
//! recursive assign/undo loop.

use vstd::arithmetic::div_mod::lemma_div_is_ordered;
use vstd::arithmetic::div_mod::lemma_fundamental_div_mod_converse;
use vstd::prelude::*;

use crate::model::appears_on_day;
use crate::model::completable;
use crate::model::count_emp;
use crate::model::cursor_pos;
use crate::model::cursor_wf;
use crate::model::day_of_pos;
use crate::model::eligible;
use crate::model::extends;
use crate::model::is_ranked_order;
use crate::model::lemma_count_prefix_le;
use crate::model::lemma_count_push;
use crate::model::lemma_count_take_succ;
use crate::model::lemma_slot_pos_in_day;
use crate::model::pref_rank;
use crate::model::prefers;
use crate::model::rank_before;
use crate::model::valid_schedule;
use crate::model::wf_partial;
use crate::model::Config;
use crate::model::Employee;
use crate::model::Schedule;

verus! {

/// Positions at or after `day_start` and before the end of the partial
/// schedule are exactly the filled positions of day `day`.
proof fn lemma_day_window(len: int, day: usize, day_start: int, cfg: Config)
    requires
        cfg.num_shifts >= 1,
        cfg.capacity >= 1,
        day_start == day * cfg.day_len(),
        day_start <= len <= day_start + cfg.day_len(),
    ensures
        forall|q: int| 0 <= q < len ==> (day_of_pos(q, cfg) == day as int <==> q >= day_start),
{
    let dl = cfg.day_len();
    assert(dl >= 1) by (nonlinear_arith)
        requires
            dl == cfg.num_shifts * cfg.capacity,
            cfg.num_shifts >= 1,
            cfg.capacity >= 1,
    ;
    assert forall|q: int| 0 <= q < len implies (day_of_pos(q, cfg) == day as int <==> q
        >= day_start) by {
        if q >= day_start {
            lemma_fundamental_div_mod_converse(q, dl, day as int, q - day_start);
        } else {
            assert(day as int >= 1) by (nonlinear_arith)
                requires
                    day_start == day as int * dl,
                    day_start >= 1,
                    dl >= 1,
                    day as int >= 0,
            ;
            assert((day as int - 1) * dl + (dl - 1) == day as int * dl - 1) by (nonlinear_arith);
            lemma_div_is_ordered(q, day as int * dl - 1, dl);
            lemma_fundamental_div_mod_converse(day as int * dl - 1, dl, day as int - 1, dl - 1);
        }
    }
}

/// Whether employee `e` may take a slot of day `day` under the current
/// partial schedule: the workload cap is not reached and the employee holds
/// no slot of this day yet.
fn is_eligible(schedule: &Schedule, e: usize, day: usize, day_start: usize, cfg: &Config) -> (b:
    bool)
    requires
        day_start == day * cfg.day_len(),
        day_start <= schedule@.len(),
        forall|q: int|
            0 <= q < schedule@.len() ==> (day_of_pos(q, *cfg) == day as int <==> q >= day_start),
    ensures
        b == eligible(schedule@, e, day as int, *cfg),
{
    let s = &schedule.assigned;
    let len = s.len();

    let mut worked: usize = 0;
    let mut j: usize = 0;
    while j < len
        invariant
            j <= len,
            len == s@.len(),
            worked == count_emp(s@.take(j as int), e),
            worked <= j,
        decreases len - j,
    {
        proof {
            lemma_count_take_succ(s@, j as int, e);
        }
        if s[j] == e {
            worked = worked + 1;
        }
        j = j + 1;
    }
    proof {
        assert(s@.take(len as int) =~= s@);
    }

    let mut booked_today = false;
    let mut q: usize = day_start;
    while q < len
        invariant
            day_start <= q <= len,
            len == s@.len(),
            !booked_today ==> forall|p: int| day_start <= p < q ==> s@[p] != e,
            booked_today ==> exists|p: int|
                day_start <= p < len && #[trigger] day_of_pos(p, *cfg) == day as int && s@[p] == e,
            forall|p: int|
                0 <= p < s@.len() ==> (day_of_pos(p, *cfg) == day as int <==> p >= day_start),
        decreases len - q,
    {
        if s[q] == e {
            proof {
                assert(day_of_pos(q as int, *cfg) == day as int);
            }
            booked_today = true;
        }
        q = q + 1;
    }
    proof {
        if booked_today {
            assert(appears_on_day(s@, e, day as int, *cfg));
        } else {
            if appears_on_day(s@, e, day as int, *cfg) {
                let p = choose|p: int|
                    0 <= p < s@.len() && #[trigger] day_of_pos(p, *cfg) == day as int && s@[p] == e;
                assert(p >= day_start);
                assert(false);
            }
        }
    }

    worked < cfg.max_days && !booked_today
}

/// Whether employee `e`'s recorded preference for `day` names `shift`.
fn preference_matches(employees: &Vec<Employee>, e: usize, day: usize, shift: usize) -> (b: bool)
    requires
        e < employees@.len(),
    ensures
        b == prefers(employees@, e, day, shift),
{
    let emp = &employees[e];
    if day < emp.prefs.len() {
        match emp.prefs[day] {
            Some(preferred) => preferred == shift,
            None => false,
        }
    } else {
        false
    }
}

/// The candidates for the current slot: every eligible employee, employees
/// preferring the current shift on the current day first, ties in roster
/// order (a stable two-bucket partition of the eligible set).
fn ranked_candidates(
    employees: &Vec<Employee>,
    schedule: &Schedule,
    day: usize,
    shift: usize,
    day_start: usize,
    cfg: &Config,
) -> (r: Vec<usize>)
    requires
        day_start == day * cfg.day_len(),
        day_start <= schedule@.len(),
        forall|q: int|
            0 <= q < schedule@.len() ==> (day_of_pos(q, *cfg) == day as int <==> q >= day_start),
    ensures
        is_ranked_order(r@, schedule@, employees@, day, shift, *cfg),
{
    let n = employees.len();
    let mut r: Vec<usize> = Vec::new();

    let mut e: usize = 0;
    while e < n
        invariant
            e <= n,
            n == employees@.len(),
            day_start == day * cfg.day_len(),
            day_start <= schedule@.len(),
            forall|q: int|
                0 <= q < schedule@.len() ==> (day_of_pos(q, *cfg) == day as int <==> q
                    >= day_start),
            forall|k: int|
                0 <= k < r@.len() ==> (#[trigger] r@[k]) < e && eligible(
                    schedule@,
                    r@[k],
                    day as int,
                    *cfg,
                ) && prefers(employees@, r@[k], day, shift),
            forall|k1: int, k2: int| 0 <= k1 < k2 < r@.len() ==> r@[k1] < r@[k2],
            forall|x: usize|
                x < e && #[trigger] eligible(schedule@, x, day as int, *cfg) && prefers(
                    employees@,
                    x,
                    day,
                    shift,
                ) ==> r@.contains(x),
        decreases n - e,
    {
        let ghost r_old = r@;
        if preference_matches(employees, e, day, shift) && is_eligible(
            schedule,
            e,
            day,
            day_start,
            cfg,
        ) {
            r.push(e);
            proof {
                assert(r@ == r_old.push(e));
                assert forall|k: int| 0 <= k < r_old.len() implies r@[k] == r_old[k] by {
                    assert(r_old.push(e)[k] == r_old[k]);
                }
                assert forall|x: usize| r_old.contains(x) implies r@.contains(x) by {
                    let k = choose|k: int| 0 <= k < r_old.len() && r_old[k] == x;
                    assert(r@[k] == x);
                }
                assert(r@[r@.len() - 1] == e);
            }
        }
        e = e + 1;
    }

    let ghost m = r@.len() as int;
    let ghost r_pref = r@;

    let mut e2: usize = 0;
    while e2 < n
        invariant
            e2 <= n,
            n == employees@.len(),
            day_start == day * cfg.day_len(),
            day_start <= schedule@.len(),
            forall|q: int|
                0 <= q < schedule@.len() ==> (day_of_pos(q, *cfg) == day as int <==> q
                    >= day_start),
            0 <= m <= r@.len(),
            forall|k: int|
                0 <= k < r@.len() ==> (#[trigger] r@[k]) < n && eligible(
                    schedule@,
                    r@[k],
                    day as int,
                    *cfg,
                ),
            forall|k: int| 0 <= k < m ==> prefers(employees@, #[trigger] r@[k], day, shift),
            forall|k: int|
                m <= k < r@.len() ==> !prefers(employees@, #[trigger] r@[k], day, shift) && r@[k]
                    < e2,
            forall|k1: int, k2: int| 0 <= k1 < k2 < m ==> r@[k1] < r@[k2],
            forall|k1: int, k2: int| m <= k1 < k2 < r@.len() ==> r@[k1] < r@[k2],
            forall|x: usize|
                x < n && #[trigger] eligible(schedule@, x, day as int, *cfg) && prefers(
                    employees@,
                    x,
                    day,
                    shift,
                ) ==> r@.contains(x),
            forall|x: usize|
                x < e2 && #[trigger] eligible(schedule@, x, day as int, *cfg) && !prefers(
                    employees@,
                    x,
                    day,
                    shift,
                ) ==> r@.contains(x),
        decreases n - e2,
    {
        let ghost r_old = r@;
        if !preference_matches(employees, e2, day, shift) && is_eligible(
            schedule,
            e2,
            day,
            day_start,
            cfg,
        ) {
            r.push(e2);
            proof {
                assert(r@ == r_old.push(e2));
                assert forall|k: int| 0 <= k < r_old.len() implies r@[k] == r_old[k] by {
                    assert(r_old.push(e2)[k] == r_old[k]);
                }
                assert forall|x: usize| r_old.contains(x) implies r@.contains(x) by {
                    let k = choose|k: int| 0 <= k < r_old.len() && r_old[k] == x;
                    assert(r@[k] == x);
                }
                assert(r@[r@.len() - 1] == e2);
                assert(!prefers(employees@, e2, day, shift));
                assert forall|k: int|
                    m <= k < r@.len() implies !prefers(employees@, r@[k], day, shift) && r@[k] < e2
                    + 1 by {
                    if k < r_old.len() {
                        assert(r_old.push(e2)[k] == r_old[k]);
                    } else {
                        assert(r_old.push(e2)[k] == e2);
                    }
                }
                assert forall|k1: int, k2: int| m <= k1 < k2 < r@.len() implies r@[k1] < r@[k2] by {
                    assert(r_old.push(e2)[k1] == r_old[k1]);
                    if k2 < r_old.len() {
                        assert(r_old.push(e2)[k2] == r_old[k2]);
                    } else {
                        assert(r_old.push(e2)[k2] == e2);
                    }
                }
            }
        }
        e2 = e2 + 1;
    }

    proof {
        assert forall|k1: int, k2: int| 0 <= k1 < k2 < r@.len() implies rank_before(
            employees@,
            r@[k1],
            r@[k2],
            day,
            shift,
        ) by {
            if k2 < m {
            } else if k1 >= m {
            } else {
                assert(pref_rank(employees@, r@[k1], day, shift) == 0);
                assert(pref_rank(employees@, r@[k2], day, shift) == 1);
            }
        }
    }
    r
}

/// The recursive backtracking search. The cursor `(day_index, shift_index,
/// slot_index)` walks the slot space in lexicographic order; every slot
/// before the cursor is filled. On success the schedule is complete and
/// valid. On failure the schedule is restored exactly to its state at entry,
/// and no complete valid schedule extending that state exists at all, so a
/// failure report is never a false negative.
#[verifier::loop_isolation(false)]
pub fn backtrack(
    day_index: usize,
    shift_index: usize,
    slot_index: usize,
    employees: &Vec<Employee>,
    schedule: &mut Schedule,
    cfg: &Config,
) -> (found: bool)
    requires
        cfg.wf(),
        cursor_wf(day_index, shift_index, slot_index, *cfg),
        old(schedule)@.len() == cursor_pos(day_index, shift_index, slot_index, *cfg),
        wf_partial(old(schedule)@, employees@.len() as int, *cfg),
    ensures
        found ==> valid_schedule(final(schedule)@, employees@.len() as int, *cfg) && extends(
            final(schedule)@,
            old(schedule)@,
        ),
        !found ==> final(schedule)@ == old(schedule)@,
        !found ==> !completable(old(schedule)@, employees@.len() as int, *cfg),
    decreases cfg.num_days - day_index, cfg.num_shifts - shift_index, cfg.capacity - slot_index,
{
    let ghost n = employees@.len() as int;

    if day_index == cfg.num_days {
        proof {
            assert(shift_index as int * cfg.capacity == 0) by (nonlinear_arith)
                requires
                    shift_index == 0,
            ;
            assert(schedule@.len() == cfg.total_slots());
            assert(extends(schedule@, schedule@));
        }
        return true;
    }

    if slot_index == cfg.capacity {
        if shift_index + 1 < cfg.num_shifts {
            proof {
                assert((shift_index + 1) as int * cfg.capacity == shift_index as int
                    * cfg.capacity + cfg.capacity) by (nonlinear_arith);
            }
            let found = backtrack(day_index, shift_index + 1, 0, employees, schedule, cfg);
            return found;
        } else {
            proof {
                assert(shift_index as int * cfg.capacity + cfg.capacity == cfg.day_len())
                    by (nonlinear_arith)
                    requires
                        shift_index + 1 == cfg.num_shifts,
                ;
                assert((day_index + 1) as int * cfg.day_len() == day_index as int * cfg.day_len()
                    + cfg.day_len()) by (nonlinear_arith);
            }
            let found = backtrack(day_index + 1, 0, 0, employees, schedule, cfg);
            return found;
        }
    }

    // slot_index < capacity: fill the slot at the cursor.
    let ghost s0 = schedule@;
    let ghost p = s0.len() as int;

    proof {
        lemma_slot_pos_in_day(day_index, shift_index, slot_index, *cfg);
    }
    let day_len = cfg.num_shifts * cfg.capacity;
    let day_start = day_index * day_len;
    proof {
        lemma_day_window(p, day_index, day_start as int, *cfg);
    }

    let cands = ranked_candidates(employees, schedule, day_index, shift_index, day_start, cfg);

    let mut idx: usize = 0;
    while idx < cands.len()
        invariant
            idx <= cands@.len(),
            schedule@ == s0,
            forall|j: int| 0 <= j < idx ==> !completable(s0.push(#[trigger] cands@[j]), n, *cfg),
        decreases cands@.len() - idx,
    {
        let e = cands[idx];
        proof {
            assert(cands@[idx as int] < employees@.len() && eligible(s0, e, day_index as int, *cfg));
            let s1 = s0.push(e);
            assert forall|q: int| 0 <= q < s1.len() implies (#[trigger] s1[q]) < n by {
                if q < p {
                    assert(s0.push(e)[q] == s0[q]);
                } else {
                    assert(s0.push(e)[q] == e);
                }
            }
            assert forall|q1: int, q2: int|
                0 <= q1 < q2 < s1.len() && day_of_pos(q1, *cfg) == day_of_pos(q2, *cfg) implies (
            #[trigger] s1[q1]) != (#[trigger] s1[q2]) by {
                assert(s0.push(e)[q1] == s0[q1]);
                if q2 < p {
                    assert(s0.push(e)[q2] == s0[q2]);
                } else {
                    assert(s0.push(e)[q2] == e);
                    if s0[q1] == e {
                        assert(appears_on_day(s0, e, day_index as int, *cfg));
                        assert(false);
                    }
                }
            }
            assert forall|y: usize| #[trigger] count_emp(s1, y) <= cfg.max_days by {
                lemma_count_push(s0, e, y);
            }
            assert(wf_partial(s1, n, *cfg));
        }
        schedule.assigned.push(e);
        if backtrack(day_index, shift_index, slot_index + 1, employees, schedule, cfg) {
            proof {
                assert forall|q: int| 0 <= q < s0.len() implies schedule@[q] == s0[q] by {
                    assert(s0.push(e)[q] == s0[q]);
                }
                assert(extends(schedule@, s0));
            }
            return true;
        }
        let _ = schedule.assigned.pop();
        proof {
            assert(schedule@ =~= s0);
            assert(!completable(s0.push(cands@[idx as int]), n, *cfg));
        }
        idx = idx + 1;
    }

    proof {
        if completable(s0, n, *cfg) {
            let t = choose|t: Seq<usize>| #[trigger] extends(t, s0) && valid_schedule(t, n, *cfg);
            let x = t[p];
            assert(t[p] < n);
            // The workload cap still has room for x in s0.
            assert(s0 =~= t.take(p));
            lemma_count_take_succ(t, p, x);
            lemma_count_prefix_le(t, p + 1, x);
            assert(count_emp(t, x) <= cfg.max_days);
            assert(count_emp(s0, x) < cfg.max_days);
            // x does not already work the cursor's day in s0.
            if appears_on_day(s0, x, day_index as int, *cfg) {
                let q = choose|q: int|
                    0 <= q < s0.len() && #[trigger] day_of_pos(q, *cfg) == day_index as int
                        && s0[q] == x;
                assert(t[q] == x);
                assert(false);
            }
            assert(eligible(s0, x, day_index as int, *cfg));
            // So x was one of the ranked candidates, and the loop showed that
            // assigning x admits no completion; but t is such a completion.
            assert(cands@.contains(x));
            let j = choose|j: int| 0 <= j < cands@.len() && cands@[j] == x;
            assert(!completable(s0.push(cands@[j]), n, *cfg));
            assert forall|q: int| 0 <= q < s0.push(x).len() implies t[q] == s0.push(x)[q] by {
                if q < p {
                    assert(s0.push(x)[q] == s0[q]);
                } else {
                    assert(s0.push(x)[q] == x);
                }
            }
            assert(extends(t, s0.push(x)));
            assert(completable(s0.push(x), n, *cfg));
            assert(false);
        }
    }
    false
}

/// The standard week: seven days of three shifts, two employees per shift,
/// at most five worked days per employee.
pub fn week_config() -> (cfg: Config)
    ensures
        cfg.num_days == 7,
        cfg.num_shifts == 3,
        cfg.capacity == 2,
        cfg.max_days == 5,
        cfg.wf(),
        cfg.total_slots() == 42,
{
    Config { num_days: 7, num_shifts: 3, capacity: 2, max_days: 5 }
}

/// Run the whole search on an empty schedule. Returns a complete valid
/// schedule whenever one exists for the roster and calendar, and `None`
/// only if no complete valid schedule exists at all.
pub fn solve(employees: &Vec<Employee>, cfg: &Config) -> (result: Option<Schedule>)
    requires
        cfg.wf(),
    ensures
        match result {
            Some(schedule) => valid_schedule(schedule@, employees@.len() as int, *cfg),
            None => !(exists|t: Seq<usize>|
                #[trigger] valid_schedule(t, employees@.len() as int, *cfg)),
        },
{
    let ghost n = employees@.len() as int;
    let mut schedule = Schedule { assigned: Vec::new() };
    proof {
        assert(0 <= cfg.num_days as int * (cfg.num_shifts as int * cfg.capacity as int))
            by (nonlinear_arith);
        assert(schedule@ =~= Seq::<usize>::empty());
        assert forall|e: usize| #[trigger] count_emp(schedule@, e) <= cfg.max_days by {
            assert(count_emp(schedule@, e) == 0);
        }
        assert(wf_partial(schedule@, n, *cfg));
    }
    let found = backtrack(0, 0, 0, employees, &mut schedule, cfg);
    if found {
        Some(schedule)
    } else {
        proof {
            if exists|t: Seq<usize>| #[trigger] valid_schedule(t, n, *cfg) {
                let t = choose|t: Seq<usize>| #[trigger] valid_schedule(t, n, *cfg);
                assert(extends(t, Seq::<usize>::empty()));
                assert(completable(Seq::<usize>::empty(), n, *cfg));
                assert(false);
            }
        }
        None
    }
}

} // verus!
