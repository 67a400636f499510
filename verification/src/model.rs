//! Data model of the scheduler and the mathematical view of a schedule.
//!
//! A schedule is held as one flat vector of employee indices, filled in
//! lexicographic slot order (day, then shift, then capacity slot). The slot
//! for day `d`, shift `s`, capacity position `k` lives at flat position
//! `d * num_shifts * capacity + s * capacity + k`, so a partial schedule is
//! always a prefix of the full slot space and assigning or undoing one slot
//! is a push or a pop at the end.

use vstd::arithmetic::div_mod::lemma_fundamental_div_mod_converse;
use vstd::prelude::*;

verus! {

/// Calendar configuration: how many days and shifts exist, how many
/// employees each (day, shift) pair takes, and the per-employee cap on
/// worked days.
pub struct Config {
    pub num_days: usize,
    pub num_shifts: usize,
    pub capacity: usize,
    pub max_days: usize,
}

impl Config {
    /// Number of flat slot positions taken by one day.
    pub open spec fn day_len(self) -> int {
        self.num_shifts * self.capacity
    }

    /// Total number of slot positions of the whole calendar.
    pub open spec fn total_slots(self) -> int {
        self.num_days * self.day_len()
    }

    /// Well-formed configuration: at least one shift per day, and the slot
    /// space fits in a `usize`.
    pub open spec fn wf(self) -> bool {
        &&& self.num_shifts >= 1
        &&& self.total_slots() <= usize::MAX
    }
}

/// One employee: a name and, for each day, at most one preferred shift.
/// `prefs[d] == Some(s)` means the employee prefers shift `s` on day `d`;
/// a missing or `None` entry means no preference for that day.
pub struct Employee {
    pub name: String,
    pub prefs: Vec<Option<usize>>,
}

/// A (possibly partial) schedule: the employee index assigned to each flat
/// slot position, in lexicographic slot order.
pub struct Schedule {
    pub assigned: Vec<usize>,
}

impl View for Schedule {
    type V = Seq<usize>;

    open spec fn view(&self) -> Seq<usize> {
        self.assigned@
    }
}

/// Flat position of the slot at `(day, shift, slot)`.
pub open spec fn slot_pos(day: int, shift: int, slot: int, cfg: Config) -> int {
    day * cfg.day_len() + shift * cfg.capacity + slot
}

/// Day that flat position `p` belongs to.
pub open spec fn day_of_pos(p: int, cfg: Config) -> int {
    p / cfg.day_len()
}

/// Number of slots of `s` that hold employee `e`. Because a well-formed
/// schedule books an employee at most once per day, this is also the number
/// of days the employee works.
pub open spec fn count_emp(s: Seq<usize>, e: usize) -> nat
    decreases s.len(),
{
    if s.len() == 0 {
        0
    } else {
        count_emp(s.drop_last(), e) + if s.last() == e {
            1nat
        } else {
            0nat
        }
    }
}

/// Employee `e` already holds some slot of day `day` in `s`.
pub open spec fn appears_on_day(s: Seq<usize>, e: usize, day: int, cfg: Config) -> bool {
    exists|p: int| 0 <= p < s.len() && #[trigger] day_of_pos(p, cfg) == day && s[p] == e
}

/// Every assigned slot holds an index of the roster.
pub open spec fn respects_bounds(s: Seq<usize>, n: int) -> bool {
    forall|p: int| 0 <= p < s.len() ==> (#[trigger] s[p]) < n
}

/// No employee holds two slots of the same day.
pub open spec fn no_double_booking(s: Seq<usize>, cfg: Config) -> bool {
    forall|p: int, q: int|
        0 <= p < q < s.len() && day_of_pos(p, cfg) == day_of_pos(q, cfg) ==> #[trigger] s[p]
            != #[trigger] s[q]
}

/// No employee holds more slots than the configured maximum of worked days.
pub open spec fn respects_workload(s: Seq<usize>, cfg: Config) -> bool {
    forall|e: usize| #[trigger] count_emp(s, e) <= cfg.max_days
}

/// A partial schedule reached by the search: a prefix of the slot space in
/// which all three hard constraints hold.
pub open spec fn wf_partial(s: Seq<usize>, n: int, cfg: Config) -> bool {
    &&& s.len() <= cfg.total_slots()
    &&& respects_bounds(s, n)
    &&& no_double_booking(s, cfg)
    &&& respects_workload(s, cfg)
}

/// A complete valid schedule: every slot of every (day, shift) pair is
/// filled and all hard constraints hold.
pub open spec fn valid_schedule(s: Seq<usize>, n: int, cfg: Config) -> bool {
    &&& s.len() == cfg.total_slots()
    &&& respects_bounds(s, n)
    &&& no_double_booking(s, cfg)
    &&& respects_workload(s, cfg)
}

/// `t` agrees with `s` on every position `s` has filled.
pub open spec fn extends(t: Seq<usize>, s: Seq<usize>) -> bool {
    &&& s.len() <= t.len()
    &&& forall|p: int| 0 <= p < s.len() ==> t[p] == s[p]
}

/// Some complete valid schedule extends the partial schedule `s`.
pub open spec fn completable(s: Seq<usize>, n: int, cfg: Config) -> bool {
    exists|t: Seq<usize>| #[trigger] extends(t, s) && valid_schedule(t, n, cfg)
}

/// Employee `e` may take a slot of day `day` given partial schedule `s`:
/// the workload cap is not yet reached and the employee does not already
/// hold a slot of that day. These are the hard constraints; they are never
/// relaxed.
pub open spec fn eligible(s: Seq<usize>, e: usize, day: int, cfg: Config) -> bool {
    &&& count_emp(s, e) < cfg.max_days
    &&& !appears_on_day(s, e, day, cfg)
}

/// Employee `e` prefers shift `shift` on day `day`. Days beyond the
/// employee's preference list carry no preference.
pub open spec fn prefers(employees: Seq<Employee>, e: usize, day: usize, shift: usize) -> bool {
    &&& e < employees.len()
    &&& day < employees[e as int].prefs@.len()
    &&& employees[e as int].prefs@[day as int] == Some(shift)
}

/// Preference rank of employee `e` for the slot being filled: employees
/// whose preference names the current shift on the current day sort before
/// all others.
pub open spec fn pref_rank(employees: Seq<Employee>, e: usize, day: usize, shift: usize) -> int {
    if prefers(employees, e, day, shift) {
        0
    } else {
        1
    }
}

/// `a` is tried before `b` at the current slot: either `a` has the better
/// preference rank, or the ranks tie and `a` comes first in the roster.
pub open spec fn rank_before(
    employees: Seq<Employee>,
    a: usize,
    b: usize,
    day: usize,
    shift: usize,
) -> bool {
    ||| pref_rank(employees, a, day, shift) < pref_rank(employees, b, day, shift)
    ||| (pref_rank(employees, a, day, shift) == pref_rank(employees, b, day, shift) && a < b)
}

/// `r` is the candidate order for the slot at `(day, shift)` under partial
/// schedule `s`: exactly the eligible employees, preference matches first,
/// ties broken by roster order.
pub open spec fn is_ranked_order(
    r: Seq<usize>,
    s: Seq<usize>,
    employees: Seq<Employee>,
    day: usize,
    shift: usize,
    cfg: Config,
) -> bool {
    &&& forall|k: int|
        0 <= k < r.len() ==> (#[trigger] r[k]) < employees.len() && eligible(s, r[k], day as int, cfg)
    &&& forall|e: usize|
        e < employees.len() && #[trigger] eligible(s, e, day as int, cfg) ==> r.contains(e)
    &&& forall|k1: int, k2: int|
        0 <= k1 < k2 < r.len() ==> rank_before(employees, #[trigger] r[k1], #[trigger] r[k2], day, shift)
}

/// Cursor position of the search: `(day, shift, slot)` with `slot` allowed
/// to sit one past the last capacity position (about to roll over), and
/// `day` allowed to sit one past the last day (search complete).
pub open spec fn cursor_wf(day: usize, shift: usize, slot: usize, cfg: Config) -> bool {
    if day == cfg.num_days {
        shift == 0 && slot == 0
    } else {
        day < cfg.num_days && shift < cfg.num_shifts && slot <= cfg.capacity
    }
}

/// Flat position the cursor stands at; every earlier slot is filled.
pub open spec fn cursor_pos(day: usize, shift: usize, slot: usize, cfg: Config) -> int {
    slot_pos(day as int, shift as int, slot as int, cfg)
}

/// The slot at `(day, shift, slot)` lies within day `day`'s block of flat
/// positions and within the total slot space.
pub proof fn lemma_slot_pos_in_day(day: usize, shift: usize, slot: usize, cfg: Config)
    requires
        day < cfg.num_days,
        shift < cfg.num_shifts,
        slot < cfg.capacity,
    ensures
        0 <= shift as int * cfg.capacity,
        0 <= day as int * cfg.day_len(),
        cfg.day_len() <= cfg.total_slots(),
        day as int * cfg.day_len() <= slot_pos(day as int, shift as int, slot as int, cfg),
        slot_pos(day as int, shift as int, slot as int, cfg) < day as int * cfg.day_len()
            + cfg.day_len(),
        slot_pos(day as int, shift as int, slot as int, cfg) < cfg.total_slots(),
        day_of_pos(slot_pos(day as int, shift as int, slot as int, cfg), cfg) == day as int,
{
    let dl = cfg.day_len();
    let off = shift as int * cfg.capacity + slot as int;
    assert(0 <= shift as int * cfg.capacity && off < dl) by (nonlinear_arith)
        requires
            dl == cfg.num_shifts * cfg.capacity,
            0 <= (shift as int) && (shift as int) < cfg.num_shifts,
            0 <= (slot as int) && (slot as int) < cfg.capacity,
            off == shift as int * cfg.capacity + slot as int,
    ;
    assert(0 <= day as int * dl && day as int * dl + dl <= cfg.num_days * dl) by (nonlinear_arith)
        requires
            0 <= (day as int) && (day as int) < cfg.num_days,
            dl >= 1,
    ;
    lemma_fundamental_div_mod_converse(
        slot_pos(day as int, shift as int, slot as int, cfg),
        dl,
        day as int,
        off,
    );
}

impl Schedule {
    /// Employee index assigned to capacity position `slot` of `(day, shift)`
    /// in a complete schedule.
    pub fn assignment(&self, cfg: &Config, day: usize, shift: usize, slot: usize) -> (e: usize)
        requires
            day < cfg.num_days,
            shift < cfg.num_shifts,
            slot < cfg.capacity,
            self@.len() == cfg.total_slots(),
            cfg.total_slots() <= usize::MAX,
        ensures
            e == self@[slot_pos(day as int, shift as int, slot as int, *cfg)],
    {
        proof {
            lemma_slot_pos_in_day(day, shift, slot, *cfg);
        }
        let day_len = cfg.num_shifts * cfg.capacity;
        let pos = day * day_len + shift * cfg.capacity + slot;
        self.assigned[pos]
    }

    /// The employees assigned to `(day, shift)`, in assignment order. The
    /// returned vector's length is exactly the configured shift capacity.
    #[verifier::loop_isolation(false)]
    pub fn shift_assignments(&self, cfg: &Config, day: usize, shift: usize) -> (r: Vec<usize>)
        requires
            day < cfg.num_days,
            shift < cfg.num_shifts,
            self@.len() == cfg.total_slots(),
            cfg.total_slots() <= usize::MAX,
        ensures
            r@.len() == cfg.capacity,
            forall|k: int|
                0 <= k < cfg.capacity ==> r@[k] == self@[slot_pos(
                    day as int,
                    shift as int,
                    k,
                    *cfg,
                )],
    {
        let mut r: Vec<usize> = Vec::new();
        let mut k: usize = 0;
        while k < cfg.capacity
            invariant
                k <= cfg.capacity,
                r@.len() == k,
                forall|j: int|
                    0 <= j < k ==> r@[j] == self@[slot_pos(day as int, shift as int, j, *cfg)],
            decreases cfg.capacity - k,
        {
            let ghost r_old = r@;
            let e = self.assignment(cfg, day, shift, k);
            r.push(e);
            proof {
                assert forall|j: int|
                    0 <= j < r@.len() implies r@[j] == self@[slot_pos(
                        day as int,
                        shift as int,
                        j,
                        *cfg,
                    )] by {
                    if j < r_old.len() {
                        assert(r_old.push(e)[j] == r_old[j]);
                    } else {
                        assert(r_old.push(e)[j] == e);
                    }
                }
            }
            k = k + 1;
        }
        r
    }

    /// The names of the employees assigned to `(day, shift)`, in assignment
    /// order.
    #[verifier::loop_isolation(false)]
    pub fn shift_names(
        &self,
        employees: &Vec<Employee>,
        cfg: &Config,
        day: usize,
        shift: usize,
    ) -> (names: Vec<String>)
        requires
            day < cfg.num_days,
            shift < cfg.num_shifts,
            self@.len() == cfg.total_slots(),
            cfg.total_slots() <= usize::MAX,
            respects_bounds(self@, employees@.len() as int),
        ensures
            names@.len() == cfg.capacity,
            forall|k: int|
                0 <= k < cfg.capacity ==> names@[k] == employees@[self@[slot_pos(
                    day as int,
                    shift as int,
                    k,
                    *cfg,
                )] as int].name,
    {
        let idxs = self.shift_assignments(cfg, day, shift);
        let mut names: Vec<String> = Vec::new();
        let mut k: usize = 0;
        while k < idxs.len()
            invariant
                k <= idxs.len(),
                names@.len() == k,
                forall|j: int|
                    0 <= j < k ==> names@[j] == employees@[self@[slot_pos(
                        day as int,
                        shift as int,
                        j,
                        *cfg,
                    )] as int].name,
            decreases idxs.len() - k,
        {
            let ghost names_old = names@;
            let e = idxs[k];
            proof {
                lemma_slot_pos_in_day(day, shift, k, *cfg);
                assert(self@[slot_pos(day as int, shift as int, k as int, *cfg)]
                    < employees@.len());
            }
            let name = employees[e].name.clone();
            let ghost nm = name;
            names.push(name);
            proof {
                assert forall|j: int|
                    0 <= j < names@.len() implies names@[j] == employees@[self@[slot_pos(
                        day as int,
                        shift as int,
                        j,
                        *cfg,
                    )] as int].name by {
                    if j < names_old.len() {
                        assert(names_old.push(nm)[j] == names_old[j]);
                    } else {
                        assert(names_old.push(nm)[j] == nm);
                    }
                }
            }
            k = k + 1;
        }
        names
    }
}

/// Appending one assignment adds one occurrence of the assigned employee
/// and leaves every other count unchanged.
pub proof fn lemma_count_push(s: Seq<usize>, v: usize, e: usize)
    ensures
        count_emp(s.push(v), e) == count_emp(s, e) + if v == e {
            1int
        } else {
            0int
        },
{
    assert(s.push(v).drop_last() =~= s);
    assert(s.push(v).last() == v);
}

/// One step of counting along a prefix.
pub proof fn lemma_count_take_succ(s: Seq<usize>, i: int, e: usize)
    requires
        0 <= i < s.len(),
    ensures
        count_emp(s.take(i + 1), e) == count_emp(s.take(i), e) + if s[i] == e {
            1int
        } else {
            0int
        },
{
    assert(s.take(i + 1).drop_last() =~= s.take(i));
    assert(s.take(i + 1).last() == s[i]);
}

/// A prefix never holds more occurrences than the whole sequence.
pub proof fn lemma_count_prefix_le(s: Seq<usize>, i: int, e: usize)
    requires
        0 <= i <= s.len(),
    ensures
        count_emp(s.take(i), e) <= count_emp(s, e),
    decreases s.len() - i,
{
    if i == s.len() {
        assert(s.take(i) =~= s);
    } else {
        lemma_count_take_succ(s, i, e);
        lemma_count_prefix_le(s, i + 1, e);
    }
}

} // verus!
