use shift_scheduler::week_config;
use shift_scheduler::Config;
use shift_scheduler::Employee;
use shift_scheduler::Schedule;

fn emp(name: &str, prefs: Vec<Option<usize>>) -> Employee {
    Employee { name: name.to_string(), prefs }
}

fn plain_roster(count: usize) -> Vec<Employee> {
    let mut roster = Vec::new();
    for i in 0..count {
        roster.push(emp(&format!("e{}", i), Vec::new()));
    }
    roster
}

fn day_assignments(schedule: &Schedule, cfg: &Config, day: usize) -> Vec<usize> {
    let mut out = Vec::new();
    for shift in 0..cfg.num_shifts {
        for e in schedule.shift_assignments(cfg, day, shift) {
            out.push(e);
        }
    }
    out
}

#[test]
fn full_roster_yields_complete_schedule() {
    let cfg = week_config();
    let roster = plain_roster(42);
    let schedule = shift_scheduler::solve(&roster, &cfg).expect("42 employees fill 42 slots");
    assert_eq!(schedule.assigned.len(), 42);
    for day in 0..cfg.num_days {
        for shift in 0..cfg.num_shifts {
            let slot = schedule.shift_assignments(&cfg, day, shift);
            assert_eq!(slot.len(), 2);
            assert_ne!(slot[0], slot[1]);
        }
        let on_day = day_assignments(&schedule, &cfg, day);
        for i in 0..on_day.len() {
            for j in 0..i {
                assert_ne!(on_day[i], on_day[j], "employee booked twice on day {}", day);
            }
        }
    }
}

#[test]
fn workload_cap_holds_across_week() {
    let cfg = week_config();
    let roster = plain_roster(42);
    let schedule = shift_scheduler::solve(&roster, &cfg).expect("feasible roster");
    let mut worked = vec![0usize; roster.len()];
    for &e in &schedule.assigned {
        worked[e] += 1;
    }
    for (e, &w) in worked.iter().enumerate() {
        assert!(w <= cfg.max_days, "employee {} works {} days", e, w);
    }
}

#[test]
fn too_few_employees_infeasible() {
    let cfg = week_config();
    let roster = plain_roster(3);
    assert!(shift_scheduler::solve(&roster, &cfg).is_none());
}

#[test]
fn empty_roster_infeasible() {
    let cfg = week_config();
    let roster: Vec<Employee> = Vec::new();
    assert!(shift_scheduler::solve(&roster, &cfg).is_none());
}

#[test]
fn zero_capacity_trivially_succeeds() {
    let cfg = Config { num_days: 7, num_shifts: 3, capacity: 0, max_days: 0 };
    let roster: Vec<Employee> = Vec::new();
    let schedule = shift_scheduler::solve(&roster, &cfg).expect("no slots to fill");
    assert_eq!(schedule.assigned.len(), 0);
}

#[test]
fn single_slot_single_employee() {
    let cfg = Config { num_days: 1, num_shifts: 1, capacity: 1, max_days: 1 };
    let roster = vec![emp("only", Vec::new())];
    let schedule = shift_scheduler::solve(&roster, &cfg).expect("one employee, one slot");
    assert_eq!(schedule.assignment(&cfg, 0, 0, 0), 0);
}

#[test]
fn workload_cap_blocks_second_day() {
    let cfg = Config { num_days: 2, num_shifts: 1, capacity: 1, max_days: 1 };
    let roster = vec![emp("solo", Vec::new())];
    assert!(shift_scheduler::solve(&roster, &cfg).is_none());
    let relaxed = Config { max_days: 2, ..cfg };
    let schedule = shift_scheduler::solve(&roster, &relaxed).expect("two days allowed");
    assert_eq!(schedule.assignment(&relaxed, 0, 0, 0), 0);
    assert_eq!(schedule.assignment(&relaxed, 1, 0, 0), 0);
}

#[test]
fn no_same_day_double_booking_forces_second_employee() {
    let cfg = Config { num_days: 1, num_shifts: 2, capacity: 1, max_days: 1 };
    let roster = vec![emp("a", Vec::new()), emp("b", Vec::new())];
    let schedule = shift_scheduler::solve(&roster, &cfg).expect("two employees, two shifts");
    let first = schedule.assignment(&cfg, 0, 0, 0);
    let second = schedule.assignment(&cfg, 0, 1, 0);
    assert_ne!(first, second);
}

#[test]
fn preferring_employee_is_tried_first() {
    let cfg = Config { num_days: 1, num_shifts: 1, capacity: 1, max_days: 1 };
    // Employee 1 prefers the only shift of the only day; employee 0 is
    // indifferent. The preferring employee must be tried (and placed) first.
    let roster = vec![emp("indifferent", Vec::new()), emp("keen", vec![Some(0)])];
    let schedule = shift_scheduler::solve(&roster, &cfg).expect("feasible");
    assert_eq!(schedule.assignment(&cfg, 0, 0, 0), 1);
}

#[test]
fn monday_morning_preference_is_honored() {
    let cfg = week_config();
    let mut roster = plain_roster(42);
    // Employee 0 prefers the morning shift (index 0) of Monday (index 0).
    roster[0] = emp("e0", vec![Some(0)]);
    let schedule = shift_scheduler::solve(&roster, &cfg).expect("feasible");
    let monday_morning = schedule.shift_assignments(&cfg, 0, 0);
    assert!(monday_morning.contains(&0));
}

#[test]
fn unrecognized_preference_entries_do_not_fault() {
    let cfg = week_config();
    let mut roster = plain_roster(42);
    // A preference naming a shift index that no shift carries must simply
    // never match; the search stays total.
    roster[0] = emp("e0", vec![Some(99), None, Some(1)]);
    assert!(shift_scheduler::solve(&roster, &cfg).is_some());
}

#[test]
fn removing_preferences_preserves_feasibility() {
    let cfg = week_config();
    let mut with_prefs = Vec::new();
    for i in 0..42 {
        let mut prefs = vec![None; 7];
        prefs[i % 7] = Some(i % 3);
        with_prefs.push(emp(&format!("e{}", i), prefs));
    }
    assert!(shift_scheduler::solve(&with_prefs, &cfg).is_some());

    let stripped = plain_roster(42);
    assert!(shift_scheduler::solve(&stripped, &cfg).is_some());
}

#[test]
fn shift_names_report_assigned_employees() {
    let cfg = Config { num_days: 1, num_shifts: 1, capacity: 2, max_days: 1 };
    let roster = vec![emp("ada", Vec::new()), emp("grace", Vec::new())];
    let schedule = shift_scheduler::solve(&roster, &cfg).expect("feasible");
    let names = schedule.shift_names(&roster, &cfg, 0, 0);
    assert_eq!(names.len(), 2);
    assert!(names.contains(&"ada".to_string()));
    assert!(names.contains(&"grace".to_string()));
}

#[test]
fn backtrack_entry_point_fills_empty_schedule() {
    let cfg = Config { num_days: 1, num_shifts: 2, capacity: 1, max_days: 1 };
    let roster = vec![emp("a", Vec::new()), emp("b", Vec::new())];
    let mut schedule = Schedule { assigned: Vec::new() };
    let found = shift_scheduler::backtrack(0, 0, 0, &roster, &mut schedule, &cfg);
    assert!(found);
    assert_eq!(schedule.assigned.len(), 2);
    assert_ne!(schedule.assigned[0], schedule.assigned[1]);
}

#[test]
fn backtrack_restores_state_on_failure() {
    let cfg = Config { num_days: 2, num_shifts: 1, capacity: 2, max_days: 1 };
    let roster = vec![emp("a", Vec::new()), emp("b", Vec::new())];
    let mut schedule = Schedule { assigned: Vec::new() };
    let found = shift_scheduler::backtrack(0, 0, 0, &roster, &mut schedule, &cfg);
    assert!(!found);
    assert_eq!(schedule.assigned.len(), 0);
}
