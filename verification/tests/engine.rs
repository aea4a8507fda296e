use sat::clause::Clause;
use sat::eval::{verify, verify_unsat};
use sat::lit::{Lit, Var, VarValue};
use sat::solver::Solver;

fn solver_with(n: usize, clauses: &[&[i32]]) -> Solver {
    let mut solver = Solver::new();
    solver.create_vars(n);
    for clause in clauses {
        let lits: Vec<Lit> = clause
            .iter()
            .map(|&code| {
                let lit = Lit::new(Var::new((code.abs() - 1) as usize));
                if code < 0 {
                    !lit
                } else {
                    lit
                }
            })
            .collect();
        solver.add_clause_from_lits(lits).unwrap();
    }
    solver
}

fn sample() -> Solver {
    solver_with(
        10,
        &[
            &[2, -7, 9],
            &[3, -9, 5],
            &[10, -5, 2],
            &[9, -5],
            &[8, 6, 1],
            &[-1, 9, -6],
            &[-10, -2],
            &[2, 7],
            &[9, 3],
            &[3, 6, -4],
            &[-2, 10, 10],
            &[2, 7, -3],
            &[8, -5, 10],
            &[-1, -9],
            &[3, -3],
            &[3, 8, -1],
            &[5, 7],
        ],
    )
}

fn true_count(solver: &Solver, c: usize, clauses: &[Clause]) -> usize {
    let model = solver.get_model();
    clauses[c].get_all_lits().iter().filter(|l| model[l.var_num()] == l.get_value()).count()
}

fn soft_count(solver: &Solver, c: usize, clauses: &[Clause]) -> usize {
    let model = solver.get_model();
    clauses[c].get_all_lits().iter().filter(|l| model[l.var_num()].equals(l.get_value())).count()
}

#[test]
fn sample_formula_is_satisfiable() {
    let mut solver = sample();
    let clauses = solver.get_oringin_clauses();
    assert_eq!(clauses.len(), 17);
    assert!(solver.solve());
    assert!(verify(&clauses, solver.get_model()));
    assert!(!verify_unsat(&clauses, 10));
}

#[test]
fn sample_formula_with_empty_clause_is_unsatisfiable() {
    let mut solver = sample();
    assert_eq!(solver.add_clause_from_lits(vec![]), Ok(false));
    assert!(!solver.solve());
    assert_eq!(solver.model_text(), "UNSAT\n");
}

#[test]
fn counters_count_true_literals_after_a_search() {
    let mut solver = sample();
    let clauses = solver.get_oringin_clauses();
    assert!(solver.solve());
    for c in 0..solver.get_num_clauses() {
        assert_eq!(solver.get_sat(c), true_count(&solver, c, &clauses));
    }
    assert_eq!(solver.get_unsat_count(), 0);
}

#[test]
fn live_length_counts_soft_equal_literals_of_active_clauses() {
    let mut solver = solver_with(4, &[&[1], &[-1, 2, 3], &[-2, 3, 4], &[1, 4]]);
    let clauses = solver.get_oringin_clauses();
    assert!(solver.simplify());
    let mut active = 0;
    for c in 0..solver.get_num_clauses() {
        if solver.get_sat(c) == 0 {
            active += 1;
            assert_eq!(solver.get_live_len(c), soft_count(&solver, c, &clauses));
        }
    }
    assert_eq!(solver.get_unsat_count(), active);
    assert_eq!(active, 2);
    assert_eq!(solver.get_live_len(1), 2);
}

#[test]
fn propagated_variables_have_a_value() {
    let mut solver = sample();
    assert!(solver.solve());
    for v in 0..solver.get_num_vars() {
        if solver.get_propagated(v) {
            assert_ne!(solver.get_model()[v], VarValue::VUndef);
        }
    }
}

#[test]
fn reset_returns_to_the_state_before_the_search() {
    let mut solver = solver_with(3, &[&[1], &[-1, 2], &[-2, 3]]);
    assert!(solver.solve());
    solver.reset();
    assert_eq!(solver.get_model(), &[VarValue::VTrue, VarValue::VUndef, VarValue::VUndef]);
    for v in 0..3 {
        assert!(!solver.get_propagated(v));
        assert_eq!(solver.get_expected(v), (VarValue::VUndef, 0));
    }
    for c in 0..3 {
        assert_eq!(solver.get_sat(c), 0);
    }
    assert_eq!(solver.get_live_len(0), 1);
    assert_eq!(solver.get_live_len(1), 2);
    assert_eq!(solver.get_live_len(2), 2);
    assert_eq!(solver.get_unsat_count(), 3);
}

#[test]
fn reset_changes_nothing_on_a_fresh_solver() {
    let mut solver = sample();
    let before = format!("{:?}", solver);
    solver.reset();
    assert_eq!(format!("{:?}", solver), before);
}

#[test]
fn solve_after_reset_gives_the_same_answer() {
    let mut solver = sample();
    let first = solver.solve();
    solver.reset();
    assert_eq!(solver.solve(), first);
    let mut unsat = solver_with(2, &[&[1, 2], &[-1, 2], &[1, -2], &[-1, -2]]);
    let first = unsat.solve();
    unsat.reset();
    assert_eq!(unsat.solve(), first);
    assert!(!first);
}

#[test]
fn two_solvers_with_the_same_clauses_find_the_same_model() {
    let mut a = sample();
    let mut b = sample();
    assert_eq!(a.solve(), b.solve());
    assert_eq!(a.get_model(), b.get_model());
    assert_eq!(a.get_iterations(), b.get_iterations());
}

#[test]
fn expected_values_return_after_a_conflict_is_undone() {
    let mut solver = solver_with(3, &[&[1, 2], &[-1, 2, 3], &[-1, 2, -3], &[1, -2], &[-1, -2, 3]]);
    let clauses = solver.get_oringin_clauses();
    let answer = solver.solve();
    assert_eq!(answer, !verify_unsat(&clauses, 3));
    if answer {
        assert!(verify(&clauses, solver.get_model()));
    }
}

#[test]
fn repeated_unit_is_recorded_once() {
    let mut solver = solver_with(1, &[&[1], &[1]]);
    assert_eq!(solver.get_num_clauses(), 1);
    assert!(solver.get_status());
    assert_eq!(solver.get_model(), &[VarValue::VTrue]);
}

#[test]
fn variables_are_made_up_to_the_largest_index() {
    let mut solver = Solver::new();
    let lit = Lit::new(Var::new(4));
    assert_eq!(solver.add_clause_from_lits(vec![!lit, Lit::new(Var::new(1))]), Ok(true));
    assert_eq!(solver.get_num_vars(), 5);
    assert!(solver.solve());
}

#[test]
fn unit_against_a_derived_value_makes_the_status_false() {
    let mut solver = solver_with(2, &[&[1], &[-1, 2]]);
    assert!(solver.simplify());
    assert_eq!(solver.get_model(), &[VarValue::VTrue, VarValue::VTrue]);
    assert_eq!(solver.add_clause_from_lits(vec![!Lit::new(Var::new(1))]), Ok(false));
    assert!(!solver.get_status());
    assert_eq!(solver.get_num_clauses(), 3);
    assert_eq!(solver.get_model(), &[VarValue::VTrue, VarValue::VTrue]);
    assert!(!solver.solve());
    assert!(solver.add_clause_from_lits(vec![Lit::new(Var::new(0))]).is_err());
}

#[test]
fn unit_equal_to_a_value_of_the_search_is_not_recorded() {
    let mut solver = solver_with(2, &[&[1, 2]]);
    assert!(solver.solve());
    assert_eq!(solver.get_model(), &[VarValue::VTrue, VarValue::VUndef]);
    assert_eq!(solver.add_clause_from_lits(vec![Lit::new(Var::new(0))]), Ok(true));
    assert_eq!(solver.get_num_clauses(), 1);
    assert_eq!(solver.get_unsat_count(), 0);
    assert_eq!(solver.get_model(), &[VarValue::VTrue, VarValue::VUndef]);
    assert!(solver.get_propagated(0));
}

#[test]
fn clauses_added_after_a_search_leave_values_and_counters() {
    let mut solver = solver_with(3, &[&[1, 2]]);
    assert!(solver.solve());
    assert_eq!(solver.get_unsat_count(), 0);
    assert_eq!(solver.add_clause_from_lits(vec![Lit::new(Var::new(1))]), Ok(true));
    assert_eq!(solver.get_num_clauses(), 2);
    assert_eq!(solver.get_unsat_count(), 1);
    assert_eq!(solver.get_model(), &[VarValue::VTrue, VarValue::VTrue, VarValue::VUndef]);
    let pair = vec![!Lit::new(Var::new(0)), Lit::new(Var::new(2))];
    assert_eq!(solver.add_clause_from_lits(pair), Ok(true));
    assert_eq!(solver.get_num_clauses(), 3);
    assert_eq!(solver.get_unsat_count(), 2);
    assert_eq!(solver.get_model(), &[VarValue::VTrue, VarValue::VTrue, VarValue::VUndef]);
    assert_eq!(solver.get_sat(0), 1);
    assert_eq!(solver.get_sat(1), 0);
    assert_eq!(solver.get_sat(2), 0);
    assert_eq!(solver.get_live_len(2), 2);
    assert!(solver.get_propagated(0));
    assert!(!solver.get_propagated(1));
}

#[test]
fn search_after_added_clauses_starts_anew() {
    let mut solver = solver_with(2, &[&[1, 2]]);
    assert!(solver.solve());
    let both = vec![!Lit::new(Var::new(0)), !Lit::new(Var::new(1))];
    assert_eq!(solver.add_clause_from_lits(both), Ok(true));
    assert_eq!(solver.add_clause_from_lits(vec![Lit::new(Var::new(1))]), Ok(true));
    let clauses = solver.get_oringin_clauses();
    assert_eq!(clauses.len(), 3);
    assert!(solver.solve());
    assert!(verify(&clauses, solver.get_model()));
    assert_eq!(solver.get_model(), &[VarValue::VFalse, VarValue::VTrue]);
    assert_eq!(solver.get_unsat_count(), 0);
}

#[test]
fn unit_against_a_value_of_the_search_latches_the_status() {
    let mut solver = solver_with(2, &[&[1, 2]]);
    assert!(solver.solve());
    assert_eq!(solver.add_clause_from_lits(vec![!Lit::new(Var::new(0))]), Ok(false));
    assert!(!solver.get_status());
    assert_eq!(solver.get_unsat_count(), 0);
    assert_eq!(solver.get_model(), &[VarValue::VTrue, VarValue::VUndef]);
    assert!(!solver.solve());
    assert!(!verify_unsat(&solver.get_oringin_clauses(), 2));
}

#[test]
fn search_without_clauses_succeeds() {
    let mut solver = Solver::new();
    assert!(solver.solve());
    assert_eq!(solver.model_text(), "\n");
    let mut with_vars = Solver::new();
    with_vars.create_vars(2);
    assert!(with_vars.solve());
    assert_eq!(with_vars.model_text(), "XX\n");
}

#[test]
fn brute_force_agrees_with_the_search_on_small_formulas() {
    let mut seed: u64 = 12345;
    let mut next = move |bound: u64| {
        seed = seed.wrapping_mul(6364136223846793005).wrapping_add(1442695040888963407);
        (seed >> 33) % bound
    };
    let mut sat = 0;
    let mut unsat = 0;
    for _ in 0..300 {
        let n = 6;
        let mut solver = Solver::new();
        solver.create_vars(n);
        let clause_n = 10 + next(25);
        for _ in 0..clause_n {
            let size = 1 + next(4);
            let mut clause = Clause::new();
            for _ in 0..size {
                let lit = Lit::new(Var::new(next(n as u64) as usize));
                clause.push(if next(2) == 0 { lit } else { !lit });
            }
            if solver.add_clause(clause).is_err() {
                break;
            }
        }
        let clauses = solver.get_oringin_clauses();
        if solver.solve() {
            sat += 1;
            assert!(verify(&clauses, solver.get_model()));
            assert!(!verify_unsat(&clauses, n));
        } else {
            unsat += 1;
            assert!(verify_unsat(&clauses, n));
        }
    }
    assert!(sat > 0 && unsat > 0);
}

#[test]
fn failed_search_leaves_counters_marks_and_expected_values_restored() {
    let mut solver = solver_with(2, &[&[1, 2], &[-1, 2], &[1, -2], &[-1, -2]]);
    assert!(!solver.solve());
    for c in 0..4 {
        assert_eq!(solver.get_sat(c), 0);
        assert_eq!(solver.get_live_len(c), 2);
    }
    for v in 0..2 {
        assert!(!solver.get_propagated(v));
        assert_eq!(solver.get_expected(v), (VarValue::VUndef, 0));
        assert_eq!(solver.get_model()[v], VarValue::VUndef);
    }
    assert_eq!(solver.get_unsat_count(), 4);
    assert_eq!(solver.to_string(), "(0\\/1)/\\(~0\\/1)/\\(0\\/~1)/\\(~0\\/~1)");
}

#[test]
fn large_random_formulas_round_trip() {
    let mut seed: u64 = 2024;
    let mut next = move |bound: u64| {
        seed = seed.wrapping_mul(6364136223846793005).wrapping_add(1442695040888963407);
        (seed >> 33) % bound
    };
    let mut sat = 0;
    for _ in 0..5 {
        let n = 100;
        let mut solver = Solver::new();
        solver.create_vars(n);
        let clause_n = 250 + next(150);
        for _ in 0..clause_n {
            let size = 2 + next(4);
            let mut clause = Clause::new();
            for _ in 0..size {
                let lit = Lit::new(Var::new(next(n as u64) as usize));
                clause.push(if next(2) == 0 { lit } else { !lit });
            }
            assert!(solver.fits(&clause));
            solver.add_clause(clause).unwrap();
        }
        let clauses = solver.get_oringin_clauses();
        if solver.solve() {
            sat += 1;
            assert!(verify(&clauses, solver.get_model()));
        }
    }
    assert!(sat > 0);
}

#[test]
fn contradictory_units_latch_the_status_once() {
    let mut solver = solver_with(1, &[&[1]]);
    assert_eq!(solver.add_clause_from_lits(vec![!Lit::new(Var::new(0))]), Ok(false));
    assert!(!solver.get_status());
    assert_eq!(solver.get_num_clauses(), 2);
    assert_eq!(solver.get_unsat_count(), 1);
    assert!(!solver.simplify());
    assert!(!solver.solve());
    assert_eq!(solver.get_model(), &[VarValue::VTrue]);
}

#[test]
fn simplify_meets_the_conflict_of_unit_propagation() {
    let mut solver = solver_with(3, &[&[1], &[-1, 2], &[-1, 3], &[-2, -3]]);
    assert!(!solver.simplify());
    assert!(!solver.get_status());
    let mut open = solver_with(3, &[&[1], &[-1, 2], &[2, 3]]);
    assert!(open.simplify());
    assert_eq!(open.get_model(), &[VarValue::VTrue, VarValue::VTrue, VarValue::VUndef]);
    assert_eq!(open.get_unsat_count(), 0);
}

#[test]
fn simplify_after_added_clauses_only_sets_flags() {
    let mut solver = solver_with(2, &[&[1, 2]]);
    assert!(solver.solve());
    assert!(solver.get_propagated(0));
    let again = vec![Lit::new(Var::new(0)), Lit::new(Var::new(1))];
    assert_eq!(solver.add_clause_from_lits(again), Ok(true));
    assert_eq!(solver.get_unsat_count(), 1);
    assert!(solver.simplify());
    assert!(solver.get_propagated(0));
    assert!(!solver.get_propagated(1));
    assert_eq!(solver.get_unsat_count(), 1);
    assert_eq!(solver.get_model(), &[VarValue::VTrue, VarValue::VUndef]);
    assert!(solver.solve());
    assert_eq!(solver.get_unsat_count(), 0);
}

#[test]
fn simplify_after_an_added_unit_carries_its_value() {
    let mut solver = solver_with(3, &[&[1, 2]]);
    assert!(solver.solve());
    assert_eq!(solver.add_clause_from_lits(vec![!Lit::new(Var::new(1)), Lit::new(Var::new(2))]), Ok(true));
    assert_eq!(solver.add_clause_from_lits(vec![Lit::new(Var::new(1))]), Ok(true));
    assert_eq!(solver.get_unsat_count(), 2);
    assert!(solver.simplify());
    assert!(solver.get_propagated(0) && solver.get_propagated(1) && solver.get_propagated(2));
    assert_eq!(solver.get_model(), &[VarValue::VTrue, VarValue::VTrue, VarValue::VTrue]);
    assert_eq!(solver.get_unsat_count(), 0);
}
