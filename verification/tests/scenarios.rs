use sat::clause::Clause;
use sat::lit::{Lit, Var, VarValue};
use sat::solver::Solver;

fn lits(solver: &mut Solver, n: usize) -> Vec<Lit> {
    let vars = solver.create_vars(n);
    Lit::create_lits(&vars)
}

#[test]
fn unsat_contradiction() {
    let mut solver = Solver::new();
    let x = lits(&mut solver, 1);
    assert_eq!(solver.add_clause_from_lits(vec![x[0]]), Ok(true));
    assert_eq!(solver.add_clause_from_lits(vec![!x[0]]), Ok(false));
    assert!(!solver.solve());
    assert!(solver.add_clause_from_lits(vec![x[0]]).is_err());
}

#[test]
fn trivial_sat_by_unit() {
    let mut solver = Solver::new();
    let x = lits(&mut solver, 2);
    solver.add_clause_from_lits(vec![x[0]]).unwrap();
    solver.add_clause_from_lits(vec![!x[1]]).unwrap();
    assert!(solver.solve());
    assert_eq!(solver.get_model(), &[VarValue::VTrue, VarValue::VFalse]);
}

#[test]
fn chained_implication() {
    let mut solver = Solver::new();
    let x = lits(&mut solver, 3);
    solver.add_clause_from_lits(vec![x[0]]).unwrap();
    solver.add_clause_from_lits(vec![!x[0], x[1]]).unwrap();
    solver.add_clause_from_lits(vec![!x[1], x[2]]).unwrap();
    assert!(solver.solve());
    assert_eq!(solver.get_model(), &[VarValue::VTrue, VarValue::VTrue, VarValue::VTrue]);
}

#[test]
fn forced_backtrack() {
    let mut solver = Solver::new();
    let x = lits(&mut solver, 2);
    solver.add_clause_from_lits(vec![x[0], x[1]]).unwrap();
    solver.add_clause_from_lits(vec![!x[0], x[1]]).unwrap();
    solver.add_clause_from_lits(vec![x[0], !x[1]]).unwrap();
    solver.add_clause_from_lits(vec![!x[0], !x[1]]).unwrap();
    assert!(!solver.solve());
    assert!(solver.add_clause(Clause::new()).is_err());
}

#[test]
fn pure_variable() {
    let mut solver = Solver::new();
    let x = lits(&mut solver, 3);
    solver.add_clause_from_lits(vec![x[0], x[1]]).unwrap();
    solver.add_clause_from_lits(vec![x[0], x[2]]).unwrap();
    solver.add_clause_from_lits(vec![!x[1], !x[2]]).unwrap();
    assert!(solver.solve());
    let model = solver.get_model();
    assert_eq!(model[0], VarValue::VTrue);
    assert!(model[1] != VarValue::VTrue || model[2] != VarValue::VTrue);
}

#[test]
fn empty_clause_at_ingest() {
    let mut solver = Solver::new();
    let _ = solver.new_var();
    assert_eq!(solver.add_clause(Clause::new()), Ok(false));
    let err = solver.add_clause_from_lits(vec![Lit::new(Var::new(0))]);
    assert_eq!(err, Err("The model is already UNSAT".to_string()));
    assert!(!solver.solve());
}
