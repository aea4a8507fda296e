use sat::clause::Clause;
use sat::lines::{parse_clause_line, parse_count, parse_lit, split_words};
use sat::lit::LitValue::{LFalse, LTrue, LUndef};
use sat::lit::{Lit, Var, VarValue};
use sat::solver::Solver;
use sat::sudoku::{
    draw_grid, model_grid, new_grid, puzzle_grid, read_puzzle_line, unit_line, PuzzleLine,
};

fn lit(index: usize) -> Lit {
    Lit::new(Var::new(index))
}

#[test]
fn values_print_as_letters() {
    assert_eq!(VarValue::VTrue.to_string(), "T");
    assert_eq!(VarValue::VFalse.to_string(), "F");
    assert_eq!(VarValue::VUndef.to_string(), "X");
}

#[test]
fn soft_equality_fails_for_opposites_only() {
    assert!(VarValue::VTrue.equals(VarValue::VTrue));
    assert!(!VarValue::VTrue.equals(VarValue::VFalse));
    assert!(VarValue::VTrue.equals(VarValue::VUndef));
    assert!(!VarValue::VFalse.equals(VarValue::VTrue));
    assert!(VarValue::VFalse.equals(VarValue::VFalse));
    assert!(VarValue::VFalse.equals(VarValue::VUndef));
    assert!(VarValue::VUndef.equals(VarValue::VTrue));
    assert!(VarValue::VUndef.equals(VarValue::VFalse));
    assert!(VarValue::VUndef.equals(VarValue::VUndef));
}

#[test]
fn negation_of_values_and_literals() {
    assert_eq!(!VarValue::VTrue, VarValue::VFalse);
    assert_eq!(!VarValue::VFalse, VarValue::VTrue);
    assert_eq!(!VarValue::VUndef, VarValue::VUndef);
    assert_eq!((!lit(3)).get_value(), VarValue::VFalse);
    assert_eq!((!lit(3)).var_num(), 3);
    assert_eq!(!!lit(3), lit(3));
}

#[test]
fn literals_are_ordered_by_variable() {
    assert!(lit(1) < lit(2));
    assert!(!(lit(2) < !lit(2)));
    assert!(!(!lit(2) < lit(2)));
    assert!(!lit(5) > lit(4));
    assert_ne!(lit(2), !lit(2));
    assert!(Var::new(1) < Var::new(2));
}

#[test]
fn variables_and_literals_print_their_index() {
    assert_eq!(Var::new(4).to_string(), "4");
    assert_eq!(Var::new(0).to_string(), "0");
    assert_eq!(Var::new(1234567890).to_string(), "1234567890");
    assert_eq!(lit(5).to_string(), "5");
    assert_eq!((!lit(57)).to_string(), "~57");
}

#[test]
fn clause_prints_unmarked_literals() {
    let mut c = Clause::new();
    assert_eq!(c.to_string(), "()");
    c.push(lit(0));
    c.push(!lit(2));
    c.push(lit(80));
    assert_eq!(c.to_string(), "(0\\/~2\\/80)");
    assert_eq!(c.len(), 3);
    c.remove(0);
    c.remove(0);
    assert_eq!(c.len(), 2);
    assert_eq!(c.to_string(), "(~2\\/80)");
    assert_eq!(c.get_first(), Some(!lit(2)));
    assert_eq!(c.get_all_lits(), vec![!lit(2), lit(80)]);
    c.restore(0);
    c.restore(0);
    assert_eq!(c.len(), 3);
    c.remove(1);
    c.remove(2);
    c.restore_all();
    assert_eq!(c.len(), 3);
    assert_eq!(c.get_max(), Some(80));
    assert!(c.valid(81));
    assert!(!c.valid(80));
    assert!(!Clause::new().valid(5));
    assert_eq!(Clause::new().get_first(), None);
}

#[test]
fn solver_prints_active_clauses() {
    let mut solver = Solver::new();
    solver.create_vars(3);
    assert_eq!(solver.to_string(), "");
    solver.add_clause_from_lits(vec![lit(0), !lit(1), lit(2)]).unwrap();
    assert_eq!(solver.to_string(), "(0\\/~1\\/2)");
    solver.add_clause_from_lits(vec![!lit(0)]).unwrap();
    assert_eq!(solver.to_string(), "(0\\/~1\\/2)/\\(~0)");
    assert!(solver.simplify());
    assert_eq!(solver.to_string(), "(~1\\/2)");
    assert_eq!(solver.model_text(), "FXX\n");
}

#[test]
fn words_are_runs_between_spaces() {
    let words = split_words(b"  12 -3\t x  ");
    assert_eq!(words, vec![b"12".to_vec(), b"-3".to_vec(), b"x".to_vec()]);
    assert!(split_words(b"").is_empty());
    assert!(split_words(b" \n ").is_empty());
}

#[test]
fn numbers_stand_for_literals() {
    assert_eq!(parse_lit(b"12"), Some(lit(12)));
    assert_eq!(parse_lit(b"+12"), Some(lit(12)));
    assert_eq!(parse_lit(b"-999"), Some(!lit(999)));
    assert_eq!(parse_lit(b"0"), None);
    assert_eq!(parse_lit(b"-0"), None);
    assert_eq!(parse_lit(b"-"), None);
    assert_eq!(parse_lit(b""), None);
    assert_eq!(parse_lit(b"1x"), None);
    assert_eq!(parse_lit(b"2147483647"), Some(lit(2147483647)));
    assert_eq!(parse_lit(b"2147483648"), None);
    assert_eq!(parse_lit(b"-2147483648"), Some(!lit(2147483648)));
    assert_eq!(parse_lit(b"-2147483649"), None);
    assert_eq!(parse_lit(b"99999999999999999999999"), None);
    assert_eq!(parse_count(b"18446744073709551616"), None);
    assert_eq!(parse_count(b"007"), Some(7));
    assert_eq!(parse_count(b"-7"), None);
}

#[test]
fn clause_line_gives_its_literals() {
    assert_eq!(parse_clause_line(b"-111 -121 0"), vec![!lit(111), !lit(121)]);
    assert_eq!(parse_clause_line(b"111 121 131 0"), vec![lit(111), lit(121), lit(131)]);
    assert_eq!(parse_clause_line(b"-111  -121  0"), vec![!lit(111), !lit(121)]);
    assert_eq!(parse_clause_line(b"c a comment 5"), vec![lit(5)]);
    assert!(parse_clause_line(b"0").is_empty());
}

#[test]
fn puzzle_line_gives_a_cell() {
    assert_eq!(read_puzzle_line(b"1 2 3"), PuzzleLine::Cell(123));
    assert_eq!(read_puzzle_line(b" 9  9 1 extra"), PuzzleLine::Cell(991));
    assert_eq!(read_puzzle_line(b""), PuzzleLine::Skip);
    assert_eq!(read_puzzle_line(b"c 1 2 3"), PuzzleLine::Skip);
    assert_eq!(read_puzzle_line(b"1 2"), PuzzleLine::Bad);
    assert_eq!(read_puzzle_line(b"1 x 3"), PuzzleLine::Bad);
    assert_eq!(unit_line(123), "123 0\n");
}

#[test]
fn entries_are_placed_in_the_grid() {
    let grid = puzzle_grid(&vec![123, 991, 455]).unwrap();
    assert_eq!(grid[0][1], Some(3));
    assert_eq!(grid[8][8], Some(1));
    assert_eq!(grid[3][4], Some(5));
    assert_eq!(grid[0][0], None);
    assert_eq!(puzzle_grid(&vec![]), Some(new_grid()));
    assert_eq!(puzzle_grid(&vec![23]), None);
    assert_eq!(puzzle_grid(&vec![1013]), None);
    assert_eq!(puzzle_grid(&vec![103]), None);
}

#[test]
fn grid_is_read_from_a_model() {
    let mut model = vec![VarValue::VFalse; 1000];
    assert_eq!(model_grid(&model), None);
    for i in 1..=9 {
        for j in 1..=9 {
            model[i * 100 + j * 10 + (i + j) % 9 + 1] = VarValue::VTrue;
        }
    }
    let grid = model_grid(&model).unwrap();
    for i in 0..9 {
        for j in 0..9 {
            assert_eq!(grid[i][j], Some((i + j + 2) % 9 + 1));
        }
    }
    assert_eq!(model_grid(&model[..999]), None);
}

#[test]
fn grid_is_drawn_with_bars_and_dashes() {
    let grid = puzzle_grid(&vec![115, 999]).unwrap();
    let text = draw_grid(&grid);
    let lines: Vec<&str> = text.lines().collect();
    assert_eq!(lines.len(), 19);
    assert_eq!(lines[0], "-------------------------------------");
    assert_eq!(lines[1], "| 5 |   |   |   |   |   |   |   |   |");
    assert_eq!(lines[3], "|   |   |   |   |   |   |   |   |   |");
    assert_eq!(lines[17], "|   |   |   |   |   |   |   |   | 9 |");
    assert_eq!(lines[18], "-------------------------------------");
    assert!(text.ends_with("-\n"));
}

#[test]
fn picks_take_literals_as_they_are_or_negated() {
    let x = vec![lit(0), lit(1), lit(2)];
    let clause = sat::clause::pick_clause(&x, &[(2, true), (0, false), (2, false)]);
    assert_eq!(clause.get_all_lits(), vec![lit(2), !lit(0), !lit(2)]);
    assert_eq!(clause.len(), 3);
    assert_eq!(sat::clause::pick_clause(&x, &[]).len(), 0);
}

#[test]
fn literal_values_agree_unless_opposite() {
    assert!(LTrue.equals(LTrue));
    assert!(!LTrue.equals(LFalse));
    assert!(LTrue.equals(LUndef));
    assert!(!LFalse.equals(LTrue));
    assert!(LFalse.equals(LFalse));
    assert!(LFalse.equals(LUndef));
    assert!(LUndef.equals(LTrue));
    assert!(LUndef.equals(LFalse));
    assert!(LUndef.equals(LUndef));
    assert_eq!(!LTrue, LFalse);
    assert_eq!(!LFalse, LTrue);
    assert_eq!(!LUndef, LUndef);
    assert_eq!(LTrue.to_string(), "T");
    assert_eq!(LFalse.to_string(), "F");
    assert_eq!(LUndef.to_string(), "X");
}
