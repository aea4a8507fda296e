use sat::mapper::Mapper;

#[test]
fn it_works() {
    let mut mapper = Mapper::new();
    mapper.out = "test:".to_string();
    mapper.push_pos(1, 2, 3);
    assert_eq!("test:123 ", mapper.out);
}

#[test]
fn value_in_every_row_starts_with_first_row() {
    let mut mapper = Mapper::new();
    mapper.constraint_1a();
    let first = mapper.out.lines().next().unwrap();
    assert_eq!(first, "111 121 131 141 151 161 171 181 191 0");
    assert_eq!(mapper.out.lines().count(), 81);
}

#[test]
fn value_in_every_column_starts_with_first_column() {
    let mut mapper = Mapper::new();
    mapper.constraint_1b();
    let first = mapper.out.lines().next().unwrap();
    assert_eq!(first, "111 211 311 411 511 611 711 811 911 0");
    assert_eq!(mapper.out.lines().count(), 81);
}

#[test]
fn no_value_twice_in_a_row() {
    let mut mapper = Mapper::new();
    mapper.constraint_2a();
    let mut lines = mapper.out.lines();
    assert_eq!(lines.next(), Some("-111 -121 0"));
    assert_eq!(lines.next(), Some("-111 -131 0"));
    assert_eq!(mapper.out.lines().count(), 9 * 9 * 36);
    assert_eq!(mapper.out.lines().last(), Some("-989 -999 0"));
}

#[test]
fn no_value_twice_in_a_column() {
    let mut mapper = Mapper::new();
    mapper.constraint_2b();
    let mut lines = mapper.out.lines();
    assert_eq!(lines.next(), Some("-111 -211 0"));
    assert_eq!(mapper.out.lines().count(), 9 * 9 * 36);
    assert_eq!(mapper.out.lines().last(), Some("-899 -999 0"));
}

#[test]
fn box_clause_holds_the_nine_cells() {
    let mut mapper = Mapper::new();
    mapper.constraint_3a();
    let mut lines = mapper.out.lines();
    assert_eq!(lines.next(), Some("-111 -121 -131 -211 -221 -231 -311 -321 -331 0"));
    assert_eq!(lines.next(), Some("-141 -151 -161 -241 -251 -261 -341 -351 -361 0"));
    assert_eq!(mapper.out.lines().count(), 81);
}

#[test]
fn box_pairs_keep_the_blank_of_each_cell() {
    let mut mapper = Mapper::new();
    mapper.constraint_3b();
    let mut lines = mapper.out.lines();
    assert_eq!(lines.next(), Some("-111  -121  0"));
    assert_eq!(mapper.out.lines().count(), 9 * 9 * 36);
    assert_eq!(mapper.out.lines().last(), Some("-989  -999  0"));
}

#[test]
fn every_cell_holds_a_value() {
    let mut mapper = Mapper::new();
    mapper.constraint_4();
    let mut lines = mapper.out.lines();
    assert_eq!(lines.next(), Some("111 112 113 114 115 116 117 118 119 0"));
    assert_eq!(mapper.out.lines().count(), 81);
}

#[test]
fn no_cell_holds_two_values() {
    let mut mapper = Mapper::new();
    mapper.constraint_5();
    let mut lines = mapper.out.lines();
    assert_eq!(lines.next(), Some("-111 -112 0"));
    assert_eq!(mapper.out.lines().count(), 81 * 36);
}

#[test]
fn build_clauses_writes_all_rules_in_order() {
    let mut all = Mapper::new();
    all.build_clauses();
    let mut parts = Mapper::new();
    parts.constraint_1a();
    parts.constraint_1b();
    parts.constraint_2a();
    parts.constraint_2b();
    parts.constraint_3a();
    parts.constraint_3b();
    parts.constraint_4();
    parts.constraint_5();
    assert_eq!(all.out, parts.out);
    assert_eq!(all.out.lines().count(), 81 * 4 + 81 * 36 * 4);
}
