use sat::assignset::AssignmentSet;

#[test]
fn last_entered_member_is_picked_first() {
    let mut set = AssignmentSet::new(5);
    assert_eq!(set.pick(), None);
    set.insert(3);
    set.insert(1);
    set.insert(3);
    set.insert(4);
    assert!(set.contains(1) && set.contains(3) && set.contains(4));
    set.remove(4);
    assert!(!set.contains(4));
    assert_eq!(set.pick(), Some(1));
    assert_eq!(set.pick(), Some(3));
    assert_eq!(set.pick(), None);
}

#[test]
fn variable_beyond_the_capacity_does_not_enter() {
    let mut set = AssignmentSet::new(2);
    set.insert(2);
    set.insert(7);
    assert!(!set.contains(2));
    assert_eq!(set.pick(), None);
    let mut none = AssignmentSet::new(0);
    none.insert(0);
    none.remove(0);
    assert_eq!(none.pick(), None);
}

#[test]
fn member_that_enters_again_keeps_its_entry() {
    let mut set = AssignmentSet::new(3);
    set.insert(0);
    set.insert(2);
    set.remove(0);
    set.insert(0);
    assert!(set.contains(0));
    assert_eq!(set.pick(), Some(2));
    assert_eq!(set.pick(), Some(0));
    assert_eq!(set.pick(), None);
}

#[test]
fn entries_do_not_pile_up() {
    let mut set = AssignmentSet::new(2);
    for _ in 0..1000 {
        set.insert(1);
        set.remove(1);
    }
    set.insert(0);
    assert_eq!(set.pick(), Some(0));
    assert_eq!(set.pick(), None);
    set.insert(1);
    assert_eq!(set.pick(), Some(1));
}
