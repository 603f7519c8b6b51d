use dupe_finder::merger::Merger;

#[test]
fn new_merger_keeps_every_element_alone() {
    let mut m = Merger::new(4);
    for i in 0..4 {
        assert_eq!(m.belongs(i), i);
    }
    assert_eq!(m.len(), 4);
}

#[test]
fn merge_keeps_first_representative() {
    let mut m = Merger::new(5);
    m.merge(1, 3);
    assert_eq!(m.belongs(3), 1);
    m.merge(0, 3);
    assert_eq!(m.belongs(1), 0);
    assert_eq!(m.belongs(3), 0);
    assert_eq!(m.belongs(2), 2);
    m.merge(4, 2);
    assert_eq!(m.belongs(2), 4);
}

#[test]
fn merge_of_one_class_changes_nothing() {
    let mut m = Merger::new(3);
    m.merge(0, 1);
    m.merge(1, 0);
    assert_eq!(m.belongs(0), 0);
    assert_eq!(m.belongs(1), 0);
}

#[test]
fn belongs_is_idempotent() {
    let mut m = Merger::new(6);
    m.merge(2, 4);
    m.merge(4, 5);
    m.merge(0, 2);
    for x in 0..6 {
        let r = m.belongs(x);
        assert_eq!(m.belongs(r), r);
    }
    assert_eq!(m.belongs(5), 0);
}
