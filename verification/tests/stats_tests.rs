use depict::Statistics;

fn with_counts(total: u32, mem_read: u32, others: Vec<(String, u32)>) -> Statistics {
    let mut s = Statistics::new();
    s.total = total;
    s.mem_read = mem_read;
    for (label, value) in others {
        s.add_other(label, value);
    }
    s
}

#[test]
fn merge_adds_fields() {
    let mut a = with_counts(10, 4, vec![(String::from("jump"), 2)]);
    let b = with_counts(5, 1, vec![(String::from("jump"), 3), (String::from("nop"), 7)]);
    a.merge(b);
    assert_eq!(a.total, 15);
    assert_eq!(a.mem_read, 5);
    assert_eq!(a.others, vec![(String::from("jump"), 5), (String::from("nop"), 7)]);
}

#[test]
fn merge_is_commutative_on_counts() {
    let mut ab = with_counts(10, 4, vec![(String::from("jump"), 2)]);
    ab.merge(with_counts(5, 1, vec![(String::from("nop"), 7)]));
    let mut ba = with_counts(5, 1, vec![(String::from("nop"), 7)]);
    ba.merge(with_counts(10, 4, vec![(String::from("jump"), 2)]));
    assert_eq!(ab.total, ba.total);
    assert_eq!(ab.mem_read, ba.mem_read);
    // The label maps agree as maps; only the insertion order differs.
    let mut ab_sorted = ab.others.clone();
    ab_sorted.sort();
    let mut ba_sorted = ba.others.clone();
    ba_sorted.sort();
    assert_eq!(ab_sorted, ba_sorted);
}

#[test]
fn add_other_does_not_touch_total() {
    let mut s = Statistics::new();
    s.add_other(String::from("jump"), 9);
    assert_eq!(s.total, 0);
    assert_eq!(s.others, vec![(String::from("jump"), 9)]);
    s.add_other(String::from("jump"), 1);
    assert_eq!(s.others, vec![(String::from("jump"), 10)]);
}

#[test]
fn as_rows_fixed_order_and_other_sum() {
    let mut s = Statistics::new();
    s.total = 12;
    s.mem_write = 3;
    s.add_other(String::from("a"), 2);
    s.add_other(String::from("b"), 5);
    let rows = s.as_rows();
    assert_eq!(rows[0], ("total", 12));
    assert_eq!(rows[2], ("mem_write", 3));
    assert_eq!(rows[7], ("return", 0));
    assert_eq!(rows[11], ("other", 7));
}

#[test]
fn bump_routes_fixed_and_other_kinds() {
    let mut s = Statistics::new();
    s.bump("mem_read", 4);
    s.bump("weird", 2);
    assert_eq!(s.total, 6);
    assert_eq!(s.mem_read, 4);
    assert_eq!(s.others, vec![(String::from("weird"), 2)]);
}
