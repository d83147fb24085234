use depict::render::{render_results, sort_rows, ConfigError, OutputFormat};
use std::cmp::Ordering;
use depict::utilities::{count_with_seperator, Direction, Sorting};
use depict::{Entry, Statistics};

fn entry(name: &str, total: u32) -> Entry {
    let mut s = Statistics::new();
    s.total = total;
    Entry { symbol_name: String::from(name), statistics: s }
}

fn total_stats(total: u32) -> Statistics {
    let mut s = Statistics::new();
    s.total = total;
    s
}

#[test]
fn thousands_grouping_uses_non_breaking_space() {
    assert_eq!(count_with_seperator(1234567), "1\u{00A0}234\u{00A0}567");
    assert_eq!(count_with_seperator(0), "0");
}

#[test]
fn thousands_grouping_boundaries() {
    assert_eq!(count_with_seperator(999), "999");
    assert_eq!(count_with_seperator(1000), "1\u{00A0}000");
}

#[test]
fn limit_without_sort_is_a_configuration_error() {
    let r = render_results(
        Vec::new(),
        Statistics::new(),
        OutputFormat::Plain,
        None,
        5,
        false,
    );
    assert_eq!(r, Err(ConfigError::LimitWithoutSort));
}

#[test]
fn no_limit_without_sort_renders() {
    let r = render_results(
        Vec::new(),
        Statistics::new(),
        OutputFormat::Plain,
        None,
        usize::MAX,
        false,
    );
    assert_eq!(r.unwrap(), "Total total: 0\n");
}

#[test]
fn plain_rendering_pads_names() {
    let r = render_results(
        vec![entry("foo", 3)],
        total_stats(3),
        OutputFormat::Plain,
        None,
        usize::MAX,
        false,
    )
    .unwrap();
    assert_eq!(r, "Total total: 3\nfoo   total: 3\n");
}

#[test]
fn plain_breakdown_lists_categories() {
    let mut s = Statistics::new();
    s.total = 2;
    s.mem_read = 1;
    s.call = 1;
    let r = render_results(
        vec![Entry { symbol_name: String::from("f"), statistics: s.clone() }],
        s,
        OutputFormat::Plain,
        None,
        usize::MAX,
        true,
    )
    .unwrap();
    let expected_row = " total: 2 mem_read: 1, mem_write: 0, stack_read: 0, stack_write: 0, call 1\n";
    assert_eq!(r, format!("Total{expected_row}f    {expected_row}"));
}

#[test]
fn json_rendering_without_breakdown() {
    let r = render_results(
        vec![entry("foo", 3)],
        total_stats(3),
        OutputFormat::JSON,
        None,
        usize::MAX,
        false,
    )
    .unwrap();
    assert_eq!(
        r,
        "[{\"symbol_name\":\"Total\",\"total\":3},{\"symbol_name\":\"foo\",\"total\":3}]"
    );
}

#[test]
fn json_breakdown_carries_other_map() {
    let mut s = Statistics::new();
    s.total = 5;
    s.add_other(String::from("x"), 2);
    let r = render_results(
        vec![Entry { symbol_name: String::from("foo"), statistics: s }],
        total_stats(5),
        OutputFormat::JSON,
        None,
        usize::MAX,
        true,
    )
    .unwrap();
    let mut expected = String::from("[{\"symbol_name\":\"Total\",\"total\":5,\"mem_read\":0,\"mem_write\":0,");
    expected.push_str("\"stack_read\":0,\"stack_write\":0,\"call\":0,\"other\":{}},");
    expected.push_str("{\"symbol_name\":\"foo\",\"total\":5,\"mem_read\":0,\"mem_write\":0,");
    expected.push_str("\"stack_read\":0,\"stack_write\":0,\"call\":0,\"other\":{\"x\":2}}]");
    assert_eq!(r, expected);
}

#[test]
fn json_escapes_quotes_in_names() {
    let r = render_results(
        vec![entry("a\"b", 1)],
        total_stats(1),
        OutputFormat::JSON,
        None,
        usize::MAX,
        false,
    )
    .unwrap();
    assert_eq!(
        r,
        "[{\"symbol_name\":\"Total\",\"total\":1},{\"symbol_name\":\"a\\\"b\",\"total\":1}]"
    );
}

#[test]
fn csv_rendering() {
    let r = render_results(
        vec![entry("foo", 3)],
        total_stats(3),
        OutputFormat::CSV,
        None,
        usize::MAX,
        false,
    )
    .unwrap();
    assert_eq!(r, "symbol name,count\n`Total`,3\n`foo`,3\n");
}

#[test]
fn csv_breakdown_columns() {
    let mut s = Statistics::new();
    s.total = 4;
    s.stack_write = 4;
    let r = render_results(
        vec![Entry { symbol_name: String::from("f"), statistics: s }],
        total_stats(4),
        OutputFormat::CSV,
        None,
        usize::MAX,
        true,
    )
    .unwrap();
    assert_eq!(
        r,
        "symbol name,count,mem_read,mem_write,stack_read,stack_write,call\n`Total`,4,0,0,0,0,0\n`f`,4,0,0,0,4,0\n"
    );
}

#[test]
fn markdown_rendering() {
    let r = render_results(
        vec![entry("foo", 3)],
        total_stats(3),
        OutputFormat::Markdown,
        None,
        usize::MAX,
        false,
    )
    .unwrap();
    assert_eq!(r, "|symbol name|count|\n|---|---|\n|`Total`|3|\n|`foo`|3|\n");
}

#[test]
fn descending_window_keeps_the_tail() {
    let rows = vec![entry("a", 1), entry("b", 2), entry("c", 3)];
    let r = render_results(
        rows,
        total_stats(6),
        OutputFormat::Plain,
        Some(Sorting { field: String::from("total"), direction: Direction::Descending }),
        2,
        false,
    )
    .unwrap();
    // Descending compares naturally, so the biggest totals sit last; the
    // window is the last two of [Total, a, b, c].
    assert_eq!(r, "b total: 2\nc total: 3\n");
}

#[test]
fn ascending_window_keeps_the_head() {
    let rows = vec![entry("a", 1), entry("b", 2), entry("c", 3)];
    let r = render_results(
        rows,
        total_stats(6),
        OutputFormat::Plain,
        Some(Sorting { field: String::from("total"), direction: Direction::Ascending }),
        2,
        false,
    )
    .unwrap();
    // Ascending reverses natural order: [Total, c, b, a]; the window is the
    // first two.
    assert_eq!(r, "Total total: 6\nc     total: 3\n");
}

#[test]
fn unknown_sort_field_reports_inline_and_leaves_order() {
    let rows = vec![entry("b", 2), entry("a", 1)];
    let r = render_results(
        rows,
        total_stats(3),
        OutputFormat::Plain,
        Some(Sorting { field: String::from("bogus"), direction: Direction::Ascending }),
        usize::MAX,
        false,
    )
    .unwrap();
    assert_eq!(
        r,
        "error: unknown field \"bogus\"\nTotal total: 3\nb     total: 2\na     total: 1\n"
    );
}

#[test]
fn sort_by_name_ascending_reverses_lexicographic() {
    let rows = vec![entry("alpha", 1), entry("beta", 2)];
    let r = render_results(
        rows,
        total_stats(3),
        OutputFormat::Plain,
        Some(Sorting { field: String::from("name"), direction: Direction::Ascending }),
        usize::MAX,
        false,
    )
    .unwrap();
    assert_eq!(r, "Total total: 3\nbeta  total: 2\nalpha total: 1\n");
}

#[test]
fn sorting_directions_give_reverse_orders_of_one_multiset() {
    let mut asc = vec![entry("a", 2), entry("b", 1), entry("c", 3)];
    let mut desc = asc.clone();
    sort_rows(&mut asc, false, Direction::Ascending);
    sort_rows(&mut desc, false, Direction::Descending);
    let asc_totals: Vec<u32> = asc.iter().map(|e| e.statistics.total).collect();
    let desc_totals: Vec<u32> = desc.iter().map(|e| e.statistics.total).collect();
    let mut reversed = asc_totals.clone();
    reversed.reverse();
    assert_eq!(reversed, desc_totals);
    assert_eq!(asc_totals, vec![3, 2, 1]);
}

#[test]
fn long_names_are_cut_with_an_ellipsis() {
    let long = "x".repeat(120);
    let r = render_results(
        vec![entry(&long, 1)],
        total_stats(1),
        OutputFormat::Plain,
        None,
        usize::MAX,
        false,
    )
    .unwrap();
    let mut expected = String::from("Total");
    expected.push_str(&" ".repeat(95));
    expected.push_str(" total: 1\n");
    expected.push_str(&"x".repeat(97));
    expected.push_str("... total: 1\n");
    assert_eq!(r, expected);
}

#[test]
fn format_from_extension() {
    assert_eq!(OutputFormat::from_extension("txt"), OutputFormat::Plain);
    assert_eq!(OutputFormat::from_extension("json"), OutputFormat::JSON);
    assert_eq!(OutputFormat::from_extension("csv"), OutputFormat::CSV);
    assert_eq!(OutputFormat::from_extension("md"), OutputFormat::Markdown);
    assert_eq!(OutputFormat::from_extension("odd"), OutputFormat::Plain);
}

#[test]
fn direction_compare_inverts_for_ascending() {
    assert_eq!(Direction::Descending.compare(1, 2), Ordering::Less);
    assert_eq!(Direction::Ascending.compare(1, 2), Ordering::Greater);
    assert_eq!(Direction::Ascending.compare(2, 2), Ordering::Equal);
}
