use depict::report::{collect_symbol_counts, parse, Count};
use depict::ToolOutput;

fn lines(ls: &[&str]) -> Vec<String> {
    ls.iter().map(|l| String::from(*l)).collect()
}

#[test]
fn function_section_with_escaped_name() {
    let parts = parse(
        &lines(&[
            "#GLOBAL_FUNCTION TOTALS ",
            "# $dynamic-counts-for-function: foo$LT$Bar$GT$ IMG: a.out",
            "*total 42",
            "# $global-dynamic-counts",
        ]),
        false,
    );
    assert_eq!(parts[0].0, "foo<Bar>");
    assert_eq!(parts[0].1.total, 42);
}

#[test]
fn lines_before_start_marker_are_ignored() {
    let parts = parse(
        &lines(&[
            "# $dynamic-counts-for-function: early$LT$T$GT$ IMG: x",
            "*total 9",
            "#GLOBAL_FUNCTION TOTALS ",
            "# $dynamic-counts-for-function: late IMG: x",
            "*total 5",
        ]),
        false,
    );
    assert_eq!(parts.len(), 1);
    assert_eq!(parts[0].0, "late");
    assert_eq!(parts[0].1.total, 5);
}

#[test]
fn all_counter_fields_are_read() {
    let parts = parse(
        &lines(&[
            "#GLOBAL_FUNCTION TOTALS ",
            "# $dynamic-counts-for-function: f IMG: x",
            "*total 10",
            "*stack-read 1",
            "*stack-write 2",
            "*mem-read 3",
            "*mem-write 4",
            "*category-CALL 5",
            "# $global-dynamic-counts",
        ]),
        false,
    );
    assert_eq!(
        parts[0].1,
        Count { total: 10, mem_read: 3, mem_write: 4, stack_read: 1, stack_write: 2, call: 5 }
    );
}

#[test]
fn internal_sections_are_dropped_when_skipping() {
    let parts = parse(
        &lines(&[
            "#GLOBAL_FUNCTION TOTALS ",
            "# $dynamic-counts-for-function: std::vec IMG: x",
            "*total 3",
            "# $dynamic-counts-for-function: bench IMG: x",
            "*total 4",
        ]),
        true,
    );
    assert_eq!(parts.len(), 1);
    assert_eq!(parts[0].0, "bench");
    assert_eq!(parts[0].1.total, 4);
}

#[test]
fn malformed_value_lines_are_skipped() {
    let parts = parse(
        &lines(&[
            "#GLOBAL_FUNCTION TOTALS ",
            "# $dynamic-counts-for-function: f IMG: x",
            "*total notanumber",
            "*mem-read 2",
        ]),
        false,
    );
    assert_eq!(parts[0].1.total, 0);
    assert_eq!(parts[0].1.mem_read, 2);
}

#[test]
fn collect_sums_field_wise_over_sections() {
    let rows = vec![
        (String::from("a"), Count { total: 3, mem_read: 1, mem_write: 0, stack_read: 0, stack_write: 0, call: 2 }),
        (String::from("b"), Count { total: 4, mem_read: 2, mem_write: 1, stack_read: 0, stack_write: 0, call: 0 }),
    ];
    let out = collect_symbol_counts(rows).expect("sums fit");
    match out {
        ToolOutput::SymbolInstructionCounts { symbols, total } => {
            assert_eq!(symbols.len(), 2);
            assert_eq!(symbols[0].symbol_name, "a");
            assert_eq!(symbols[1].statistics.mem_read, 2);
            assert_eq!(total.total, 7);
            assert_eq!(total.mem_read, 3);
            assert_eq!(total.call, 2);
        }
        _ => panic!("unexpected backend output"),
    }
}

#[test]
fn collect_reports_overflow() {
    let rows = vec![
        (String::from("a"), Count { total: u32::MAX, mem_read: 0, mem_write: 0, stack_read: 0, stack_write: 0, call: 0 }),
        (String::from("b"), Count { total: 1, mem_read: 0, mem_write: 0, stack_read: 0, stack_write: 0, call: 0 }),
    ];
    assert!(collect_symbol_counts(rows).is_none());
}
