use depict::live::{is_internal_symbol, LiveAggregator};
use depict::ToolOutput;

fn run(lines: &[&str], merge_internals: bool) -> (Vec<depict::Entry>, depict::Statistics) {
    let mut agg = LiveAggregator::new(merge_internals);
    let owned: Vec<String> = lines.iter().map(|l| String::from(*l)).collect();
    let _passed = agg.process_lines(&owned);
    match agg.finish() {
        ToolOutput::SymbolInstructionCounts { symbols, total } => (symbols, total),
        _ => panic!("unexpected backend output"),
    }
}

#[test]
fn plain_symbol_with_skip_internals_enabled() {
    let (symbols, total) = run(&["depict_qbdi::bm::my_func/mem_read/10"], true);
    let entry = symbols
        .iter()
        .find(|e| e.symbol_name == "bm::my_func")
        .expect("entry for bm::my_func");
    assert_eq!(entry.statistics.mem_read, 10);
    assert_eq!(entry.statistics.total, 10);
    assert_eq!(total.total, 10);
}

#[test]
fn grand_total_counts_all_parsed_lines_pre_filter() {
    let (_symbols, total) = run(
        &[
            "depict_qbdi::std::alpha/call/3",
            "depict_qbdi::bm::beta/mem_write/4",
            "not instrumentation output",
            "depict_qbdi::broken_line_without_separator",
            "depict_qbdi::bm::gamma/call/notanumber",
        ],
        true,
    );
    // 3 + 4; the untagged and malformed lines contribute nothing.
    assert_eq!(total.total, 7);
    assert_eq!(total.call, 3);
    assert_eq!(total.mem_write, 4);
}

#[test]
fn untagged_lines_pass_through_verbatim() {
    let mut agg = LiveAggregator::new(false);
    let lines = vec![
        String::from("hello from the program"),
        String::from("depict_qbdi::bm::f/call/1"),
    ];
    let passed = agg.process_lines(&lines);
    assert_eq!(passed, vec![String::from("hello from the program")]);
}

#[test]
fn internal_symbols_merge_into_internal_bucket() {
    let (symbols, total) = run(
        &[
            "depict_qbdi::std::one/call/3",
            "depict_qbdi::core::two/call/4",
            "depict_qbdi::bm::mine/call/5",
        ],
        true,
    );
    let internal = symbols
        .iter()
        .find(|e| e.symbol_name == "Internal")
        .expect("synthetic Internal entry");
    assert_eq!(internal.statistics.total, 7);
    assert_eq!(internal.statistics.call, 7);
    let mine = symbols.iter().find(|e| e.symbol_name == "bm::mine").unwrap();
    assert_eq!(mine.statistics.total, 5);
    assert_eq!(total.total, 12);
}

#[test]
fn no_merge_keeps_internal_symbols_separate() {
    let (symbols, _total) = run(&["depict_qbdi::std::one/call/3"], false);
    assert!(symbols.iter().any(|e| e.symbol_name == "std::one"));
    assert!(!symbols.iter().any(|e| e.symbol_name == "Internal"));
}

#[test]
fn internal_markers() {
    assert!(is_internal_symbol("std::vec::Vec"));
    assert!(is_internal_symbol("core::fmt::write"));
    assert!(is_internal_symbol("alloc::alloc"));
    assert!(is_internal_symbol("_start"));
    assert!(is_internal_symbol("*unknown*"));
    assert!(is_internal_symbol("OUTLINED_FUNCTION_17"));
    assert!(!is_internal_symbol("bm::my_func"));
}

#[test]
fn mangled_names_are_demangled() {
    let (symbols, _total) = run(&["depict_qbdi::_ZN2bm7my_func17h0123456789abcdefE/call/1"], false);
    assert!(symbols.iter().any(|e| e.symbol_name == "bm::my_func"));
}

#[test]
fn repeated_symbol_accumulates() {
    let (symbols, total) = run(
        &[
            "depict_qbdi::bm::f/call/2",
            "depict_qbdi::bm::f/mem_read/3",
        ],
        false,
    );
    let e = symbols.iter().find(|e| e.symbol_name == "bm::f").unwrap();
    assert_eq!(e.statistics.total, 5);
    assert_eq!(e.statistics.call, 2);
    assert_eq!(e.statistics.mem_read, 3);
    assert_eq!(total.total, 5);
}

#[test]
fn unknown_category_goes_to_others() {
    let (symbols, total) = run(&["depict_qbdi::bm::f/prefetch/6"], false);
    let e = symbols.iter().find(|e| e.symbol_name == "bm::f").unwrap();
    assert_eq!(e.statistics.others, vec![(String::from("prefetch"), 6)]);
    assert_eq!(e.statistics.total, 6);
    assert_eq!(total.others, vec![(String::from("prefetch"), 6)]);
}
