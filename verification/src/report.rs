//! The report-file backend parser: a finite-state accumulator over the lines
//! of a multi-section text report.  A global header line opens the relevant
//! region; section header lines name a symbol and flush the section before
//! them; `*`-lines carry counter values.  A line that fails its grammar is
//! skipped and the parse goes on.

use vstd::prelude::*;

use crate::text::{
    has_substring, is_prefix_of, parse_u32_spec, replace_all, trim_start, contains_str,
    parse_u32, replace_all_str, str_eq, strip_prefix_str, trim_start_str, first_index, has_char,
    find_char, line_views,
};

verus! {

/// The counters a report section carries.
#[derive(Clone, Copy, Debug, Default, PartialEq, Eq, Structural)]
pub struct Count {
    pub total: u32,
    pub mem_read: u32,
    pub mem_write: u32,
    pub stack_read: u32,
    pub stack_write: u32,
    pub call: u32,
}

/// The all-zero counters.
pub open spec fn zero_count() -> Count {
    Count { total: 0, mem_read: 0, mem_write: 0, stack_read: 0, stack_write: 0, call: 0 }
}

impl Count {
    /// The all-zero counters.
    pub fn new() -> (r: Count)
        ensures
            r == zero_count(),
    {
        Count { total: 0, mem_read: 0, mem_write: 0, stack_read: 0, stack_write: 0, call: 0 }
    }
}

// ---------------------------------------------------------------------------
// The parser as a state machine
// ---------------------------------------------------------------------------

/// The accumulator: whether the relevant region was reached, the section
/// being gathered, and the sections already emitted.
pub ghost struct ReportState {
    pub started: bool,
    pub section: Seq<char>,
    pub count: Count,
    pub parts: Seq<(Seq<char>, Count)>,
}

/// The state before any line.
pub open spec fn report_init() -> ReportState {
    ReportState { started: false, section: Seq::empty(), count: zero_count(), parts: Seq::empty() }
}

/// The symbol name a header line opens, if it is a header: the grand-total
/// section is named `global`, a per-function section by the text up to the
/// first space after the marker.  A function header without that space is
/// malformed and opens nothing.
pub open spec fn header_name(l: Seq<char>) -> Option<Seq<char>> {
    if l == "# $global-dynamic-counts"@ {
        Some("global"@)
    } else if is_prefix_of("# $dynamic-counts-for-function: "@, l) {
        let rest = l.skip("# $dynamic-counts-for-function: "@.len() as int);
        if has_char(rest, ' ') {
            Some(rest.subrange(0, first_index(rest, ' ')))
        } else {
            None
        }
    } else {
        None
    }
}

/// Section names escape angle brackets; reverse that.
pub open spec fn unescape_name(n: Seq<char>) -> Seq<char> {
    replace_all(replace_all(n, "$LT$"@, "<"@), "$GT$"@, ">"@)
}

/// A section name attributed to the language runtime or standard library.
pub open spec fn internal_section(name: Seq<char>) -> bool {
    has_substring(name, "alloc"@) || has_substring(name, "std"@) || has_substring(name, "core"@)
}

/// Emits the gathered section, unless its name is empty or the internal
/// filter drops it.
pub open spec fn flush(st: ReportState, skip_internals: bool) -> Seq<(Seq<char>, Count)> {
    if (skip_internals && internal_section(st.section)) || st.section.len() == 0 {
        st.parts
    } else {
        st.parts.push((st.section, st.count))
    }
}

/// How a non-header line inside the region changes the gathered counters:
/// a known `*`-marker followed by a number sets that field; anything else,
/// including an unreadable number, changes nothing.
pub open spec fn value_update(c: Count, l: Seq<char>) -> Count {
    if is_prefix_of("*total"@, l) {
        match parse_u32_spec(trim_start(l.skip("*total"@.len() as int))) {
            Some(v) => Count { total: v, ..c },
            None => c,
        }
    } else if is_prefix_of("*stack-read "@, l) {
        match parse_u32_spec(trim_start(l.skip("*stack-read "@.len() as int))) {
            Some(v) => Count { stack_read: v, ..c },
            None => c,
        }
    } else if is_prefix_of("*stack-write "@, l) {
        match parse_u32_spec(trim_start(l.skip("*stack-write "@.len() as int))) {
            Some(v) => Count { stack_write: v, ..c },
            None => c,
        }
    } else if is_prefix_of("*mem-read "@, l) {
        match parse_u32_spec(trim_start(l.skip("*mem-read "@.len() as int))) {
            Some(v) => Count { mem_read: v, ..c },
            None => c,
        }
    } else if is_prefix_of("*mem-write "@, l) {
        match parse_u32_spec(trim_start(l.skip("*mem-write "@.len() as int))) {
            Some(v) => Count { mem_write: v, ..c },
            None => c,
        }
    } else if is_prefix_of("*category-CALL"@, l) {
        match parse_u32_spec(trim_start(l.skip("*category-CALL"@.len() as int))) {
            Some(v) => Count { call: v, ..c },
            None => c,
        }
    } else {
        c
    }
}

/// One line of the report.  Before the start marker every line is ignored;
/// from the marker on, a header flushes the section before it and opens a
/// new one, and any other line feeds the counters.
pub open spec fn report_step(st: ReportState, skip_internals: bool, l: Seq<char>) -> ReportState {
    if !st.started && l != "#GLOBAL_FUNCTION TOTALS "@ {
        st
    } else {
        match header_name(l) {
            Some(name) => ReportState {
                started: true,
                section: unescape_name(name),
                count: zero_count(),
                parts: flush(st, skip_internals),
            },
            None => ReportState { started: true, count: value_update(st.count, l), ..st },
        }
    }
}

/// The state after all of `lines`.
pub open spec fn report_run(lines: Seq<Seq<char>>, skip_internals: bool) -> ReportState
    decreases lines.len(),
{
    if lines.len() == 0 {
        report_init()
    } else {
        report_step(report_run(lines.drop_last(), skip_internals), skip_internals, lines.last())
    }
}

/// The sections the report yields: all flushed sections, the last one
/// emitted at end-of-input under the same rules.
pub open spec fn report_parts(lines: Seq<Seq<char>>, skip_internals: bool) -> Seq<
    (Seq<char>, Count),
> {
    flush(report_run(lines, skip_internals), skip_internals)
}

/// The characters of each emitted section name, with its counters.
pub open spec fn part_views(parts: Seq<(String, Count)>) -> Seq<(Seq<char>, Count)> {
    parts.map_values(|p: (String, Count)| (p.0@, p.1))
}

// ---------------------------------------------------------------------------
// From sections to a backend result
// ---------------------------------------------------------------------------

/// The six counter sums over a sequence of sections, in field order.
pub open spec fn sum_counts(s: Seq<Count>) -> (int, int, int, int, int, int)
    decreases s.len(),
{
    if s.len() == 0 {
        (0, 0, 0, 0, 0, 0)
    } else {
        let p = sum_counts(s.drop_last());
        let c = s.last();
        (
            p.0 + c.total,
            p.1 + c.mem_read,
            p.2 + c.mem_write,
            p.3 + c.stack_read,
            p.4 + c.stack_write,
            p.5 + c.call,
        )
    }
}

/// All six sums fit a `u32`.
pub open spec fn sums_fit(t: (int, int, int, int, int, int)) -> bool {
    t.0 <= u32::MAX && t.1 <= u32::MAX && t.2 <= u32::MAX && t.3 <= u32::MAX && t.4 <= u32::MAX
        && t.5 <= u32::MAX
}

/// The counters of each section.
pub open spec fn counts_of(rows: Seq<(String, Count)>) -> Seq<Count> {
    rows.map_values(|p: (String, Count)| p.1)
}

/// A section's counters read as a full statistics record.
pub open spec fn stats_of_count(c: Count) -> crate::stats::StatsModel {
    crate::stats::StatsModel {
        total: c.total as int,
        mem_read: c.mem_read as int,
        mem_write: c.mem_write as int,
        stack_read: c.stack_read as int,
        stack_write: c.stack_write as int,
        call: c.call as int,
        branch: 0,
        ret: 0,
        compare: 0,
        logic: 0,
        arithmetic: 0,
        others: Map::empty(),
    }
}

/// No prefix of the sections sums to more than the whole.
pub proof fn lemma_sum_counts_prefix(s: Seq<Count>, i: int)
    requires
        0 <= i <= s.len(),
    ensures
        ({
            let p = sum_counts(s.subrange(0, i));
            let w = sum_counts(s);
            p.0 <= w.0 && p.1 <= w.1 && p.2 <= w.2 && p.3 <= w.3 && p.4 <= w.4 && p.5 <= w.5
        }),
    decreases s.len() - i,
{
    if i < s.len() {
        assert(s.subrange(0, i + 1).drop_last() =~= s.subrange(0, i));
        assert(s.subrange(0, i + 1).last() == s[i]);
        lemma_sum_counts_prefix(s, i + 1);
    } else {
        assert(s.subrange(0, i) =~= s);
    }
}

/// Turns parsed sections into a backend result: one entry per section, and
/// a grand total summed field-wise over the emitted, post-filter sections.
/// `None` exactly when some counter sum does not fit a `u32`.
pub fn collect_symbol_counts(rows: Vec<(String, Count)>) -> (r: Option<crate::stats::ToolOutput>)
    ensures
        r is Some <==> sums_fit(sum_counts(counts_of(rows@))),
        match r {
            Some(out) => match out {
                crate::stats::ToolOutput::SymbolInstructionCounts { symbols, total } => {
                    let sums = sum_counts(counts_of(rows@));
                    &&& symbols@.len() == rows@.len()
                    &&& forall|j: int|
                        0 <= j < rows@.len() ==> (#[trigger] symbols@[j]).symbol_name@
                            == rows@[j].0@ && symbols@[j].statistics.model() == stats_of_count(
                            rows@[j].1,
                        ) && symbols@[j].statistics.wf()
                    &&& total.wf()
                    &&& total.model() == (crate::stats::StatsModel {
                        total: sums.0,
                        mem_read: sums.1,
                        mem_write: sums.2,
                        stack_read: sums.3,
                        stack_write: sums.4,
                        call: sums.5,
                        branch: 0,
                        ret: 0,
                        compare: 0,
                        logic: 0,
                        arithmetic: 0,
                        others: Map::empty(),
                    })
                },
            },
            None => true,
        },
{
    let n: usize = rows.len();
    let mut symbols: Vec<crate::stats::Entry> = Vec::new();
    let mut total: crate::stats::Statistics = crate::stats::Statistics::new();
    let mut i: usize = 0;
    proof {
        assert(counts_of(rows@).subrange(0, 0) =~= Seq::<Count>::empty());
    }
    while i < n
        invariant
            i <= n,
            n == rows@.len(),
            symbols@.len() == i,
            forall|j: int|
                0 <= j < i ==> (#[trigger] symbols@[j]).symbol_name@ == rows@[j].0@
                    && symbols@[j].statistics.model() == stats_of_count(rows@[j].1)
                    && symbols@[j].statistics.wf(),
            total.wf(),
            total.others@.len() == 0,
            total.branch == 0 && total.ret == 0 && total.compare == 0 && total.logic == 0
                && total.arithmetic == 0,
            ({
                let p = sum_counts(counts_of(rows@).subrange(0, i as int));
                total.total == p.0 && total.mem_read == p.1 && total.mem_write == p.2
                    && total.stack_read == p.3 && total.stack_write == p.4 && total.call == p.5
            }),
        decreases n - i,
    {
        let ghost cs = counts_of(rows@);
        proof {
            assert(cs.subrange(0, i + 1).drop_last() =~= cs.subrange(0, i as int));
            assert(cs.subrange(0, i + 1).last() == cs[i as int]);
        }
        let c: Count = rows[i].1;
        let nt: Option<u32> = total.total.checked_add(c.total);
        let n1: Option<u32> = total.mem_read.checked_add(c.mem_read);
        let n2: Option<u32> = total.mem_write.checked_add(c.mem_write);
        let n3: Option<u32> = total.stack_read.checked_add(c.stack_read);
        let n4: Option<u32> = total.stack_write.checked_add(c.stack_write);
        let n5: Option<u32> = total.call.checked_add(c.call);
        if nt.is_none() || n1.is_none() || n2.is_none() || n3.is_none() || n4.is_none()
            || n5.is_none() {
            proof {
                lemma_sum_counts_prefix(cs, i + 1);
            }
            return None;
        }
        total.total = nt.unwrap();
        total.mem_read = n1.unwrap();
        total.mem_write = n2.unwrap();
        total.stack_read = n3.unwrap();
        total.stack_write = n4.unwrap();
        total.call = n5.unwrap();
        let name: String = rows[i].0.clone();
        let stats = crate::stats::Statistics {
            total: c.total,
            mem_read: c.mem_read,
            mem_write: c.mem_write,
            stack_read: c.stack_read,
            stack_write: c.stack_write,
            call: c.call,
            branch: 0,
            ret: 0,
            compare: 0,
            logic: 0,
            arithmetic: 0,
            others: Vec::new(),
        };
        proof {
            assert(crate::stats::others_map(stats.others@) =~= Map::<Seq<char>, int>::empty());
            assert(stats.model() =~= stats_of_count(c));
        }
        symbols.push(crate::stats::Entry { symbol_name: name, statistics: stats });
        i += 1;
    }
    proof {
        assert(counts_of(rows@).subrange(0, n as int) =~= counts_of(rows@));
        assert(crate::stats::others_map(total.others@) =~= Map::<Seq<char>, int>::empty());
    }
    Some(crate::stats::ToolOutput::SymbolInstructionCounts { symbols, total })
}

// ---------------------------------------------------------------------------
// The executable parser
// ---------------------------------------------------------------------------

/// Reads one value line into `count`, mirroring [`value_update`].
fn apply_value_line(count: &mut Count, line: &str)
    ensures
        *final(count) == value_update(*old(count), line@),
{
    if let Some(rest) = strip_prefix_str(line, "*total") {
        if let Some(v) = parse_u32(trim_start_str(rest)) {
            count.total = v;
        }
    } else if let Some(rest) = strip_prefix_str(line, "*stack-read ") {
        if let Some(v) = parse_u32(trim_start_str(rest)) {
            count.stack_read = v;
        }
    } else if let Some(rest) = strip_prefix_str(line, "*stack-write ") {
        if let Some(v) = parse_u32(trim_start_str(rest)) {
            count.stack_write = v;
        }
    } else if let Some(rest) = strip_prefix_str(line, "*mem-read ") {
        if let Some(v) = parse_u32(trim_start_str(rest)) {
            count.mem_read = v;
        }
    } else if let Some(rest) = strip_prefix_str(line, "*mem-write ") {
        if let Some(v) = parse_u32(trim_start_str(rest)) {
            count.mem_write = v;
        }
    } else if let Some(rest) = strip_prefix_str(line, "*category-CALL") {
        if let Some(v) = parse_u32(trim_start_str(rest)) {
            count.call = v;
        }
    }
}

/// The name a header line opens, unescaped, mirroring [`header_name`].
fn read_header_name(line: &str) -> (r: Option<String>)
    ensures
        match r {
            Some(n) => header_name(line@) is Some && n@ == header_name(line@)->Some_0,
            None => header_name(line@) is None,
        },
{
    if str_eq(line, "# $global-dynamic-counts") {
        Some(String::from_str("global"))
    } else if let Some(rest) = strip_prefix_str(line, "# $dynamic-counts-for-function: ") {
        match find_char(rest, ' ') {
            Some(sp) => {
                proof {
                    crate::text::lemma_first_index(rest@, ' ');
                }
                let name = rest.substring_char(0, sp);
                proof {
                    assert(name@ =~= rest@.subrange(0, first_index(rest@, ' ')));
                }
                Some(String::from_str(name))
            },
            None => None,
        }
    } else {
        None
    }
}

/// Parses the lines of a report into `(symbol, counters)` sections, in the
/// order their headers stand in the report.  With `skip_rust_internals` set,
/// sections of runtime or standard-library symbols are dropped.
pub fn parse(lines: &Vec<String>, skip_rust_internals: bool) -> (r: Vec<(String, Count)>)
    ensures
        part_views(r@) == report_parts(line_views(lines@), skip_rust_internals),
{
    let mut started: bool = false;
    let mut section: String = String::new();
    let mut count: Count = Count::new();
    let mut parts: Vec<(String, Count)> = Vec::new();

    let n: usize = lines.len();
    let mut i: usize = 0;
    proof {
        assert(line_views(lines@.subrange(0, 0)) =~= Seq::<Seq<char>>::empty());
        assert(part_views(parts@) =~= Seq::<(Seq<char>, Count)>::empty());
    }
    while i < n
        invariant
            i <= n,
            n == lines@.len(),
            ({
                let st = report_run(line_views(lines@.subrange(0, i as int)), skip_rust_internals);
                &&& started == st.started
                &&& section@ == st.section
                &&& count == st.count
                &&& part_views(parts@) == st.parts
            }),
        decreases n - i,
    {
        let ghost pre = line_views(lines@.subrange(0, i as int));
        let ghost st = report_run(pre, skip_rust_internals);
        let line: &str = lines[i].as_str();
        proof {
            let pre1 = line_views(lines@.subrange(0, i + 1));
            assert(pre1.drop_last() =~= pre) by {
                assert(lines@.subrange(0, i + 1).drop_last() =~= lines@.subrange(0, i as int));
            }
            assert(pre1.last() == line@) by {
                assert(lines@.subrange(0, i + 1).last() == lines@[i as int]);
            }
        }
        if str_eq(line, "#GLOBAL_FUNCTION TOTALS ") {
            started = true;
        }
        if started {
            match read_header_name(line) {
                Some(new_name) => {
                    let skip: bool = if skip_rust_internals {
                        contains_str(section.as_str(), "alloc") || contains_str(
                            section.as_str(),
                            "std",
                        ) || contains_str(section.as_str(), "core")
                    } else {
                        false
                    };
                    let skip: bool = skip || section.as_str().unicode_len() == 0;
                    let ghost parts0 = parts@;
                    if !skip {
                        parts.push((section, count));
                        proof {
                            assert(part_views(parts@) =~= part_views(parts0).push(
                                (st.section, st.count),
                            ));
                        }
                    }
                    proof {
                        reveal_strlit("$LT$");
                        reveal_strlit("$GT$");
                    }
                    let unescaped: String = replace_all_str(
                        replace_all_str(new_name.as_str(), "$LT$", "<").as_str(),
                        "$GT$",
                        ">",
                    );
                    section = unescaped;
                    count = Count::new();
                },
                None => {
                    apply_value_line(&mut count, line);
                },
            }
        }
        i += 1;
    }
    proof {
        assert(lines@.subrange(0, n as int) =~= lines@);
    }
    let skip_last: bool = if skip_rust_internals {
        contains_str(section.as_str(), "alloc") || contains_str(section.as_str(), "std")
            || contains_str(section.as_str(), "core")
    } else {
        false
    };
    let skip_last: bool = skip_last || section.as_str().unicode_len() == 0;
    if !skip_last {
        let ghost parts0 = parts@;
        let ghost stf = report_run(line_views(lines@), skip_rust_internals);
        parts.push((section, count));
        proof {
            assert(part_views(parts@) =~= part_views(parts0).push((stf.section, stf.count)));
        }
    }
    parts
}

} // verus!
