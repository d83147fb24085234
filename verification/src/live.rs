//! The live-stream backend parser: a stateful aggregator over the tagged
//! lines an instrumented process prints while it runs.  A line without the
//! tag is program output and is handed back verbatim; a tagged line names a
//! mangled symbol, a category and a count, and is routed into the per-symbol
//! records and the running grand total.  The grand total counts every
//! well-formed record, whether or not the symbol is filtered — it is taken
//! before the internal-symbol policy.

use vstd::prelude::*;

use crate::outside::{demangle_symbol, demangled_of};
use crate::stats::{
    bump_fits, bump_model, fixed_kind, has_key, others_sum, zero_model, Entry, StatsModel,
    Statistics, ToolOutput,
};
use crate::text::{
    find_char, first_index, has_char, is_prefix_of, parse_u32, parse_u32_spec, starts_with_str,
    str_eq, strip_prefix_str,
};

verus! {

// ---------------------------------------------------------------------------
// The line grammar
// ---------------------------------------------------------------------------

/// The tag that marks an instrumentation record.
pub open spec fn live_tag() -> Seq<char> {
    "depict_qbdi::"@
}

/// What a tagged line carries, once the tag is gone: the mangled symbol up
/// to the first `/`, the category up to the next `/`, and a readable count.
/// `None` when a separator or the number is missing — such a line is
/// skipped.
pub open spec fn live_record(l: Seq<char>) -> Option<(Seq<char>, Seq<char>, u32)> {
    let rest = l.skip(live_tag().len() as int);
    if !has_char(rest, '/') {
        None
    } else {
        let func = rest.subrange(0, first_index(rest, '/'));
        let r2 = rest.skip(first_index(rest, '/') + 1);
        if !has_char(r2, '/') {
            None
        } else {
            let kind = r2.subrange(0, first_index(r2, '/'));
            let ct = r2.skip(first_index(r2, '/') + 1);
            match parse_u32_spec(ct) {
                Some(v) => Some((func, kind, v)),
                None => None,
            }
        }
    }
}

/// A demangled name attributed to the language runtime: runtime namespaces,
/// compiler-generated outlined functions, and unnamed symbols.
pub open spec fn internal_name(n: Seq<char>) -> bool {
    ||| is_prefix_of("std::"@, n)
    ||| is_prefix_of("core::"@, n)
    ||| is_prefix_of("alloc::"@, n)
    ||| is_prefix_of("_"@, n)
    ||| is_prefix_of("*"@, n)
    ||| is_prefix_of("OUTLINED_FUNCTION_"@, n)
}

/// Whether the policy classes a demangled symbol name as runtime-internal.
pub fn is_internal_symbol(name: &str) -> (r: bool)
    ensures
        r == internal_name(name@),
{
    starts_with_str(name, "std::") || starts_with_str(name, "core::") || starts_with_str(
        name,
        "alloc::",
    ) || starts_with_str(name, "_") || starts_with_str(name, "*") || starts_with_str(
        name,
        "OUTLINED_FUNCTION_",
    )
}

// ---------------------------------------------------------------------------
// The aggregator as a state machine
// ---------------------------------------------------------------------------

/// The aggregator read mathematically: named per-symbol records in first-seen
/// order, the synthetic internal bucket, and the grand total.
#[verifier::ext_equal]
pub ghost struct LiveState {
    pub merge_internals: bool,
    pub entries: Seq<(Seq<char>, StatsModel)>,
    pub internal: StatsModel,
    pub total: StatsModel,
}

/// The state before any line.
pub open spec fn live_init(merge_internals: bool) -> LiveState {
    LiveState {
        merge_internals,
        entries: Seq::empty(),
        internal: zero_model(),
        total: zero_model(),
    }
}

/// Some record is named `name`.
pub open spec fn has_entry(es: Seq<(Seq<char>, StatsModel)>, name: Seq<char>) -> bool {
    exists|i: int| 0 <= i < es.len() && (#[trigger] es[i]).0 == name
}

/// The position of the record named `name` (meaningful when `has_entry`).
pub open spec fn entry_index(es: Seq<(Seq<char>, StatsModel)>, name: Seq<char>) -> int {
    choose|i: int| 0 <= i < es.len() && (#[trigger] es[i]).0 == name
}

/// One count routed to the record named `name`, created at the end when new.
pub open spec fn entries_bump(
    es: Seq<(Seq<char>, StatsModel)>,
    name: Seq<char>,
    kind: Seq<char>,
    v: int,
) -> Seq<(Seq<char>, StatsModel)> {
    if has_entry(es, name) {
        let i = entry_index(es, name);
        es.update(i, (name, bump_model(es[i].1, kind, v)))
    } else {
        es.push((name, bump_model(zero_model(), kind, v)))
    }
}

/// One line of the stream.  An untagged line changes nothing (it is program
/// output); a malformed tagged line is skipped; a well-formed record bumps
/// the grand total and either the internal bucket or the symbol's record.
pub open spec fn live_step(st: LiveState, l: Seq<char>) -> LiveState {
    if !is_prefix_of(live_tag(), l) {
        st
    } else {
        match live_record(l) {
            None => st,
            Some((func, kind, v)) => {
                let name = demangled_of(func);
                let st1 = LiveState { total: bump_model(st.total, kind, v as int), ..st };
                if st.merge_internals && internal_name(name) {
                    LiveState { internal: bump_model(st.internal, kind, v as int), ..st1 }
                } else {
                    LiveState { entries: entries_bump(st1.entries, name, kind, v as int), ..st1 }
                }
            },
        }
    }
}

/// What one line hands back to the caller: an untagged line verbatim.
pub open spec fn live_passthrough(l: Seq<char>) -> Option<Seq<char>> {
    if !is_prefix_of(live_tag(), l) {
        Some(l)
    } else {
        None
    }
}

/// The state after all of `lines`.
pub open spec fn live_run(st: LiveState, lines: Seq<Seq<char>>) -> LiveState
    decreases lines.len(),
{
    if lines.len() == 0 {
        st
    } else {
        live_step(live_run(st, lines.drop_last()), lines.last())
    }
}

/// The count a line contributes to the grand total: its parsed count when it
/// is a well-formed tagged record, nothing otherwise.
pub open spec fn line_count(l: Seq<char>) -> int {
    if is_prefix_of(live_tag(), l) {
        match live_record(l) {
            Some((func, kind, v)) => v as int,
            None => 0,
        }
    } else {
        0
    }
}

/// The sum of `line_count` over a stream.
pub open spec fn counted_sum(lines: Seq<Seq<char>>) -> int
    decreases lines.len(),
{
    if lines.len() == 0 {
        0
    } else {
        counted_sum(lines.drop_last()) + line_count(lines.last())
    }
}

/// The grand total's `total` after a stream is exactly the sum of the counts
/// of the lines whose record parsed — before any internal-symbol filtering.
pub proof fn lemma_grand_total_counts_all(st: LiveState, lines: Seq<Seq<char>>)
    ensures
        live_run(st, lines).total.total == st.total.total + counted_sum(lines),
    decreases lines.len(),
{
    if lines.len() > 0 {
        lemma_grand_total_counts_all(st, lines.drop_last());
    }
}

/// A prefix of the stream never counts more than the whole.
pub proof fn lemma_counted_sum_prefix(lines: Seq<Seq<char>>, i: int)
    requires
        0 <= i <= lines.len(),
    ensures
        counted_sum(lines.subrange(0, i)) <= counted_sum(lines),
    decreases lines.len() - i,
{
    if i < lines.len() {
        assert(lines.subrange(0, i + 1).drop_last() =~= lines.subrange(0, i));
        assert(lines.subrange(0, i + 1).last() == lines[i]);
        lemma_counted_sum_prefix(lines, i + 1);
    } else {
        assert(lines.subrange(0, i) =~= lines);
    }
}

// ---------------------------------------------------------------------------
// The executable aggregator
// ---------------------------------------------------------------------------

/// `a`'s every counter is at most `t`'s matching counter.
pub open spec fn dominated(a: Statistics, t: Statistics) -> bool {
    &&& a.total <= t.total
    &&& a.mem_read <= t.mem_read
    &&& a.mem_write <= t.mem_write
    &&& a.stack_read <= t.stack_read
    &&& a.stack_write <= t.stack_write
    &&& a.call <= t.call
    &&& a.branch <= t.branch
    &&& a.ret <= t.ret
    &&& a.compare <= t.compare
    &&& a.logic <= t.logic
    &&& a.arithmetic <= t.arithmetic
    &&& forall|k: Seq<char>| #[trigger]
        others_sum(a.others@, k) <= others_sum(t.others@, k)
}

/// No counter of the grand total exceeds its `total` field.
pub open spec fn total_bounded(t: Statistics) -> bool {
    &&& t.mem_read <= t.total
    &&& t.mem_write <= t.total
    &&& t.stack_read <= t.total
    &&& t.stack_write <= t.total
    &&& t.call <= t.total
    &&& t.branch <= t.total
    &&& t.ret <= t.total
    &&& t.compare <= t.total
    &&& t.logic <= t.total
    &&& t.arithmetic <= t.total
    &&& forall|k: Seq<char>| #[trigger] others_sum(t.others@, k) <= t.total
    &&& forall|k: Seq<char>| #[trigger] others_sum(t.others@, k) >= 0
}

/// Consumes the tagged lines of one instrumented run and builds the
/// per-symbol records and the grand total.
pub struct LiveAggregator {
    merge_internals: bool,
    entries: Vec<Entry>,
    internal: Statistics,
    total: Statistics,
}

impl LiveAggregator {
    /// The aggregator read mathematically.
    pub closed spec fn model(self) -> LiveState {
        LiveState {
            merge_internals: self.merge_internals,
            entries: self.entries@.map_values(|e: Entry| (e.symbol_name@, e.statistics.model())),
            internal: self.internal.model(),
            total: self.total.model(),
        }
    }

    /// Well-formed records, distinct symbol names, and every record within
    /// the grand total.
    pub closed spec fn inv(self) -> bool {
        &&& self.total.wf()
        &&& self.internal.wf()
        &&& forall|i: int|
            0 <= i < self.entries@.len() ==> (#[trigger] self.entries@[i]).statistics.wf()
        &&& forall|i: int, j: int|
            0 <= i < j < self.entries@.len() ==> (#[trigger] self.entries@[i]).symbol_name@ != (
            #[trigger] self.entries@[j]).symbol_name@
        &&& total_bounded(self.total)
        &&& dominated(self.internal, self.total)
        &&& forall|i: int|
            0 <= i < self.entries@.len() ==> dominated(
                (#[trigger] self.entries@[i]).statistics,
                self.total,
            )
    }

    /// A fresh aggregator.  With `merge_internals` set, runtime-internal
    /// symbols are merged into one synthetic `"Internal"` record.
    pub fn new(merge_internals: bool) -> (r: LiveAggregator)
        ensures
            r.inv(),
            r.model() == live_init(merge_internals),
    {
        let r = LiveAggregator {
            merge_internals,
            entries: Vec::new(),
            internal: Statistics::new(),
            total: Statistics::new(),
        };
        proof {
            assert(r.entries@.map_values(|e: Entry| (e.symbol_name@, e.statistics.model())) =~= Seq::<
                (Seq<char>, StatsModel),
            >::empty());
            assert(r.model() =~= live_init(merge_internals));
        }
        r
    }

    /// Feeds one line of the child's output.  A line without the tag is
    /// handed back for the caller to forward verbatim.
    pub fn process_line(&mut self, line: &str) -> (passthrough: Option<String>)
        requires
            old(self).inv(),
            old(self).model().total.total + line_count(line@) <= u32::MAX,
        ensures
            final(self).inv(),
            final(self).model() == live_step(old(self).model(), line@),
            match passthrough {
                Some(p) => live_passthrough(line@) == Some(p@),
                None => live_passthrough(line@) is None,
            },
    {
        let rest: &str = match strip_prefix_str(line, "depict_qbdi::") {
            None => {
                return Some(line.to_owned());
            },
            Some(rest) => rest,
        };
        let slash1: usize = match find_char(rest, '/') {
            None => {
                return None;
            },
            Some(i) => i,
        };
        proof {
            crate::text::lemma_first_index(rest@, '/');
        }
        let rl: usize = rest.unicode_len();
        let func: &str = rest.substring_char(0, slash1);
        let r2: &str = rest.substring_char(slash1 + 1, rl);
        proof {
            assert(func@ =~= rest@.subrange(0, first_index(rest@, '/')));
            assert(r2@ =~= rest@.skip(first_index(rest@, '/') + 1));
        }
        let slash2: usize = match find_char(r2, '/') {
            None => {
                return None;
            },
            Some(i) => i,
        };
        proof {
            crate::text::lemma_first_index(r2@, '/');
        }
        let r2l: usize = r2.unicode_len();
        let kind_s: &str = r2.substring_char(0, slash2);
        let ct: &str = r2.substring_char(slash2 + 1, r2l);
        proof {
            assert(kind_s@ =~= r2@.subrange(0, first_index(r2@, '/')));
            assert(ct@ =~= r2@.skip(first_index(r2@, '/') + 1));
        }
        let v: u32 = match parse_u32(ct) {
            None => {
                return None;
            },
            Some(v) => v,
        };
        proof {
            assert(live_record(line@) == Some((func@, kind_s@, v)));
            assert(line_count(line@) == v as int);
        }
        let ghost t0 = self.total;
        let ghost st0 = self.model();
        let name: String = demangle_symbol(func);
        proof {
            assert(bump_fits(self.total, kind_s@, v));
        }
        self.total.bump(kind_s, v);
        proof {
            assert(total_bounded(self.total));
            assert forall|i: int| 0 <= i < self.entries@.len() implies dominated(
                (#[trigger] self.entries@[i]).statistics,
                self.total,
            ) by {}
            assert(dominated(self.internal, self.total));
        }
        if self.merge_internals && is_internal_symbol(name.as_str()) {
            proof {
                assert(dominated(self.internal, t0));
                assert(bump_fits(self.internal, kind_s@, v));
            }
            self.internal.bump(kind_s, v);
            proof {
                assert(dominated(self.internal, self.total));
                assert(final(self).model().entries =~= live_step(st0, line@).entries);
                assert(final(self).model() =~= live_step(st0, line@));
            }
            None
        } else {
            let n: usize = self.entries.len();
            let mut i: usize = 0;
            let mut found: bool = false;
            while i < n
                invariant_except_break
                    i <= n,
                    !found,
                    n == self.entries@.len(),
                    forall|j: int| 0 <= j < i ==> (#[trigger] self.entries@[j]).symbol_name@
                        != name@,
                ensures
                    i <= n,
                    n == self.entries@.len(),
                    found ==> i < n && self.entries@[i as int].symbol_name@ == name@,
                    !found ==> forall|j: int|
                        0 <= j < n ==> (#[trigger] self.entries@[j]).symbol_name@ != name@,
                decreases n - i,
            {
                if str_eq(self.entries[i].symbol_name.as_str(), name.as_str()) {
                    found = true;
                    break;
                }
                i += 1;
            }
            let ghost es0 = self.entries@;
            let ghost ms0 = es0.map_values(|e: Entry| (e.symbol_name@, e.statistics.model()));
            if found {
                proof {
                    assert(has_entry(ms0, name@)) by {
                        assert(ms0[i as int].0 == name@);
                    }
                    assert(entry_index(ms0, name@) == i as int) by {
                        let j = entry_index(ms0, name@);
                        assert(ms0[j].0 == name@);
                        if j != i as int {
                            assert(es0[j].symbol_name@ == es0[i as int].symbol_name@);
                        }
                    }
                }
                let mut e: Entry = self.entries.remove(i);
                proof {
                    assert(dominated(e.statistics, t0));
                    assert(bump_fits(e.statistics, kind_s@, v));
                }
                e.statistics.bump(kind_s, v);
                self.entries.insert(i, e);
                proof {
                    assert(self.entries@ =~= es0.update(i as int, e));
                    assert forall|j: int| 0 <= j < self.entries@.len() implies dominated(
                        (#[trigger] self.entries@[j]).statistics,
                        self.total,
                    ) by {
                        if j != i as int {
                            assert(self.entries@[j] == es0[j]);
                        }
                    }
                    assert(final(self).model().entries =~= entries_bump(
                        ms0,
                        name@,
                        kind_s@,
                        v as int,
                    ));
                    assert(final(self).model() =~= live_step(st0, line@));
                }
            } else {
                let mut fresh: Statistics = Statistics::new();
                proof {
                    assert(bump_fits(fresh, kind_s@, v));
                }
                fresh.bump(kind_s, v);
                proof {
                    assert(dominated(fresh, self.total));
                }
                self.entries.push(Entry { symbol_name: name, statistics: fresh });
                proof {
                    assert(!has_entry(ms0, name@)) by {
                        if has_entry(ms0, name@) {
                            let j = choose|j: int|
                                0 <= j < ms0.len() && (#[trigger] ms0[j]).0 == name@;
                            assert(es0[j].symbol_name@ == name@);
                        }
                    }
                    assert forall|j: int| 0 <= j < self.entries@.len() implies dominated(
                        (#[trigger] self.entries@[j]).statistics,
                        self.total,
                    ) by {
                        if j < es0.len() {
                            assert(self.entries@[j] == es0[j]);
                        }
                    }
                    assert forall|a: int, b: int|
                        0 <= a < b < self.entries@.len() implies (
                    #[trigger] self.entries@[a]).symbol_name@ != (
                    #[trigger] self.entries@[b]).symbol_name@ by {
                        if b == self.entries@.len() - 1 {
                            assert(es0[a].symbol_name@ != name@);
                        } else {
                            assert(self.entries@[a] == es0[a] && self.entries@[b] == es0[b]);
                        }
                    }
                    assert(final(self).model().entries =~= entries_bump(
                        ms0,
                        name@,
                        kind_s@,
                        v as int,
                    ));
                    assert(final(self).model() =~= live_step(st0, line@));
                }
            }
            None
        }
    }

    /// Feeds every line of `lines` in order and hands back the untagged
    /// lines, in order, for the caller to forward.
    pub fn process_lines(&mut self, lines: &Vec<String>) -> (passed: Vec<String>)
        requires
            old(self).inv(),
            old(self).model().total.total + counted_sum(crate::text::line_views(lines@))
                <= u32::MAX,
        ensures
            final(self).inv(),
            final(self).model() == live_run(old(self).model(), crate::text::line_views(lines@)),
            crate::text::line_views(passed@) == passthrough_lines(
                crate::text::line_views(lines@),
            ),
    {
        let ghost all = crate::text::line_views(lines@);
        let mut passed: Vec<String> = Vec::new();
        let n: usize = lines.len();
        let mut i: usize = 0;
        proof {
            assert(crate::text::line_views(lines@.subrange(0, 0)) =~= Seq::<Seq<char>>::empty());
            reveal(Seq::filter);
            assert(crate::text::line_views(passed@) =~= Seq::<Seq<char>>::empty());
            assert(passthrough_lines(Seq::<Seq<char>>::empty()) =~= Seq::<Seq<char>>::empty());
        }
        while i < n
            invariant
                i <= n,
                n == lines@.len(),
                all == crate::text::line_views(lines@),
                self.inv(),
                old(self).model().total.total + counted_sum(all) <= u32::MAX,
                self.model() == live_run(
                    old(self).model(),
                    crate::text::line_views(lines@.subrange(0, i as int)),
                ),
                crate::text::line_views(passed@) == passthrough_lines(
                    crate::text::line_views(lines@.subrange(0, i as int)),
                ),
            decreases n - i,
        {
            let ghost pre = crate::text::line_views(lines@.subrange(0, i as int));
            let ghost pre1 = crate::text::line_views(lines@.subrange(0, i + 1));
            let line: &str = lines[i].as_str();
            proof {
                assert(pre1.drop_last() =~= pre) by {
                    assert(lines@.subrange(0, i + 1).drop_last() =~= lines@.subrange(0, i as int));
                }
                assert(pre1.last() == line@) by {
                    assert(lines@.subrange(0, i + 1).last() == lines@[i as int]);
                }
                assert(pre1 =~= all.subrange(0, i + 1)) by {
                    assert(lines@.subrange(0, i + 1)[i as int] == lines@[i as int]);
                }
                lemma_grand_total_counts_all(old(self).model(), pre);
                lemma_counted_sum_prefix(all, i + 1);
            }
            let ghost passed0 = passed@;
            match self.process_line(line) {
                Some(p) => {
                    passed.push(p);
                    proof {
                        reveal(Seq::filter);
                        assert(crate::text::line_views(passed@) =~= crate::text::line_views(
                            passed0,
                        ).push(line@));
                        assert(passthrough_lines(pre1) =~= passthrough_lines(pre).push(line@));
                    }
                },
                None => {
                    proof {
                        reveal(Seq::filter);
                        assert(passthrough_lines(pre1) =~= passthrough_lines(pre));
                    }
                },
            }
            i += 1;
        }
        proof {
            assert(lines@.subrange(0, n as int) =~= lines@);
        }
        passed
    }

    /// Closes the run.  With the merge policy on, the internal bucket is
    /// written in as the record named `"Internal"`, replacing a record of
    /// that name if one exists.
    pub fn finish(self) -> (r: ToolOutput)
        requires
            self.inv(),
        ensures
            match r {
                ToolOutput::SymbolInstructionCounts { symbols, total } => {
                    &&& symbols@.map_values(|e: Entry| (e.symbol_name@, e.statistics.model()))
                        == live_final_entries(self.model())
                    &&& total.wf()
                    &&& total.model() == self.model().total
                    &&& forall|j: int|
                        0 <= j < symbols@.len() ==> (#[trigger] symbols@[j]).statistics.wf()
                },
            },
    {
        let ghost st = self.model();
        let ghost ms0 = st.entries;
        let LiveAggregator { merge_internals, mut entries, internal, total } = self;
        if merge_internals {
            let ghost es0 = entries@;
            let n: usize = entries.len();
            let mut i: usize = 0;
            let mut found: bool = false;
            while i < n
                invariant_except_break
                    i <= n,
                    !found,
                    entries@ == es0,
                    n == entries@.len(),
                    forall|j: int| 0 <= j < i ==> (#[trigger] entries@[j]).symbol_name@
                        != "Internal"@,
                ensures
                    i <= n,
                    entries@ == es0,
                    n == entries@.len(),
                    found ==> i < n && entries@[i as int].symbol_name@ == "Internal"@,
                    !found ==> forall|j: int|
                        0 <= j < n ==> (#[trigger] entries@[j]).symbol_name@ != "Internal"@,
                decreases n - i,
            {
                if str_eq(entries[i].symbol_name.as_str(), "Internal") {
                    found = true;
                    break;
                }
                i += 1;
            }
            if found {
                proof {
                    assert(has_entry(ms0, "Internal"@)) by {
                        assert(ms0[i as int].0 == "Internal"@);
                    }
                    assert(entry_index(ms0, "Internal"@) == i as int) by {
                        let j = entry_index(ms0, "Internal"@);
                        assert(ms0[j].0 == "Internal"@);
                        if j != i as int {
                            assert(es0[j].symbol_name@ == es0[i as int].symbol_name@);
                        }
                    }
                }
                let e: Entry = entries.remove(i);
                entries.insert(i, Entry { symbol_name: e.symbol_name, statistics: internal });
                proof {
                    assert(entries@ =~= es0.update(
                        i as int,
                        Entry { symbol_name: es0[i as int].symbol_name, statistics: internal },
                    ));
                    assert(entries@.map_values(|e: Entry| (e.symbol_name@, e.statistics.model()))
                        =~= live_final_entries(st));
                }
            } else {
                proof {
                    assert(!has_entry(ms0, "Internal"@)) by {
                        if has_entry(ms0, "Internal"@) {
                            let j = choose|j: int|
                                0 <= j < ms0.len() && (#[trigger] ms0[j]).0 == "Internal"@;
                            assert(es0[j].symbol_name@ == "Internal"@);
                        }
                    }
                }
                entries.push(
                    Entry { symbol_name: String::from_str("Internal"), statistics: internal },
                );
                proof {
                    assert(entries@.map_values(|e: Entry| (e.symbol_name@, e.statistics.model()))
                        =~= live_final_entries(st));
                }
            }
        } else {
            proof {
                assert(entries@.map_values(|e: Entry| (e.symbol_name@, e.statistics.model()))
                    =~= live_final_entries(st));
            }
        }
        ToolOutput::SymbolInstructionCounts { symbols: entries, total }
    }
}

/// The untagged lines of a stream, in order.
pub open spec fn passthrough_lines(lines: Seq<Seq<char>>) -> Seq<Seq<char>> {
    lines.filter(|l: Seq<char>| !is_prefix_of(live_tag(), l))
}

/// The records a finished run reports: with the merge policy on, the
/// internal bucket stands as the record named `"Internal"`.
pub open spec fn live_final_entries(st: LiveState) -> Seq<(Seq<char>, StatsModel)> {
    if st.merge_internals {
        if has_entry(st.entries, "Internal"@) {
            st.entries.update(entry_index(st.entries, "Internal"@), ("Internal"@, st.internal))
        } else {
            st.entries.push(("Internal"@, st.internal))
        }
    } else {
        st.entries
    }
}

} // verus!
