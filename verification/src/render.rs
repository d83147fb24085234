//! The sort-and-window selector and the multi-format renderer: entries are
//! ordered by a chosen field and direction, a synthetic `Total` row is put
//! first, a window is cut, and the rows are serialized into one of four
//! textual formats.

use vstd::prelude::*;

use crate::stats::{others_total, Entry, Statistics};
use crate::text::{
    dec_rep, lex_le, lemma_lex_le_total, lemma_lex_le_trans, str_eq, with_separators,
};
use crate::utilities::{Direction, Sorting};

verus! {

broadcast use vstd::seq_lib::group_to_multiset_ensures, vstd::multiset::group_multiset_axioms;

// ---------------------------------------------------------------------------
// Output formats
// ---------------------------------------------------------------------------

/// The four textual output formats.
#[derive(Clone, Copy, Debug, PartialEq, Eq, Structural)]
pub enum OutputFormat {
    Plain,
    JSON,
    CSV,
    Markdown,
}

impl Default for OutputFormat {
    /// Plain is the format when none is chosen.
    fn default() -> (r: OutputFormat)
        ensures
            r == OutputFormat::Plain,
    {
        OutputFormat::Plain
    }
}

/// The format a destination's file extension implies; an unknown extension
/// falls back to Plain.
pub open spec fn format_of_extension(ext: Seq<char>) -> OutputFormat {
    if ext == "txt"@ {
        OutputFormat::Plain
    } else if ext == "json"@ {
        OutputFormat::JSON
    } else if ext == "csv"@ {
        OutputFormat::CSV
    } else if ext == "md"@ {
        OutputFormat::Markdown
    } else {
        OutputFormat::Plain
    }
}

impl OutputFormat {
    /// Infers the format from a destination file extension.
    pub fn from_extension(ext: &str) -> (r: OutputFormat)
        ensures
            r == format_of_extension(ext@),
    {
        if str_eq(ext, "txt") {
            OutputFormat::Plain
        } else if str_eq(ext, "json") {
            OutputFormat::JSON
        } else if str_eq(ext, "csv") {
            OutputFormat::CSV
        } else if str_eq(ext, "md") {
            OutputFormat::Markdown
        } else {
            OutputFormat::Plain
        }
    }
}

/// A configuration that cannot be served.
#[derive(Clone, Copy, Debug, PartialEq, Eq, Structural)]
pub enum ConfigError {
    /// A window limit was requested without a sort key.
    LimitWithoutSort,
}

// ---------------------------------------------------------------------------
// Ordering entries
// ---------------------------------------------------------------------------

/// `a` sorts at or before `b` under the chosen key and direction.
pub open spec fn entry_le(by_name: bool, dir: Direction, a: Entry, b: Entry) -> bool {
    if by_name {
        match dir {
            Direction::Descending => lex_le(a.symbol_name@, b.symbol_name@),
            Direction::Ascending => lex_le(b.symbol_name@, a.symbol_name@),
        }
    } else {
        match dir {
            Direction::Descending => a.statistics.total <= b.statistics.total,
            Direction::Ascending => b.statistics.total <= a.statistics.total,
        }
    }
}

/// The sequence is ordered under the chosen key and direction.
pub open spec fn sorted_entries(s: Seq<Entry>, by_name: bool, dir: Direction) -> bool {
    forall|i: int, j: int|
        0 <= i < j < s.len() ==> entry_le(by_name, dir, #[trigger] s[i], #[trigger] s[j])
}

/// Any two entries are ordered one way or the other.
pub proof fn lemma_entry_le_total(by_name: bool, dir: Direction, a: Entry, b: Entry)
    ensures
        entry_le(by_name, dir, a, b) || entry_le(by_name, dir, b, a),
{
    if by_name {
        lemma_lex_le_total(a.symbol_name@, b.symbol_name@);
    }
}

/// The entry order is transitive.
pub proof fn lemma_entry_le_trans(by_name: bool, dir: Direction, a: Entry, b: Entry, c: Entry)
    requires
        entry_le(by_name, dir, a, b),
        entry_le(by_name, dir, b, c),
    ensures
        entry_le(by_name, dir, a, c),
{
    if by_name {
        match dir {
            Direction::Descending => lemma_lex_le_trans(a.symbol_name@, b.symbol_name@, c.symbol_name@),
            Direction::Ascending => lemma_lex_le_trans(c.symbol_name@, b.symbol_name@, a.symbol_name@),
        }
    }
}

/// `a` sorts at or before `b` under the chosen key and direction.
fn entry_le_exec(by_name: bool, dir: Direction, a: &Entry, b: &Entry) -> (r: bool)
    ensures
        r == entry_le(by_name, dir, *a, *b),
{
    if by_name {
        match dir {
            Direction::Descending => crate::text::str_lex_le(
                a.symbol_name.as_str(),
                b.symbol_name.as_str(),
            ),
            Direction::Ascending => crate::text::str_lex_le(
                b.symbol_name.as_str(),
                a.symbol_name.as_str(),
            ),
        }
    } else {
        match dir {
            Direction::Descending => a.statistics.total <= b.statistics.total,
            Direction::Ascending => b.statistics.total <= a.statistics.total,
        }
    }
}

/// Orders the rows in place under the chosen key and direction.  The rows
/// keep their multiset: nothing is added or lost.
pub fn sort_rows(rows: &mut Vec<Entry>, by_name: bool, dir: Direction)
    ensures
        final(rows)@.to_multiset() == old(rows)@.to_multiset(),
        sorted_entries(final(rows)@, by_name, dir),
{
    let ghost orig = rows@;
    let mut out: Vec<Entry> = Vec::new();
    proof {
        assert(out@.to_multiset().add(rows@.to_multiset()) =~= orig.to_multiset());
    }
    while rows.len() > 0
        invariant
            out@.to_multiset().add(rows@.to_multiset()) == orig.to_multiset(),
            sorted_entries(out@, by_name, dir),
            forall|i: int, j: int|
                0 <= i < out@.len() && 0 <= j < rows@.len() ==> entry_le(
                    by_name,
                    dir,
                    #[trigger] out@[i],
                    #[trigger] rows@[j],
                ),
        decreases rows@.len(),
    {
        let n: usize = rows.len();
        let mut m: usize = 0;
        let mut k: usize = 1;
        proof {
            lemma_entry_le_total(by_name, dir, rows@[0], rows@[0]);
        }
        while k < n
            invariant
                m < k <= n,
                n == rows@.len(),
                forall|j: int| 0 <= j < k ==> entry_le(by_name, dir, rows@[m as int], #[trigger] rows@[j]),
            decreases n - k,
        {
            if !entry_le_exec(by_name, dir, &rows[m], &rows[k]) {
                proof {
                    lemma_entry_le_total(by_name, dir, rows@[m as int], rows@[k as int]);
                    assert forall|j: int| 0 <= j < k + 1 implies entry_le(
                        by_name,
                        dir,
                        rows@[k as int],
                        #[trigger] rows@[j],
                    ) by {
                        if j < k {
                            lemma_entry_le_trans(
                                by_name,
                                dir,
                                rows@[k as int],
                                rows@[m as int],
                                rows@[j],
                            );
                        } else {
                            lemma_entry_le_total(by_name, dir, rows@[k as int], rows@[k as int]);
                        }
                    }
                }
                m = k;
            } else {
                proof {
                    lemma_entry_le_trans(by_name, dir, rows@[m as int], rows@[m as int], rows@[k as int]);
                    assert(entry_le(by_name, dir, rows@[m as int], rows@[k as int]));
                }
            }
            k += 1;
        }
        proof {
            lemma_entry_le_total(by_name, dir, rows@[m as int], rows@[m as int]);
        }
        let ghost rows0 = rows@;
        let ghost out0 = out@;
        let e: Entry = rows.remove(m);
        out.push(e);
        proof {
            assert(rows@ == rows0.remove(m as int));
            assert(rows0.remove(m as int).to_multiset() =~= rows0.to_multiset().remove(
                rows0[m as int],
            ));
            assert(out@.to_multiset() =~= out0.to_multiset().insert(e));
            assert(out@.to_multiset().add(rows@.to_multiset()) =~= orig.to_multiset());
            assert forall|i: int, j: int|
                0 <= i < j < out@.len() implies entry_le(
                by_name,
                dir,
                #[trigger] out@[i],
                #[trigger] out@[j],
            ) by {
                if j < out@.len() - 1 {
                    assert(out0[i] == out@[i] && out0[j] == out@[j]);
                }
            }
            assert forall|i: int, j: int|
                0 <= i < out@.len() && 0 <= j < rows@.len() implies entry_le(
                by_name,
                dir,
                #[trigger] out@[i],
                #[trigger] rows@[j],
            ) by {
                assert(rows@[j] == if j < m { rows0[j] } else { rows0[j + 1] });
                if i < out@.len() - 1 {
                    assert(out@[i] == out0[i]);
                } else {
                    assert(out@[i] == rows0[m as int]);
                }
            }
        }
    }
    *rows = out;
}

// ---------------------------------------------------------------------------
// Windowing
// ---------------------------------------------------------------------------

/// Puts the synthetic `Total` row first, then cuts the window of at most
/// `limit` rows: under a descending sort the tail of the sequence, so the
/// biggest totals stay in view, otherwise its head.  The `Total` row counts
/// against the limit and a small limit can push it out of view.
pub fn select_window(rows: Vec<Entry>, total_row: Entry, descending: bool, limit: usize) -> (r:
    Vec<Entry>)
    ensures
        ({
            let pre = seq![total_row].add(rows@);
            let skip: int = if descending && pre.len() > limit {
                pre.len() - limit
            } else {
                0
            };
            let take: int = if pre.len() - skip < limit {
                pre.len() - skip
            } else {
                limit as int
            };
            &&& r@ == pre.subrange(skip, skip + take)
            &&& (descending && limit <= pre.len()) ==> r@ == pre.subrange(
                pre.len() - limit,
                pre.len() as int,
            )
            &&& !descending ==> r@ == pre.subrange(
                0,
                if pre.len() < limit {
                    pre.len() as int
                } else {
                    limit as int
                },
            )
        }),
{
    let mut rows = rows;
    rows.insert(0, total_row);
    let ghost pre = rows@;
    let len: usize = rows.len();
    let skip: usize = if descending {
        len.saturating_sub(limit)
    } else {
        0
    };
    let mut k: usize = 0;
    proof {
        assert(rows@ =~= pre.subrange(0, pre.len() as int));
    }
    while k < skip
        invariant
            k <= skip,
            skip <= len,
            len == pre.len(),
            rows@ == pre.subrange(k as int, pre.len() as int),
        decreases skip - k,
    {
        let ghost r0 = rows@;
        rows.remove(0);
        proof {
            assert(rows@ =~= pre.subrange(k + 1, pre.len() as int));
        }
        k += 1;
    }
    if rows.len() > limit {
        rows.truncate(limit);
        proof {
            assert(rows@ =~= pre.subrange(skip as int, skip + limit));
        }
    }
    proof {
        let skip_s: int = if descending && pre.len() > limit {
            pre.len() - limit
        } else {
            0
        };
        let take: int = if pre.len() - skip_s < limit {
            pre.len() - skip_s
        } else {
            limit as int
        };
        assert(rows@ =~= pre.subrange(skip_s, skip_s + take));
    }
    rows
}

// ---------------------------------------------------------------------------
// Rendering
// ---------------------------------------------------------------------------

/// `n` spaces.
pub open spec fn spaces(n: int) -> Seq<char>
    decreases n,
{
    if n <= 0 {
        Seq::empty()
    } else {
        spaces(n - 1).push(' ')
    }
}

/// The name as displayed in the Plain format: cut to 97 characters plus an
/// ellipsis when it is over 100, so the width budget is kept.
pub open spec fn display_name(name: Seq<char>) -> Seq<char> {
    if name.len() > 100 {
        name.subrange(0, 97) + "..."@
    } else {
        name
    }
}

/// The longest raw symbol name among the rows.
pub open spec fn max_name_len(rows: Seq<Entry>) -> int
    decreases rows.len(),
{
    if rows.len() == 0 {
        0
    } else {
        let m = max_name_len(rows.drop_last());
        if rows.last().symbol_name@.len() > m {
            rows.last().symbol_name@.len() as int
        } else {
            m
        }
    }
}

/// No row's name is longer than the longest.
pub proof fn lemma_max_name_len_ge(rows: Seq<Entry>, i: int)
    requires
        0 <= i < rows.len(),
    ensures
        rows[i].symbol_name@.len() <= max_name_len(rows),
        max_name_len(rows) >= 0,
    decreases rows.len(),
{
    if rows.len() > 0 {
        if i < rows.len() - 1 {
            lemma_max_name_len_ge(rows.drop_last(), i);
        } else if rows.len() >= 2 {
            lemma_max_name_len_ge(rows.drop_last(), 0);
        }
    }
}

/// The name column's width: the longest name, capped at 100.
pub open spec fn plain_width(rows: Seq<Entry>) -> int {
    if max_name_len(rows) > 100 {
        100
    } else {
        max_name_len(rows)
    }
}

/// A count with non-breaking spaces between digit groups of three.
pub open spec fn grouped(v: u32) -> Seq<char> {
    with_separators(dec_rep(v as int), "\u{a0}"@)
}

/// One Plain row: the padded name, the total, and with `breakdown` the five
/// per-category counters.
pub open spec fn plain_row(e: Entry, width: int, breakdown: bool) -> Seq<char> {
    display_name(e.symbol_name@) + spaces(width - display_name(e.symbol_name@).len()) + " total: "@
        + grouped(e.statistics.total) + (if breakdown {
        " mem_read: "@ + grouped(e.statistics.mem_read) + ", mem_write: "@ + grouped(
            e.statistics.mem_write,
        ) + ", stack_read: "@ + grouped(e.statistics.stack_read) + ", stack_write: "@ + grouped(
            e.statistics.stack_write,
        ) + ", call "@ + grouped(e.statistics.call)
    } else {
        Seq::empty()
    }) + "\n"@
}

pub open spec fn plain_rows_text(rows: Seq<Entry>, width: int, breakdown: bool) -> Seq<char>
    decreases rows.len(),
{
    if rows.len() == 0 {
        Seq::empty()
    } else {
        plain_rows_text(rows.drop_last(), width, breakdown) + plain_row(
            rows.last(),
            width,
            breakdown,
        )
    }
}

/// The whole Plain rendering.
pub open spec fn render_plain_text(rows: Seq<Entry>, breakdown: bool) -> Seq<char> {
    plain_rows_text(rows, plain_width(rows), breakdown)
}

/// Appends `n` spaces.
fn push_spaces(out: &mut String, n: usize)
    ensures
        final(out)@ == old(out)@ + spaces(n as int),
    decreases n,
{
    let mut i: usize = 0;
    while i < n
        invariant
            i <= n,
            out@ == old(out)@ + spaces(i as int),
        decreases n - i,
    {
        out.push(' ');
        i += 1;
    }
}

/// Appends the grouped decimal rendering of `v`.
fn push_grouped(out: &mut String, v: u32)
    ensures
        final(out)@ == old(out)@ + grouped(v),
{
    let g: String = crate::text::grouped_value(v as u64, "\u{a0}");
    out.append(g.as_str());
}

/// Appends one Plain row.
#[verifier::rlimit(60)]
fn push_plain_row(out: &mut String, e: &Entry, width: usize, breakdown: bool)
    requires
        display_name(e.symbol_name@).len() <= width,
    ensures
        final(out)@ == old(out)@ + plain_row(*e, width as int, breakdown),
{
    let name: &str = e.symbol_name.as_str();
    let nl: usize = name.unicode_len();
    let shown: usize = if nl > 100 {
        let cut: &str = name.substring_char(0, 97);
        out.append(cut);
        out.append("...");
        proof {
            reveal_strlit("...");
            assert(out@ =~= old(out)@ + display_name(e.symbol_name@));
        }
        100
    } else {
        out.append(name);
        nl
    };
    push_spaces(out, width - shown);
    out.append(" total: ");
    push_grouped(out, e.statistics.total);
    if breakdown {
        out.append(" mem_read: ");
        push_grouped(out, e.statistics.mem_read);
        out.append(", mem_write: ");
        push_grouped(out, e.statistics.mem_write);
        out.append(", stack_read: ");
        push_grouped(out, e.statistics.stack_read);
        out.append(", stack_write: ");
        push_grouped(out, e.statistics.stack_write);
        out.append(", call ");
        push_grouped(out, e.statistics.call);
    }
    out.push('\n');
    proof {
        reveal_strlit("\n");
        assert(final(out)@ =~= old(out)@ + plain_row(*e, width as int, breakdown));
    }
}

/// Renders the rows in the Plain format.
pub fn render_plain(rows: &Vec<Entry>, breakdown: bool) -> (r: String)
    ensures
        r@ == render_plain_text(rows@, breakdown),
{
    let n: usize = rows.len();
    let mut w: usize = 0;
    let mut i: usize = 0;
    proof {
        assert(rows@.subrange(0, 0) =~= Seq::<Entry>::empty());
    }
    while i < n
        invariant
            i <= n,
            n == rows@.len(),
            w == max_name_len(rows@.subrange(0, i as int)),
            w <= usize::MAX,
        decreases n - i,
    {
        proof {
            assert(rows@.subrange(0, i + 1).drop_last() =~= rows@.subrange(0, i as int));
            assert(rows@.subrange(0, i + 1).last() == rows@[i as int]);
        }
        let nl: usize = rows[i].symbol_name.as_str().unicode_len();
        if nl > w {
            w = nl;
        }
        i += 1;
    }
    proof {
        assert(rows@.subrange(0, n as int) =~= rows@);
    }
    let width: usize = if w > 100 {
        100
    } else {
        w
    };
    let mut out: String = String::new();
    let mut i: usize = 0;
    proof {
        assert(rows@.subrange(0, 0) =~= Seq::<Entry>::empty());
    }
    while i < n
        invariant
            i <= n,
            n == rows@.len(),
            width as int == plain_width(rows@),
            out@ == plain_rows_text(rows@.subrange(0, i as int), width as int, breakdown),
        decreases n - i,
    {
        proof {
            assert(rows@.subrange(0, i + 1).drop_last() =~= rows@.subrange(0, i as int));
            assert(rows@.subrange(0, i + 1).last() == rows@[i as int]);
            lemma_max_name_len_ge(rows@, i as int);
            reveal_strlit("...");
            assert(display_name(rows@[i as int].symbol_name@).len() <= width);
        }
        push_plain_row(&mut out, &rows[i], width, breakdown);
        i += 1;
    }
    proof {
        assert(rows@.subrange(0, n as int) =~= rows@);
    }
    out
}

/// How one character stands inside a JSON string: quotes, backslashes,
/// newlines and tabs are escaped, everything else stands as itself.
pub open spec fn json_escaped_char(c: char) -> Seq<char> {
    if c == '"' {
        seq!['\\', '"']
    } else if c == '\\' {
        seq!['\\', '\\']
    } else if c == '\n' {
        seq!['\\', 'n']
    } else if c == '\t' {
        seq!['\\', 't']
    } else {
        seq![c]
    }
}

/// The characters of `s` as JSON string content.
pub open spec fn json_escaped(s: Seq<char>) -> Seq<char>
    decreases s.len(),
{
    if s.len() == 0 {
        Seq::empty()
    } else {
        json_escaped(s.drop_last()) + json_escaped_char(s.last())
    }
}

/// Appends the characters of `s` as JSON string content.
fn push_json_escaped(out: &mut String, s: &str)
    ensures
        final(out)@ == old(out)@ + json_escaped(s@),
{
    let n: usize = s.unicode_len();
    let mut i: usize = 0;
    proof {
        assert(s@.subrange(0, 0) =~= Seq::<char>::empty());
    }
    while i < n
        invariant
            i <= n,
            n == s@.len(),
            out@ == old(out)@ + json_escaped(s@.subrange(0, i as int)),
        decreases n - i,
    {
        proof {
            assert(s@.subrange(0, i + 1).drop_last() =~= s@.subrange(0, i as int));
            assert(s@.subrange(0, i + 1).last() == s@[i as int]);
        }
        let c: char = s.get_char(i);
        if c == '"' {
            out.push('\\');
            out.push('"');
        } else if c == '\\' {
            out.push('\\');
            out.push('\\');
        } else if c == '\n' {
            out.push('\\');
            out.push('n');
        } else if c == '\t' {
            out.push('\\');
            out.push('t');
        } else {
            out.push(c);
        }
        proof {
            assert(out@ =~= old(out)@ + json_escaped(s@.subrange(0, i + 1)));
        }
        i += 1;
    }
    proof {
        assert(s@.subrange(0, n as int) =~= s@);
    }
}

/// One label of the `other` map as a JSON member.
pub open spec fn json_label_count(p: (String, u32)) -> Seq<char> {
    "\""@ + json_escaped(p.0@) + "\":"@ + dec_rep(p.1 as int)
}

/// The members of the `other` map, comma-separated, in insertion order.
pub open spec fn json_map_items(s: Seq<(String, u32)>) -> Seq<char>
    decreases s.len(),
{
    if s.len() == 0 {
        Seq::empty()
    } else if s.len() == 1 {
        json_label_count(s[0])
    } else {
        json_map_items(s.drop_last()) + ","@ + json_label_count(s.last())
    }
}

/// One row as a JSON object: always the symbol name and the total, and with
/// `breakdown` the five category counters and the raw `other` map.
pub open spec fn json_object(e: Entry, breakdown: bool) -> Seq<char> {
    "{\"symbol_name\":\""@ + json_escaped(e.symbol_name@) + "\",\"total\":"@ + dec_rep(
        e.statistics.total as int,
    ) + (if breakdown {
        ",\"mem_read\":"@ + dec_rep(e.statistics.mem_read as int) + ",\"mem_write\":"@ + dec_rep(
            e.statistics.mem_write as int,
        ) + ",\"stack_read\":"@ + dec_rep(e.statistics.stack_read as int) + ",\"stack_write\":"@
            + dec_rep(e.statistics.stack_write as int) + ",\"call\":"@ + dec_rep(
            e.statistics.call as int,
        ) + ",\"other\":{"@ + json_map_items(e.statistics.others@) + "}"@
    } else {
        Seq::empty()
    }) + "}"@
}

/// The rows as JSON objects, comma-separated.
pub open spec fn json_rows_text(rows: Seq<Entry>, breakdown: bool) -> Seq<char>
    decreases rows.len(),
{
    if rows.len() == 0 {
        Seq::empty()
    } else if rows.len() == 1 {
        json_object(rows[0], breakdown)
    } else {
        json_rows_text(rows.drop_last(), breakdown) + ","@ + json_object(rows.last(), breakdown)
    }
}

/// The whole JSON rendering: an array of objects.
pub open spec fn render_json_text(rows: Seq<Entry>, breakdown: bool) -> Seq<char> {
    "["@ + json_rows_text(rows, breakdown) + "]"@
}

/// Appends one row as a JSON object.
#[verifier::rlimit(60)]
fn push_json_object(out: &mut String, e: &Entry, breakdown: bool)
    ensures
        final(out)@ == old(out)@ + json_object(*e, breakdown),
{
    out.append("{\"symbol_name\":\"");
    push_json_escaped(out, e.symbol_name.as_str());
    out.append("\",\"total\":");
    crate::text::push_dec(e.statistics.total as u64, out);
    if breakdown {
        out.append(",\"mem_read\":");
        crate::text::push_dec(e.statistics.mem_read as u64, out);
        out.append(",\"mem_write\":");
        crate::text::push_dec(e.statistics.mem_write as u64, out);
        out.append(",\"stack_read\":");
        crate::text::push_dec(e.statistics.stack_read as u64, out);
        out.append(",\"stack_write\":");
        crate::text::push_dec(e.statistics.stack_write as u64, out);
        out.append(",\"call\":");
        crate::text::push_dec(e.statistics.call as u64, out);
        out.append(",\"other\":{");
        let m: usize = e.statistics.others.len();
        let mut j: usize = 0;
        let ghost base = out@;
        proof {
            assert(e.statistics.others@.subrange(0, 0) =~= Seq::<(String, u32)>::empty());
        }
        while j < m
            invariant
                j <= m,
                m == e.statistics.others@.len(),
                out@ == base + json_map_items(e.statistics.others@.subrange(0, j as int)),
            decreases m - j,
        {
            proof {
                assert(e.statistics.others@.subrange(0, j + 1).drop_last()
                    =~= e.statistics.others@.subrange(0, j as int));
                assert(e.statistics.others@.subrange(0, j + 1).last()
                    == e.statistics.others@[j as int]);
            }
            if j > 0 {
                out.append(",");
            }
            out.append("\"");
            push_json_escaped(out, e.statistics.others[j].0.as_str());
            out.append("\":");
            crate::text::push_dec(e.statistics.others[j].1 as u64, out);
            proof {
                assert(out@ =~= base + json_map_items(
                    e.statistics.others@.subrange(0, j + 1),
                ));
            }
            j += 1;
        }
        proof {
            assert(e.statistics.others@.subrange(0, m as int) =~= e.statistics.others@);
        }
        out.append("}");
    }
    out.append("}");
    proof {
        assert(final(out)@ =~= old(out)@ + json_object(*e, breakdown));
    }
}

/// Renders the rows in the JSON format.
pub fn render_json(rows: &Vec<Entry>, breakdown: bool) -> (r: String)
    ensures
        r@ == render_json_text(rows@, breakdown),
{
    let mut out: String = String::new();
    out.append("[");
    let n: usize = rows.len();
    let mut i: usize = 0;
    let ghost base = out@;
    proof {
        assert(rows@.subrange(0, 0) =~= Seq::<Entry>::empty());
    }
    while i < n
        invariant
            i <= n,
            n == rows@.len(),
            base == "["@,
            out@ == base + json_rows_text(rows@.subrange(0, i as int), breakdown),
        decreases n - i,
    {
        proof {
            assert(rows@.subrange(0, i + 1).drop_last() =~= rows@.subrange(0, i as int));
            assert(rows@.subrange(0, i + 1).last() == rows@[i as int]);
        }
        if i > 0 {
            out.append(",");
        }
        push_json_object(&mut out, &rows[i], breakdown);
        proof {
            assert(out@ =~= base + json_rows_text(rows@.subrange(0, i + 1), breakdown));
        }
        i += 1;
    }
    proof {
        assert(rows@.subrange(0, n as int) =~= rows@);
    }
    out.append("]");
    proof {
        assert(out@ =~= render_json_text(rows@, breakdown));
    }
    out
}

/// One CSV row: the symbol name quoted in backticks, then unquoted integers.
pub open spec fn csv_row(e: Entry, breakdown: bool) -> Seq<char> {
    "`"@ + e.symbol_name@ + "`,"@ + dec_rep(e.statistics.total as int) + (if breakdown {
        ","@ + dec_rep(e.statistics.mem_read as int) + ","@ + dec_rep(e.statistics.mem_write as int)
            + ","@ + dec_rep(e.statistics.stack_read as int) + ","@ + dec_rep(
            e.statistics.stack_write as int,
        ) + ","@ + dec_rep(e.statistics.call as int)
    } else {
        Seq::empty()
    }) + "\n"@
}

/// The CSV header row.
pub open spec fn csv_header(breakdown: bool) -> Seq<char> {
    if breakdown {
        "symbol name,count,mem_read,mem_write,stack_read,stack_write,call\n"@
    } else {
        "symbol name,count\n"@
    }
}

pub open spec fn csv_rows_text(rows: Seq<Entry>, breakdown: bool) -> Seq<char>
    decreases rows.len(),
{
    if rows.len() == 0 {
        Seq::empty()
    } else {
        csv_rows_text(rows.drop_last(), breakdown) + csv_row(rows.last(), breakdown)
    }
}

/// The whole CSV rendering.
pub open spec fn render_csv_text(rows: Seq<Entry>, breakdown: bool) -> Seq<char> {
    csv_header(breakdown) + csv_rows_text(rows, breakdown)
}

/// Appends one CSV row.
#[verifier::rlimit(60)]
fn push_csv_row(out: &mut String, e: &Entry, breakdown: bool)
    ensures
        final(out)@ == old(out)@ + csv_row(*e, breakdown),
{
    out.append("`");
    out.append(e.symbol_name.as_str());
    out.append("`,");
    crate::text::push_dec(e.statistics.total as u64, out);
    if breakdown {
        out.append(",");
        crate::text::push_dec(e.statistics.mem_read as u64, out);
        out.append(",");
        crate::text::push_dec(e.statistics.mem_write as u64, out);
        out.append(",");
        crate::text::push_dec(e.statistics.stack_read as u64, out);
        out.append(",");
        crate::text::push_dec(e.statistics.stack_write as u64, out);
        out.append(",");
        crate::text::push_dec(e.statistics.call as u64, out);
    }
    out.push('\n');
    proof {
        reveal_strlit("\n");
        assert(final(out)@ =~= old(out)@ + csv_row(*e, breakdown));
    }
}

/// Renders the rows in the CSV format.
pub fn render_csv(rows: &Vec<Entry>, breakdown: bool) -> (r: String)
    ensures
        r@ == render_csv_text(rows@, breakdown),
{
    let mut out: String = String::new();
    if breakdown {
        out.append("symbol name,count,mem_read,mem_write,stack_read,stack_write,call\n");
    } else {
        out.append("symbol name,count\n");
    }
    let n: usize = rows.len();
    let mut i: usize = 0;
    proof {
        assert(rows@.subrange(0, 0) =~= Seq::<Entry>::empty());
        assert(out@ =~= csv_header(breakdown) + csv_rows_text(rows@.subrange(0, 0), breakdown));
    }
    while i < n
        invariant
            i <= n,
            n == rows@.len(),
            out@ == csv_header(breakdown) + csv_rows_text(rows@.subrange(0, i as int), breakdown),
        decreases n - i,
    {
        proof {
            assert(rows@.subrange(0, i + 1).drop_last() =~= rows@.subrange(0, i as int));
            assert(rows@.subrange(0, i + 1).last() == rows@[i as int]);
        }
        push_csv_row(&mut out, &rows[i], breakdown);
        proof {
            assert(out@ =~= csv_header(breakdown) + csv_rows_text(
                rows@.subrange(0, i + 1),
                breakdown,
            ));
        }
        i += 1;
    }
    proof {
        assert(rows@.subrange(0, n as int) =~= rows@);
    }
    out
}

/// One Markdown table row.
pub open spec fn md_row(e: Entry, breakdown: bool) -> Seq<char> {
    "|`"@ + e.symbol_name@ + "`|"@ + dec_rep(e.statistics.total as int) + "|"@ + (if breakdown {
        dec_rep(e.statistics.mem_read as int) + "|"@ + dec_rep(e.statistics.mem_write as int)
            + "|"@ + dec_rep(e.statistics.stack_read as int) + "|"@ + dec_rep(
            e.statistics.stack_write as int,
        ) + "|"@ + dec_rep(e.statistics.call as int) + "|"@
    } else {
        Seq::empty()
    }) + "\n"@
}

/// The Markdown header and its separator row, sized to the column count.
pub open spec fn md_header(breakdown: bool) -> Seq<char> {
    if breakdown {
        "|symbol name|count|mem_read|mem_write|stack_read|stack_write|call|\n|---|---|---|---|---|---|---|\n"@
    } else {
        "|symbol name|count|\n|---|---|\n"@
    }
}

pub open spec fn md_rows_text(rows: Seq<Entry>, breakdown: bool) -> Seq<char>
    decreases rows.len(),
{
    if rows.len() == 0 {
        Seq::empty()
    } else {
        md_rows_text(rows.drop_last(), breakdown) + md_row(rows.last(), breakdown)
    }
}

/// The whole Markdown rendering.
pub open spec fn render_md_text(rows: Seq<Entry>, breakdown: bool) -> Seq<char> {
    md_header(breakdown) + md_rows_text(rows, breakdown)
}

/// Appends one Markdown row.
#[verifier::rlimit(60)]
fn push_md_row(out: &mut String, e: &Entry, breakdown: bool)
    ensures
        final(out)@ == old(out)@ + md_row(*e, breakdown),
{
    out.append("|`");
    out.append(e.symbol_name.as_str());
    out.append("`|");
    crate::text::push_dec(e.statistics.total as u64, out);
    out.append("|");
    if breakdown {
        crate::text::push_dec(e.statistics.mem_read as u64, out);
        out.append("|");
        crate::text::push_dec(e.statistics.mem_write as u64, out);
        out.append("|");
        crate::text::push_dec(e.statistics.stack_read as u64, out);
        out.append("|");
        crate::text::push_dec(e.statistics.stack_write as u64, out);
        out.append("|");
        crate::text::push_dec(e.statistics.call as u64, out);
        out.append("|");
    }
    out.push('\n');
    proof {
        reveal_strlit("\n");
        assert(final(out)@ =~= old(out)@ + md_row(*e, breakdown));
    }
}

/// Renders the rows in the Markdown format.
pub fn render_markdown(rows: &Vec<Entry>, breakdown: bool) -> (r: String)
    ensures
        r@ == render_md_text(rows@, breakdown),
{
    let mut out: String = String::new();
    if breakdown {
        out.append(
            "|symbol name|count|mem_read|mem_write|stack_read|stack_write|call|\n|---|---|---|---|---|---|---|\n",
        );
    } else {
        out.append("|symbol name|count|\n|---|---|\n");
    }
    let n: usize = rows.len();
    let mut i: usize = 0;
    proof {
        assert(rows@.subrange(0, 0) =~= Seq::<Entry>::empty());
        assert(out@ =~= md_header(breakdown) + md_rows_text(rows@.subrange(0, 0), breakdown));
    }
    while i < n
        invariant
            i <= n,
            n == rows@.len(),
            out@ == md_header(breakdown) + md_rows_text(rows@.subrange(0, i as int), breakdown),
        decreases n - i,
    {
        proof {
            assert(rows@.subrange(0, i + 1).drop_last() =~= rows@.subrange(0, i as int));
            assert(rows@.subrange(0, i + 1).last() == rows@[i as int]);
        }
        push_md_row(&mut out, &rows[i], breakdown);
        proof {
            assert(out@ =~= md_header(breakdown) + md_rows_text(
                rows@.subrange(0, i + 1),
                breakdown,
            ));
        }
        i += 1;
    }
    proof {
        assert(rows@.subrange(0, n as int) =~= rows@);
    }
    out
}

/// Sorting by `total` in the two directions orders one multiset of entries
/// two mutually reverse ways: the ascending result read backwards is a valid
/// descending ordering, and the other way round.
pub proof fn lemma_total_sort_directions(rows: Seq<Entry>, asc: Seq<Entry>, desc: Seq<Entry>)
    requires
        asc.to_multiset() == rows.to_multiset(),
        desc.to_multiset() == rows.to_multiset(),
        sorted_entries(asc, false, Direction::Ascending),
        sorted_entries(desc, false, Direction::Descending),
    ensures
        asc.to_multiset() == desc.to_multiset(),
        asc.reverse().to_multiset() == desc.to_multiset(),
        sorted_entries(asc.reverse(), false, Direction::Descending),
        sorted_entries(desc.reverse(), false, Direction::Ascending),
{
    asc.lemma_reverse_to_multiset();
    assert forall|i: int, j: int|
        0 <= i < j < asc.reverse().len() implies entry_le(
        false,
        Direction::Descending,
        #[trigger] asc.reverse()[i],
        #[trigger] asc.reverse()[j],
    ) by {
        let n = asc.len();
        assert(asc.reverse()[i] == asc[n - 1 - i] && asc.reverse()[j] == asc[n - 1 - j]);
        assert(entry_le(false, Direction::Ascending, asc[n - 1 - j], asc[n - 1 - i]));
    }
    assert forall|i: int, j: int|
        0 <= i < j < desc.reverse().len() implies entry_le(
        false,
        Direction::Ascending,
        #[trigger] desc.reverse()[i],
        #[trigger] desc.reverse()[j],
    ) by {
        let n = desc.len();
        assert(desc.reverse()[i] == desc[n - 1 - i] && desc.reverse()[j] == desc[n - 1 - j]);
        assert(entry_le(false, Direction::Descending, desc[n - 1 - j], desc[n - 1 - i]));
    }
}

// ---------------------------------------------------------------------------
// The whole selection-and-rendering pass
// ---------------------------------------------------------------------------

/// The window that the selector cuts out of the `Total`-prepended rows.
pub open spec fn window_of(pre: Seq<Entry>, descending: bool, limit: int) -> Seq<Entry> {
    let skip: int = if descending && pre.len() > limit {
        pre.len() - limit
    } else {
        0
    };
    let take: int = if pre.len() - skip < limit {
        pre.len() - skip
    } else {
        limit
    };
    pre.subrange(skip, skip + take)
}

/// The chosen format's rendering of the windowed rows.
pub open spec fn format_text(f: OutputFormat, rows: Seq<Entry>, breakdown: bool) -> Seq<char> {
    match f {
        OutputFormat::Plain => render_plain_text(rows, breakdown),
        OutputFormat::JSON => render_json_text(rows, breakdown),
        OutputFormat::CSV => render_csv_text(rows, breakdown),
        OutputFormat::Markdown => render_md_text(rows, breakdown),
    }
}

/// The inline error line an unknown sort field leaves before the output.
pub open spec fn err_prefix(sorting: Option<Sorting>) -> Seq<char> {
    match sorting {
        Some(s) => if s.field@ != "name"@ && s.field@ != "total"@ {
            "error: unknown field \""@ + s.field@ + "\"\n"@
        } else {
            Seq::empty()
        },
        None => Seq::empty(),
    }
}

/// Whether the window is cut from the tail.
pub open spec fn desc_of(sorting: Option<Sorting>) -> bool {
    match sorting {
        Some(s) => s.direction is Descending,
        None => false,
    }
}

/// What a successful rendering holds: some ordering `mid` of the given rows
/// — sorted when the sort field is known, untouched otherwise — with the
/// `Total` row put first, windowed, and serialized, after any inline error
/// line.
pub open spec fn rendered_ok(
    rows: Seq<Entry>,
    total: Statistics,
    f: OutputFormat,
    sorting: Option<Sorting>,
    limit: int,
    breakdown: bool,
    out: Seq<char>,
) -> bool {
    exists|mid: Seq<Entry>, te: Entry|
        #![trigger window_of(seq![te] + mid, desc_of(sorting), limit)]
        {
            &&& mid.to_multiset() == rows.to_multiset()
            &&& match sorting {
                Some(s) => if s.field@ == "name"@ {
                    sorted_entries(mid, true, s.direction)
                } else if s.field@ == "total"@ {
                    sorted_entries(mid, false, s.direction)
                } else {
                    mid == rows
                },
                None => mid == rows,
            }
            &&& te.symbol_name@ == "Total"@
            &&& te.statistics == total
            &&& out == err_prefix(sorting) + format_text(
                f,
                window_of(seq![te] + mid, desc_of(sorting), limit),
                breakdown,
            )
        }
}

/// Orders, windows and serializes the rows with the grand total.  Asking for
/// a window limit without a sort key is a configuration error, and the one
/// error this function reports; every other input renders.
pub fn render_results(
    rows: Vec<Entry>,
    total: Statistics,
    output_format: OutputFormat,
    sorting: Option<Sorting>,
    limit: usize,
    breakdown: bool,
) -> (r: Result<String, ConfigError>)
    ensures
        r is Err <==> (limit != usize::MAX && sorting is None),
        r is Err ==> r->Err_0 == ConfigError::LimitWithoutSort,
        r is Ok ==> rendered_ok(
            rows@,
            total,
            output_format,
            sorting,
            limit as int,
            breakdown,
            (r->Ok_0)@,
        ),
{
    if limit != usize::MAX && sorting.is_none() {
        return Err(ConfigError::LimitWithoutSort);
    }
    let ghost rows0 = rows@;
    let mut rows = rows;
    let mut prefix: String = String::new();
    let mut desc: bool = false;
    match &sorting {
        Some(s) => {
            desc = match s.direction {
                Direction::Descending => true,
                Direction::Ascending => false,
            };
            if str_eq(s.field.as_str(), "name") {
                sort_rows(&mut rows, true, s.direction);
            } else if str_eq(s.field.as_str(), "total") {
                sort_rows(&mut rows, false, s.direction);
            } else {
                prefix.append("error: unknown field \"");
                prefix.append(s.field.as_str());
                prefix.append("\"\n");
            }
        },
        None => {},
    }
    proof {
        assert(prefix@ =~= err_prefix(sorting));
        assert(desc == desc_of(sorting));
    }
    let ghost mid = rows@;
    let te = Entry { symbol_name: String::from_str("Total"), statistics: total };
    let ghost te_g = te;
    let windowed: Vec<Entry> = select_window(rows, te, desc, limit);
    proof {
        assert(seq![te_g].add(mid) =~= seq![te_g] + mid);
        assert(windowed@ == window_of(seq![te_g] + mid, desc_of(sorting), limit as int));
    }
    let body: String = match output_format {
        OutputFormat::Plain => render_plain(&windowed, breakdown),
        OutputFormat::JSON => render_json(&windowed, breakdown),
        OutputFormat::CSV => render_csv(&windowed, breakdown),
        OutputFormat::Markdown => render_markdown(&windowed, breakdown),
    };
    let mut out: String = prefix;
    out.append(body.as_str());
    proof {
        assert(mid.to_multiset() == rows0.to_multiset()) by {
            if sorting is None || (sorting->Some_0.field@ != "name"@ && sorting->Some_0.field@
                != "total"@) {
                assert(mid == rows0);
            }
        }
        assert(out@ == err_prefix(sorting) + format_text(
            output_format,
            window_of(seq![te_g] + mid, desc_of(sorting), limit as int),
            breakdown,
        ));
        assert(rendered_ok(rows0, total, output_format, sorting, limit as int, breakdown, out@));
    }
    Ok(out)
}

} // verus!
