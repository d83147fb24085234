//! Sorting options, thousands-grouped number rendering, a two-way output
//! sink, n-ary cartesian products, and a small string template.

use core::cmp::Ordering;
use vstd::prelude::*;

use crate::outside::{char_is_alphanumeric, unicode_alphanumeric};
use crate::text::{dec_rep, find_from, find_from_str, grouped_value, with_separators};

verus! {

/// Which field entries are ordered by, and in which direction.
#[derive(Clone, Debug)]
pub struct Sorting {
    pub field: String,
    pub direction: Direction,
}

/// A sort direction.  `Descending` compares in natural order; `Ascending`
/// reverses it, so that an "ascending" sort puts the largest values first —
/// which leaves them nearest the end of a terminal's output under the
/// default windowing.  This inversion is deliberate and load-bearing.
#[derive(Clone, Copy, Debug, PartialEq, Eq, Structural)]
pub enum Direction {
    Ascending,
    Descending,
}

impl Direction {
    /// The ordering this direction gives two values.
    pub open spec fn compare_spec(self, a: u32, b: u32) -> Ordering {
        match self {
            Direction::Descending => if a < b {
                Ordering::Less
            } else if a == b {
                Ordering::Equal
            } else {
                Ordering::Greater
            },
            Direction::Ascending => if b < a {
                Ordering::Less
            } else if a == b {
                Ordering::Equal
            } else {
                Ordering::Greater
            },
        }
    }

    /// Compares two values under this direction.
    pub fn compare(self, a: u32, b: u32) -> (r: Ordering)
        ensures
            r == self.compare_spec(a, b),
    {
        match self {
            Direction::Descending => {
                if a < b {
                    Ordering::Less
                } else if a == b {
                    Ordering::Equal
                } else {
                    Ordering::Greater
                }
            },
            Direction::Ascending => {
                if b < a {
                    Ordering::Less
                } else if a == b {
                    Ordering::Equal
                } else {
                    Ordering::Greater
                }
            },
        }
    }
}

/// Renders a count with a non-breaking space between digit groups of three.
pub fn count_with_seperator(value: usize) -> (r: String)
    ensures
        r@ == with_separators(dec_rep(value as int), "\u{a0}"@),
{
    to_denary(value, "\u{a0}")
}

/// Renders `value` in decimal with `seperator` between digit groups of
/// three, counted from the right.
fn to_denary(value: usize, seperator: &str) -> (r: String)
    ensures
        r@ == with_separators(dec_rep(value as int), seperator@),
{
    grouped_value(value as u64, seperator)
}

/// A sink that fans writes out to one or two underlying sinks.
pub struct PairedWriter<W1, W2>(pub Option<W1>, pub Option<W2>);

impl<W1, W2> PairedWriter<W1, W2> {
    /// Pairs up to two sinks; `None` when neither is given.
    pub fn new_from_option(first: Option<W1>, second: Option<W2>) -> (r: Option<PairedWriter<W1, W2>>)
        ensures
            match r {
                Some(pw) => (first is Some || second is Some) && pw.0 == first && pw.1 == second,
                None => first is None && second is None,
            },
    {
        if first.is_some() || second.is_some() {
            Some(PairedWriter(first, second))
        } else {
            None
        }
    }
}

// ---------------------------------------------------------------------------
// n-ary cartesian product
// ---------------------------------------------------------------------------

/// How many combinations the choice lists offer: the product of their
/// lengths.
pub open spec fn sizes_product<T>(cs: Seq<Vec<T>>) -> int
    decreases cs.len(),
{
    if cs.len() == 0 {
        1
    } else {
        sizes_product(cs.drop_last()) * cs.last()@.len()
    }
}

/// A product of lengths is never negative.
pub proof fn lemma_sizes_product_nonneg<T>(cs: Seq<Vec<T>>)
    ensures
        sizes_product(cs) >= 0,
    decreases cs.len(),
{
    if cs.len() > 0 {
        lemma_sizes_product_nonneg(cs.drop_last());
        assert(sizes_product(cs.drop_last()) * cs.last()@.len() >= 0) by (nonlinear_arith)
            requires
                sizes_product(cs.drop_last()) >= 0,
                cs.last()@.len() >= 0,
        ;
    }
}

/// When the product is positive, every list has something to choose.
pub proof fn lemma_sizes_product_positive<T>(cs: Seq<Vec<T>>, i: int)
    requires
        sizes_product(cs) > 0,
        0 <= i < cs.len(),
    ensures
        cs[i]@.len() > 0,
    decreases cs.len(),
{
    lemma_sizes_product_nonneg(cs.drop_last());
    if cs.last()@.len() == 0 {
        assert(sizes_product(cs) == sizes_product(cs.drop_last()) * 0);
    }
    assert(sizes_product(cs.drop_last()) > 0) by (nonlinear_arith)
        requires
            sizes_product(cs.drop_last()) * cs.last()@.len() > 0,
            sizes_product(cs.drop_last()) >= 0,
    ;
    if i < cs.len() - 1 {
        lemma_sizes_product_positive(cs.drop_last(), i);
        assert(cs.drop_last()[i] == cs[i]);
    }
}

/// With something to choose everywhere, one index is picked per list.
pub proof fn lemma_combo_indices_len<T>(cs: Seq<Vec<T>>, cur: int)
    requires
        forall|i: int| 0 <= i < cs.len() ==> (#[trigger] cs[i])@.len() > 0,
    ensures
        combo_indices(cs, cur).len() == cs.len(),
    decreases cs.len(),
{
    if cs.len() > 0 {
        assert forall|i: int| 0 <= i < cs.drop_first().len() implies (#[trigger] cs.drop_first()[i])@.len() > 0 by {
            assert(cs.drop_first()[i] == cs[i + 1]);
        }
        lemma_combo_indices_len(cs.drop_first(), cur / (cs[0]@.len() as int));
    }
}

/// The indices one combination picks, one per choice list, as the original
/// counts them: the combination numbered `cur` takes, in each list, the
/// position `len - (cur % len) - 1`, carrying `cur / len` rightwards.
pub open spec fn combo_indices<T>(cs: Seq<Vec<T>>, cur: int) -> Seq<int>
    decreases cs.len(),
{
    if cs.len() == 0 {
        Seq::empty()
    } else {
        let len0 = cs[0]@.len() as int;
        if len0 <= 0 {
            Seq::empty()
        } else {
            seq![len0 - (cur % len0) - 1] + combo_indices(cs.drop_first(), cur / len0)
        }
    }
}

/// Every combination of one item from each of the choice lists, counted
/// down by `remaining`.
pub struct BigCartesianProduct<T> {
    pub choices: Vec<Vec<T>>,
    pub remaining: usize,
}

impl<T> BigCartesianProduct<T> {
    /// Starts the walk with every combination still to come.
    pub fn new(choices: Vec<Vec<T>>) -> (r: BigCartesianProduct<T>)
        requires
            forall|i: int|
                0 <= i <= choices@.len() ==> #[trigger] sizes_product(choices@.subrange(0, i))
                    <= usize::MAX,
        ensures
            r.choices == choices,
            r.remaining == sizes_product(choices@),
    {
        let n: usize = choices.len();
        let mut acc: usize = 1;
        let mut i: usize = 0;
        proof {
            assert(choices@.subrange(0, 0) =~= Seq::<Vec<T>>::empty());
        }
        while i < n
            invariant
                i <= n,
                n == choices@.len(),
                acc == sizes_product(choices@.subrange(0, i as int)),
                forall|k: int|
                    0 <= k <= choices@.len() ==> #[trigger] sizes_product(
                        choices@.subrange(0, k),
                    ) <= usize::MAX,
            decreases n - i,
        {
            proof {
                assert(choices@.subrange(0, i + 1).drop_last() =~= choices@.subrange(0, i as int));
                assert(choices@.subrange(0, i + 1).last() == choices@[i as int]);
                lemma_sizes_product_nonneg(choices@.subrange(0, i + 1));
            }
            acc = acc * choices[i].len();
            i += 1;
        }
        proof {
            assert(choices@.subrange(0, n as int) =~= choices@);
        }
        BigCartesianProduct { choices, remaining: acc }
    }
}

impl<T: Clone> BigCartesianProduct<T> {
    /// The next combination, or nothing once all have been handed out.
    /// Each item is a clone of the entry its index picks.
    pub fn next(&mut self) -> (r: Option<Vec<T>>)
        requires
            old(self).remaining <= sizes_product(old(self).choices@),
        ensures
            final(self).choices == old(self).choices,
            old(self).remaining == 0 ==> r is None && *final(self) == *old(self),
            old(self).remaining > 0 ==> {
                let picks = combo_indices(old(self).choices@, old(self).remaining - 1);
                &&& r is Some
                &&& final(self).remaining == old(self).remaining - 1
                &&& (r->Some_0)@.len() == old(self).choices@.len()
                &&& forall|j: int|
                    0 <= j < old(self).choices@.len() ==> 0 <= #[trigger] picks[j] < old(
                        self,
                    ).choices@[j]@.len() && vstd::pervasive::cloned(
                        old(self).choices@[j]@[picks[j]],
                        (r->Some_0)@[j],
                    )
            },
    {
        if self.remaining == 0 {
            return None;
        }
        let ghost cs = self.choices@;
        let ghost picks = combo_indices(cs, self.remaining - 1);
        proof {
            lemma_sizes_product_nonneg(cs);
        }
        let mut cur: usize = self.remaining - 1;
        let mut items: Vec<T> = Vec::new();
        let n: usize = self.choices.len();
        let mut i: usize = 0;
        proof {
            assert forall|t: int| 0 <= t < cs.len() implies (#[trigger] cs[t])@.len() > 0 by {
                lemma_sizes_product_positive(cs, t);
            }
            lemma_combo_indices_len(cs, self.remaining - 1);
            assert(cs.skip(0) =~= cs);
            assert(picks.take(0) =~= Seq::<int>::empty());
            assert(Seq::<int>::empty() + combo_indices(cs.skip(0), cur as int) =~= combo_indices(
                cs.skip(0),
                cur as int,
            ));
        }
        while i < n
            invariant
                i <= n,
                n == cs.len(),
                cs == self.choices@,
                self.remaining > 0,
                self.remaining <= sizes_product(cs),
                picks == combo_indices(cs, self.remaining - 1),
                picks.len() == n,
                picks == picks.take(i as int) + combo_indices(cs.skip(i as int), cur as int),
                items@.len() == i,
                cur >= 0,
                forall|j: int|
                    0 <= j < i ==> 0 <= #[trigger] picks[j] < cs[j]@.len()
                        && vstd::pervasive::cloned(cs[j]@[picks[j]], items@[j]),
            decreases n - i,
        {
            proof {
                lemma_sizes_product_positive(cs, i as int);
                assert(cs.skip(i as int)[0] == cs[i as int]);
            }
            let len_i: usize = self.choices[i].len();
            let idx: usize = len_i - (cur % len_i) - 1;
            let item: T = self.choices[i][idx].clone();
            items.push(item);
            let ghost cur0 = cur as int;
            cur = cur / len_i;
            proof {
                assert(cs.skip(i as int).drop_first() =~= cs.skip(i + 1));
                assert(combo_indices(cs.skip(i as int), cur0) == seq![
                    cs[i as int]@.len() - (cur0 % cs[i as int]@.len() as int) - 1,
                ] + combo_indices(cs.skip(i + 1), cur0 / cs[i as int]@.len() as int));
                assert(picks[i as int] == idx as int);
                assert(picks.take(i + 1) =~= picks.take(i as int).push(picks[i as int]));
                assert(picks =~= picks.take(i + 1) + combo_indices(cs.skip(i + 1), cur as int));
            }
            i += 1;
        }
        proof {
            assert(picks.take(n as int) =~= picks);
        }
        self.remaining = self.remaining - 1;
        Some(items)
    }
}

/// The keys of a labelled choice map.
pub open spec fn keys_of<K, V>(m: Seq<(K, Vec<V>)>) -> Seq<K> {
    m.map_values(|p: (K, Vec<V>)| p.0)
}

/// The choice lists of a labelled choice map.
pub open spec fn values_of<K, V>(m: Seq<(K, Vec<V>)>) -> Seq<Vec<V>> {
    m.map_values(|p: (K, Vec<V>)| p.1)
}

/// Every combination over a labelled choice map, each combination handed
/// out as key-value pairs.
pub struct BigCartesianProductMap<K, V> {
    pub keys: Vec<K>,
    pub product: BigCartesianProduct<V>,
}

impl<K, V> BigCartesianProductMap<K, V> {
    /// Starts the walk over the labelled choice lists.
    pub fn new(map: Vec<(K, Vec<V>)>) -> (r: BigCartesianProductMap<K, V>)
        requires
            forall|i: int|
                0 <= i <= map@.len() ==> #[trigger] sizes_product(values_of(map@).subrange(0, i))
                    <= usize::MAX,
        ensures
            r.keys@ == keys_of(map@),
            r.product.choices@ == values_of(map@),
            r.product.remaining == sizes_product(values_of(map@)),
    {
        let ghost m0 = map@;
        let mut map = map;
        let mut keys: Vec<K> = Vec::new();
        let mut values: Vec<Vec<V>> = Vec::new();
        proof {
            assert(m0.subrange(0, 0) =~= Seq::<(K, Vec<V>)>::empty());
            assert(keys@ =~= keys_of(m0.subrange(0, 0)));
            assert(values@ =~= values_of(m0.subrange(0, 0)));
        }
        let total_n: usize = map.len();
        let mut i: usize = 0;
        while map.len() > 0
            invariant
                i <= total_n,
                total_n == m0.len(),
                map@ == m0.subrange(i as int, m0.len() as int),
                keys@ == keys_of(m0.subrange(0, i as int)),
                values@ == values_of(m0.subrange(0, i as int)),
            decreases map@.len(),
        {
            let p: (K, Vec<V>) = map.remove(0);
            proof {
                assert(p == m0[i as int]);
                assert(map@ =~= m0.subrange(i + 1, m0.len() as int));
            }
            keys.push(p.0);
            values.push(p.1);
            proof {
                assert(keys@ =~= keys_of(m0.subrange(0, i + 1))) by {
                    assert(m0.subrange(0, i + 1).drop_last() =~= m0.subrange(0, i as int));
                    assert(keys_of(m0.subrange(0, i + 1)).drop_last() =~= keys_of(
                        m0.subrange(0, i as int),
                    ));
                }
                assert(values@ =~= values_of(m0.subrange(0, i + 1)));
            }
            i += 1;
        }
        proof {
            assert(m0.subrange(0, m0.len() as int) =~= m0);
            assert(values@ =~= values_of(m0));
            assert(keys@ =~= keys_of(m0));
        }
        let product: BigCartesianProduct<V> = BigCartesianProduct::new(values);
        BigCartesianProductMap { keys, product }
    }
}

impl<K: Clone, V: Clone> BigCartesianProductMap<K, V> {
    /// The next combination as key-value pairs, or nothing once all have
    /// been handed out.
    pub fn next(&mut self) -> (r: Option<Vec<(K, V)>>)
        requires
            old(self).product.remaining <= sizes_product(old(self).product.choices@),
            old(self).keys@.len() == old(self).product.choices@.len(),
        ensures
            final(self).keys == old(self).keys,
            final(self).product.choices == old(self).product.choices,
            old(self).product.remaining == 0 ==> r is None && *final(self) == *old(self),
            old(self).product.remaining > 0 ==> {
                let picks = combo_indices(
                    old(self).product.choices@,
                    old(self).product.remaining - 1,
                );
                &&& r is Some
                &&& final(self).product.remaining == old(self).product.remaining - 1
                &&& (r->Some_0)@.len() == old(self).keys@.len()
                &&& forall|j: int|
                    0 <= j < old(self).keys@.len() ==> vstd::pervasive::cloned(
                        old(self).keys@[j],
                        (#[trigger] (r->Some_0)@[j]).0,
                    ) && 0 <= picks[j] < old(self).product.choices@[j]@.len()
                        && vstd::pervasive::cloned(
                        old(self).product.choices@[j]@[picks[j]],
                        (r->Some_0)@[j].1,
                    )
            },
    {
        let item: Vec<V> = match self.product.next() {
            None => {
                return None;
            },
            Some(item) => item,
        };
        let mut item = item;
        let ghost items0 = item@;
        let mut paired: Vec<(K, V)> = Vec::new();
        let n: usize = self.keys.len();
        let mut j: usize = 0;
        while j < n
            invariant
                j <= n,
                n == self.keys@.len(),
                item@ == items0.subrange(j as int, items0.len() as int),
                items0.len() == n,
                paired@.len() == j,
                self.keys == old(self).keys,
                self.product.choices == old(self).product.choices,
                self.product.remaining == old(self).product.remaining - 1,
                forall|t: int|
                    0 <= t < j ==> vstd::pervasive::cloned(
                        self.keys@[t],
                        (#[trigger] paired@[t]).0,
                    ) && paired@[t].1 == items0[t],
            decreases n - j,
        {
            let k: K = self.keys[j].clone();
            let v: V = item.remove(0);
            proof {
                assert(v == items0[j as int]);
                assert(item@ =~= items0.subrange(j + 1, items0.len() as int));
            }
            paired.push((k, v));
            j += 1;
        }
        Some(paired)
    }
}

// ---------------------------------------------------------------------------
// String templates
// ---------------------------------------------------------------------------

/// A character that may stand in an interpolation name.
pub open spec fn word_char(c: char) -> bool {
    unicode_alphanumeric(c) || c == '_'
}

/// The first position at or after `i` that does not hold a name character,
/// or the length when all do.
pub open spec fn name_end_from(s: Seq<char>, i: int) -> int
    decreases s.len() - i,
    when 0 <= i <= s.len()
{
    if i >= s.len() {
        s.len() as int
    } else if !word_char(s[i]) {
        i
    } else {
        name_end_from(s, i + 1)
    }
}

/// `name_end_from` names the end of the name that starts at `i`.
pub proof fn lemma_name_end_from(s: Seq<char>, i: int)
    requires
        0 <= i <= s.len(),
    ensures
        i <= name_end_from(s, i) <= s.len(),
        forall|j: int| i <= j < name_end_from(s, i) ==> word_char(s[j]),
        name_end_from(s, i) < s.len() ==> !word_char(s[name_end_from(s, i)]),
    decreases s.len() - i,
{
    if i < s.len() && word_char(s[i]) {
        lemma_name_end_from(s, i + 1);
    }
}

/// A position up to which only name characters stand, and which holds none
/// or is the end, is where `name_end_from` points.
pub proof fn lemma_name_end_from_at(s: Seq<char>, i: int, k: int)
    requires
        0 <= i <= k <= s.len(),
        forall|j: int| i <= j < k ==> word_char(s[j]),
        k < s.len() ==> !word_char(s[k]),
    ensures
        name_end_from(s, i) == k,
    decreases s.len() - i,
{
    if i < s.len() && word_char(s[i]) {
        lemma_name_end_from_at(s, i + 1, k);
    }
}

/// The pieces a template string falls into, from `start` on: literal text
/// at even positions and interpolation names at odd ones, in turns.  A
/// doubled marker keeps one literal marker and leaves an empty name slot.
pub open spec fn template_items(s: Seq<char>, ch: char, start: int) -> Seq<Seq<char>>
    decreases s.len() - start,
    when 0 <= start <= s.len()
    via template_items_decreases
{
    let idx = find_from(s, ch, start);
    if idx >= s.len() {
        seq![s.subrange(start, s.len() as int)]
    } else if idx > 0 && s[idx - 1] == ch {
        seq![s.subrange(start, idx + 1), Seq::empty()] + template_items(s, ch, idx + 1)
    } else {
        let ne = name_end_from(s, idx + 1);
        seq![s.subrange(start, idx), s.subrange(idx + 1, ne)] + template_items(s, ch, ne)
    }
}

#[via_fn]
proof fn template_items_decreases(s: Seq<char>, ch: char, start: int) {
    crate::text::lemma_find_from(s, ch, start);
    let idx = find_from(s, ch, start);
    if idx < s.len() {
        lemma_name_end_from(s, idx + 1);
    }
}

/// The characters of each piece.
pub open spec fn item_views(items: Seq<&str>) -> Seq<Seq<char>> {
    items.map_values(|x: &str| x@)
}

/// The pieces interleaved back into text, the first `i` of them: literal
/// pieces stand as they are; a name piece stands for its replacement from
/// `outs`, and an empty one for nothing.
pub open spec fn interleave_upto(items: Seq<Seq<char>>, outs: Seq<Seq<char>>, i: int) -> Seq<char>
    decreases i,
{
    if i <= 0 {
        Seq::empty()
    } else {
        interleave_upto(items, outs, i - 1) + (if (i - 1) % 2 == 0 {
            items[i - 1]
        } else if items[i - 1].len() == 0 {
            Seq::empty()
        } else {
            outs[i - 1]
        })
    }
}

/// Replacements that agree on the first `i` slots interleave the same.
pub proof fn lemma_interleave_grow(
    items: Seq<Seq<char>>,
    outs1: Seq<Seq<char>>,
    outs2: Seq<Seq<char>>,
    i: int,
)
    requires
        forall|j: int| 0 <= j < i ==> outs1[j] == outs2[j],
    ensures
        interleave_upto(items, outs1, i) == interleave_upto(items, outs2, i),
    decreases i,
{
    if i > 0 {
        lemma_interleave_grow(items, outs1, outs2, i - 1);
    }
}

/// A string cut at interpolation markers, ready to be filled in.
pub struct Template<'t> {
    pub items: Vec<&'t str>,
}

impl<'t> Template<'t> {
    /// Cuts `on` at each unescaped `interpolate_character`: what follows a
    /// marker, as far as it is alphanumeric or an underscore, is a name
    /// slot; a doubled marker escapes to a single literal one.
    pub fn new(on: &'t str, interpolate_character: char) -> (r: Template<'t>)
        ensures
            item_views(r.items@) == template_items(on@, interpolate_character, 0),
    {
        let ch = interpolate_character;
        let n: usize = on.unicode_len();
        let mut items: Vec<&'t str> = Vec::new();
        let mut start: usize = 0;
        proof {
            assert(item_views(items@) =~= Seq::<Seq<char>>::empty());
        }
        loop
            invariant
                ch == interpolate_character,
                start <= n,
                n == on@.len(),
                template_items(on@, ch, 0) == item_views(items@) + template_items(
                    on@,
                    ch,
                    start as int,
                ),
            decreases n - start,
        {
            let ghost items0 = items@;
            let idx: usize = find_from_str(on, ch, start);
            if idx >= n {
                let tail: &'t str = on.substring_char(start, n);
                items.push(tail);
                proof {
                    assert(item_views(items@) =~= item_views(items0).push(tail@));
                    assert(item_views(items@) + Seq::<Seq<char>>::empty() =~= item_views(items@));
                    assert(template_items(on@, ch, start as int) == seq![
                        on@.subrange(start as int, on@.len() as int),
                    ]);
                    assert(item_views(items0) + template_items(on@, ch, start as int)
                        =~= item_views(items@));
                }
                return Template { items };
            }
            proof {
                crate::text::lemma_find_from(on@, ch, start as int);
            }
            let escaped: bool = idx > 0 && on.get_char(idx - 1) == ch;
            if escaped {
                let piece: &'t str = on.substring_char(start, idx + 1);
                items.push(piece);
                items.push("");
                proof {
                    reveal_strlit("");
                    assert(""@ =~= Seq::<char>::empty());
                    assert(piece@ =~= on@.subrange(start as int, idx + 1));
                    assert(item_views(items@) =~= item_views(items0).push(piece@).push(
                        Seq::<char>::empty(),
                    ));
                    assert(item_views(items0) + (seq![
                        on@.subrange(start as int, idx + 1),
                        Seq::<char>::empty(),
                    ] + template_items(on@, ch, idx + 1)) =~= item_views(items@)
                        + template_items(on@, ch, idx + 1));
                }
                start = idx + 1;
            } else {
                let piece: &'t str = on.substring_char(start, idx);
                items.push(piece);
                let mut ne: usize = idx + 1;
                while ne < n
                    invariant_except_break
                        idx + 1 <= ne <= n,
                        n == on@.len(),
                        forall|j: int| idx + 1 <= j < ne ==> word_char(#[trigger] on@[j]),
                    ensures
                        idx + 1 <= ne <= n,
                        forall|j: int| idx + 1 <= j < ne ==> word_char(#[trigger] on@[j]),
                        ne < n ==> !word_char(on@[ne as int]),
                    decreases n - ne,
                {
                    let c: char = on.get_char(ne);
                    if !(char_is_alphanumeric(c) || c == '_') {
                        break;
                    }
                    ne += 1;
                }
                proof {
                    lemma_name_end_from_at(on@, idx + 1, ne as int);
                }
                let name: &'t str = on.substring_char(idx + 1, ne);
                items.push(name);
                proof {
                    assert(piece@ =~= on@.subrange(start as int, idx as int));
                    assert(name@ =~= on@.subrange(idx + 1, ne as int));
                    assert(item_views(items@) =~= item_views(items0).push(piece@).push(name@));
                    assert(item_views(items0) + (seq![piece@, name@] + template_items(
                        on@,
                        ch,
                        ne as int,
                    )) =~= item_views(items@) + template_items(on@, ch, ne as int));
                }
                start = ne;
            }
        }
    }

    /// Fills the template back in: literal pieces stand as they are, and
    /// `cb` supplies the text for each non-empty name slot.
    pub fn interpolate<F: Fn(&'t str) -> String>(&self, cb: F) -> (r: String)
        requires
            forall|j: int|
                0 <= j < self.items@.len() ==> call_requires(cb, (#[trigger] self.items@[j],)),
        ensures
            exists|outs: Seq<Seq<char>>|
                #![trigger interleave_upto(item_views(self.items@), outs, self.items@.len() as int)]
                {
                    &&& outs.len() == self.items@.len()
                    &&& forall|j: int|
                        0 <= j < self.items@.len() && j % 2 == 1 && self.items@[j]@.len() > 0
                            ==> exists|o: String|
                            o@ == outs[j] && call_ensures(cb, (#[trigger] self.items@[j],), o)
                    &&& r@ == interleave_upto(
                        item_views(self.items@),
                        outs,
                        self.items@.len() as int,
                    )
                },
    {
        let ghost views = item_views(self.items@);
        let mut buf: String = String::new();
        let ghost mut outs: Seq<Seq<char>> = Seq::empty();
        let n: usize = self.items.len();
        let mut i: usize = 0;
        while i < n
            invariant
                i <= n,
                n == self.items@.len(),
                views == item_views(self.items@),
                outs.len() == i,
                forall|j: int|
                    0 <= j < self.items@.len() ==> call_requires(cb, (#[trigger] self.items@[j],)),
                buf@ == interleave_upto(views, outs, i as int),
                forall|j: int|
                    0 <= j < i && j % 2 == 1 && self.items@[j]@.len() > 0 ==> exists|o: String|
                        o@ == outs[j] && call_ensures(cb, (#[trigger] self.items@[j],), o),
            decreases n - i,
        {
            let ghost outs0 = outs;
            let item: &'t str = self.items[i];
            if i % 2 == 0 {
                buf.append(item);
                proof {
                    outs = outs.push(vstd::pervasive::arbitrary());
                }
            } else if item.unicode_len() > 0 {
                let o: String = cb(item);
                buf.append(o.as_str());
                proof {
                    outs = outs.push(o@);
                    assert(o@ == outs[i as int] && call_ensures(cb, (self.items@[i as int],), o));
                }
            } else {
                proof {
                    outs = outs.push(Seq::empty());
                }
            }
            proof {
                lemma_interleave_grow(views, outs0, outs, i as int);
                assert(buf@ =~= interleave_upto(views, outs, i + 1));
            }
            i += 1;
        }
        proof {
            assert(buf@ == interleave_upto(item_views(self.items@), outs, self.items@.len() as int));
        }
        buf
    }
}

} // verus!
