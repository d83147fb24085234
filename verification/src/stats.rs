//! The per-symbol counter record: a fixed set of named instruction counters
//! plus an open-ended mapping from category label to count, with a field-wise
//! merge.  Adding to the open-ended mapping never changes `total`; the
//! aggregators bump `total` themselves, so the policy is applied uniformly
//! for both backends.

use vstd::prelude::*;

verus! {

broadcast use vstd::seq_lib::group_seq_properties, vstd::map::group_map_axioms;

/// The mathematical reading of a [`Statistics`] value: unbounded counters and
/// a map from category label to count.
#[verifier::ext_equal]
pub ghost struct StatsModel {
    pub total: int,
    pub mem_read: int,
    pub mem_write: int,
    pub stack_read: int,
    pub stack_write: int,
    pub call: int,
    pub branch: int,
    pub ret: int,
    pub compare: int,
    pub logic: int,
    pub arithmetic: int,
    pub others: Map<Seq<char>, int>,
}

/// The all-zero record with no extra categories.
pub open spec fn zero_model() -> StatsModel {
    StatsModel {
        total: 0,
        mem_read: 0,
        mem_write: 0,
        stack_read: 0,
        stack_write: 0,
        call: 0,
        branch: 0,
        ret: 0,
        compare: 0,
        logic: 0,
        arithmetic: 0,
        others: Map::empty(),
    }
}

/// Field-wise sum of two records; the label maps unite, adding counts on
/// shared labels.
pub open spec fn model_add(a: StatsModel, b: StatsModel) -> StatsModel {
    StatsModel {
        total: a.total + b.total,
        mem_read: a.mem_read + b.mem_read,
        mem_write: a.mem_write + b.mem_write,
        stack_read: a.stack_read + b.stack_read,
        stack_write: a.stack_write + b.stack_write,
        call: a.call + b.call,
        branch: a.branch + b.branch,
        ret: a.ret + b.ret,
        compare: a.compare + b.compare,
        logic: a.logic + b.logic,
        arithmetic: a.arithmetic + b.arithmetic,
        others: Map::new(
            |k: Seq<char>| a.others.dom().contains(k) || b.others.dom().contains(k),
            |k: Seq<char>|
                (if a.others.dom().contains(k) {
                    a.others[k]
                } else {
                    0
                }) + (if b.others.dom().contains(k) {
                    b.others[k]
                } else {
                    0
                }),
        ),
    }
}

/// Merging is commutative: the two orders give one record.
pub proof fn lemma_model_add_commutative(a: StatsModel, b: StatsModel)
    ensures
        model_add(a, b) == model_add(b, a),
{
    assert(model_add(a, b).others =~= model_add(b, a).others);
    assert(model_add(a, b) =~= model_add(b, a));
}

/// Merging is associative: grouping does not matter.
pub proof fn lemma_model_add_associative(a: StatsModel, b: StatsModel, c: StatsModel)
    ensures
        model_add(model_add(a, b), c) == model_add(a, model_add(b, c)),
{
    assert(model_add(model_add(a, b), c).others =~= model_add(a, model_add(b, c)).others);
    assert(model_add(model_add(a, b), c) =~= model_add(a, model_add(b, c)));
}

// ---------------------------------------------------------------------------
// The label list behind `others`
// ---------------------------------------------------------------------------

/// Some pair of `s` carries the label `k`.
pub open spec fn has_key(s: Seq<(String, u32)>, k: Seq<char>) -> bool {
    exists|i: int| 0 <= i < s.len() && (#[trigger] s[i]).0@ == k
}

/// The count that `s` attributes to the label `k`, over all its occurrences.
pub open spec fn others_sum(s: Seq<(String, u32)>, k: Seq<char>) -> int
    decreases s.len(),
{
    if s.len() == 0 {
        0
    } else {
        others_sum(s.drop_last(), k) + (if s.last().0@ == k {
            s.last().1 as int
        } else {
            0
        })
    }
}

/// The total count in `s` over every label.
pub open spec fn others_total(s: Seq<(String, u32)>) -> int
    decreases s.len(),
{
    if s.len() == 0 {
        0
    } else {
        others_total(s.drop_last()) + s.last().1
    }
}

/// The map reading of the label list.
pub open spec fn others_map(s: Seq<(String, u32)>) -> Map<Seq<char>, int> {
    Map::new(|k: Seq<char>| has_key(s, k), |k: Seq<char>| others_sum(s, k))
}

/// Each label occurs at most once.
pub open spec fn others_wf(s: Seq<(String, u32)>) -> bool {
    forall|i: int, j: int|
        0 <= i < j < s.len() ==> (#[trigger] s[i]).0@ != (#[trigger] s[j]).0@
}

/// A prefix of the label list never counts more than the whole.
pub proof fn lemma_others_total_prefix(s: Seq<(String, u32)>, i: int)
    requires
        0 <= i <= s.len(),
    ensures
        others_total(s.subrange(0, i)) <= others_total(s),
    decreases s.len() - i,
{
    if i < s.len() {
        assert(s.subrange(0, i + 1).drop_last() =~= s.subrange(0, i));
        assert(s.subrange(0, i + 1).last() == s[i]);
        lemma_others_total_prefix(s, i + 1);
    } else {
        assert(s.subrange(0, i) =~= s);
    }
}

/// A label that is absent counts zero.
pub proof fn lemma_absent_key_sum(s: Seq<(String, u32)>, k: Seq<char>)
    requires
        !has_key(s, k),
    ensures
        others_sum(s, k) == 0,
    decreases s.len(),
{
    if s.len() > 0 {
        assert(!has_key(s.drop_last(), k)) by {
            if has_key(s.drop_last(), k) {
                let i = choose|i: int|
                    0 <= i < s.drop_last().len() && (#[trigger] s.drop_last()[i]).0@ == k;
                assert(s[i].0@ == k);
            }
        }
        lemma_absent_key_sum(s.drop_last(), k);
        assert(s.last().0@ != k) by {
            assert(s[s.len() - 1] == s.last());
        }
    }
}

/// With unique labels, the pair at `i` carries the whole count of its label.
pub proof fn lemma_unique_key_sum(s: Seq<(String, u32)>, i: int)
    requires
        others_wf(s),
        0 <= i < s.len(),
    ensures
        others_sum(s, s[i].0@) == s[i].1 as int,
    decreases s.len(),
{
    if i == s.len() - 1 {
        assert(!has_key(s.drop_last(), s[i].0@)) by {
            if has_key(s.drop_last(), s[i].0@) {
                let j = choose|j: int|
                    0 <= j < s.drop_last().len() && (#[trigger] s.drop_last()[j]).0@ == s[i].0@;
                assert(s[j].0@ == s[i].0@);
            }
        }
        lemma_absent_key_sum(s.drop_last(), s[i].0@);
        assert(s.last() == s[i]);
    } else {
        assert(others_wf(s.drop_last()));
        lemma_unique_key_sum(s.drop_last(), i);
        assert(s.drop_last()[i] == s[i]);
        assert(s.last().0@ != s[i].0@) by {
            assert(s[s.len() - 1] == s.last());
        }
    }
}

/// How one updated pair moves the per-label counts.
pub proof fn lemma_update_sum(s: Seq<(String, u32)>, i: int, v: u32, k: Seq<char>)
    requires
        0 <= i < s.len(),
        s[i].1 + v <= u32::MAX,
    ensures
        others_sum(s.update(i, (s[i].0, (s[i].1 + v) as u32)), k) == others_sum(s, k) + (if s[i].0@
            == k {
            v as int
        } else {
            0
        }),
    decreases s.len(),
{
    let t = s.update(i, (s[i].0, (s[i].1 + v) as u32));
    if i == s.len() - 1 {
        assert(t.drop_last() =~= s.drop_last());
        assert(t.last() == (s[i].0, (s[i].1 + v) as u32));
    } else {
        assert(t.drop_last() =~= s.drop_last().update(i, (s[i].0, (s[i].1 + v) as u32)));
        assert(s.drop_last()[i] == s[i]);
        lemma_update_sum(s.drop_last(), i, v, k);
        assert(t.last() == s.last());
    }
}

// ---------------------------------------------------------------------------
// Routing one reported count
// ---------------------------------------------------------------------------

/// The category labels that land in a fixed field.
pub open spec fn fixed_kind(kind: Seq<char>) -> bool {
    kind == "mem_read"@ || kind == "mem_write"@ || kind == "call"@ || kind == "return"@ || kind
        == "branch"@ || kind == "compare"@ || kind == "logic"@ || kind == "arithmetic"@
}

/// One count routed into a record: `total` rises by `v`, and so does the
/// field matching `kind`, or the `kind` bucket of `others`.
pub open spec fn bump_model(m: StatsModel, kind: Seq<char>, v: int) -> StatsModel {
    let m1 = StatsModel { total: m.total + v, ..m };
    if kind == "mem_read"@ {
        StatsModel { mem_read: m.mem_read + v, ..m1 }
    } else if kind == "mem_write"@ {
        StatsModel { mem_write: m.mem_write + v, ..m1 }
    } else if kind == "call"@ {
        StatsModel { call: m.call + v, ..m1 }
    } else if kind == "return"@ {
        StatsModel { ret: m.ret + v, ..m1 }
    } else if kind == "branch"@ {
        StatsModel { branch: m.branch + v, ..m1 }
    } else if kind == "compare"@ {
        StatsModel { compare: m.compare + v, ..m1 }
    } else if kind == "logic"@ {
        StatsModel { logic: m.logic + v, ..m1 }
    } else if kind == "arithmetic"@ {
        StatsModel { arithmetic: m.arithmetic + v, ..m1 }
    } else {
        StatsModel {
            others: m.others.insert(
                kind,
                (if m.others.dom().contains(kind) {
                    m.others[kind]
                } else {
                    0
                }) + v,
            ),
            ..m1
        }
    }
}

/// The additions that routing `v` under `kind` makes all fit.
pub open spec fn bump_fits(s: Statistics, kind: Seq<char>, v: u32) -> bool {
    &&& s.total + v <= u32::MAX
    &&& (if kind == "mem_read"@ {
        s.mem_read + v <= u32::MAX
    } else if kind == "mem_write"@ {
        s.mem_write + v <= u32::MAX
    } else if kind == "call"@ {
        s.call + v <= u32::MAX
    } else if kind == "return"@ {
        s.ret + v <= u32::MAX
    } else if kind == "branch"@ {
        s.branch + v <= u32::MAX
    } else if kind == "compare"@ {
        s.compare + v <= u32::MAX
    } else if kind == "logic"@ {
        s.logic + v <= u32::MAX
    } else if kind == "arithmetic"@ {
        s.arithmetic + v <= u32::MAX
    } else {
        others_sum(s.others@, kind) + v <= u32::MAX
    })
}

// ---------------------------------------------------------------------------
// The executable record
// ---------------------------------------------------------------------------

/// Per-symbol instruction counters: the fixed fields, and further categories
/// by label in `others`, each label held once, in insertion order.
#[derive(Clone, Debug)]
pub struct Statistics {
    pub total: u32,
    pub mem_read: u32,
    pub mem_write: u32,
    pub stack_read: u32,
    pub stack_write: u32,
    pub call: u32,
    pub branch: u32,
    pub ret: u32,
    pub compare: u32,
    pub logic: u32,
    pub arithmetic: u32,
    pub others: Vec<(String, u32)>,
}

impl Statistics {
    /// The record read mathematically.
    pub open spec fn model(self) -> StatsModel {
        StatsModel {
            total: self.total as int,
            mem_read: self.mem_read as int,
            mem_write: self.mem_write as int,
            stack_read: self.stack_read as int,
            stack_write: self.stack_write as int,
            call: self.call as int,
            branch: self.branch as int,
            ret: self.ret as int,
            compare: self.compare as int,
            logic: self.logic as int,
            arithmetic: self.arithmetic as int,
            others: others_map(self.others@),
        }
    }

    /// Labels in `others` are unique.
    pub open spec fn wf(self) -> bool {
        others_wf(self.others@)
    }

    /// The all-zero record.
    pub fn new() -> (r: Statistics)
        ensures
            r.wf(),
            r.model() == zero_model(),
            r.others@.len() == 0,
    {
        let r = Statistics {
            total: 0,
            mem_read: 0,
            mem_write: 0,
            stack_read: 0,
            stack_write: 0,
            call: 0,
            branch: 0,
            ret: 0,
            compare: 0,
            logic: 0,
            arithmetic: 0,
            others: Vec::new(),
        };
        proof {
            assert(others_map(r.others@) =~= Map::<Seq<char>, int>::empty());
            assert(r.model() =~= zero_model());
        }
        r
    }

    /// Adds `value` under the label `key`, creating the bucket if absent.
    /// `total` is left alone.
    pub fn add_other(&mut self, key: String, value: u32)
        requires
            old(self).wf(),
            others_sum(old(self).others@, key@) + value <= u32::MAX,
        ensures
            final(self).wf(),
            final(self).model() == (StatsModel {
                others: old(self).model().others.insert(
                    key@,
                    others_sum(old(self).others@, key@) + value,
                ),
                ..old(self).model()
            }),
            forall|k: Seq<char>| #[trigger]
                others_sum(final(self).others@, k) == others_sum(old(self).others@, k) + (if k
                    == key@ {
                    value as int
                } else {
                    0
                }),
            forall|k: Seq<char>| #[trigger]
                has_key(final(self).others@, k) <==> has_key(old(self).others@, k) || k == key@,
            final(self).others@.len() <= old(self).others@.len() + 1,
    {
        let ghost s0 = self.others@;
        let n: usize = self.others.len();
        let mut i: usize = 0;
        while i < n
            invariant
                i <= n,
                n == self.others@.len(),
                forall|j: int| 0 <= j < i ==> (#[trigger] self.others@[j]).0@ != key@,
                *self == *old(self),
                s0 == old(self).others@,
                old(self).wf(),
                others_sum(old(self).others@, key@) + value <= u32::MAX,
            decreases n - i,
        {
            if crate::text::str_eq(self.others[i].0.as_str(), key.as_str()) {
                proof {
                    lemma_unique_key_sum(s0, i as int);
                }
                let pair: (String, u32) = self.others.remove(i);
                let bumped: u32 = pair.1 + value;
                self.others.insert(i, (pair.0, bumped));
                proof {
                    let s1 = self.others@;
                    assert(s1 =~= s0.update(i as int, (s0[i as int].0, (s0[i as int].1
                        + value) as u32)));
                    assert forall|k: Seq<char>| has_key(s1, k) implies has_key(s0, k) by {
                        let j = choose|j: int| 0 <= j < s1.len() && (#[trigger] s1[j]).0@ == k;
                        assert(s0[j].0@ == k);
                    }
                    assert forall|k: Seq<char>| has_key(s0, k) implies has_key(s1, k) by {
                        let j = choose|j: int| 0 <= j < s0.len() && (#[trigger] s0[j]).0@ == k;
                        assert(s1[j].0@ == k);
                    }
                    assert forall|k: Seq<char>| true implies #[trigger] others_sum(s1, k)
                        == others_sum(s0, k) + (if s0[i as int].0@ == k {
                        value as int
                    } else {
                        0
                    }) by {
                        lemma_update_sum(s0, i as int, value, k);
                    }
                    assert(others_map(s1) =~= others_map(s0).insert(
                        key@,
                        others_sum(s0, key@) + value,
                    ));
                    assert(final(self).model() =~= (StatsModel {
                        others: old(self).model().others.insert(
                            key@,
                            others_sum(old(self).others@, key@) + value,
                        ),
                        ..old(self).model()
                    }));
                }
                return;
            }
            i += 1;
        }
        self.others.push((key, value));
        proof {
            let s1 = self.others@;
            assert(!has_key(s0, key@));
            lemma_absent_key_sum(s0, key@);
            assert(s1.drop_last() =~= s0);
            assert(s1.last() == (key, value));
            assert forall|k: Seq<char>| true implies #[trigger] others_sum(s1, k) == others_sum(
                s0,
                k,
            ) + (if key@ == k {
                value as int
            } else {
                0
            }) by {}
            assert forall|k: Seq<char>| has_key(s1, k) implies has_key(s0, k) || k == key@ by {
                let j = choose|j: int| 0 <= j < s1.len() && (#[trigger] s1[j]).0@ == k;
                if j < s0.len() {
                    assert(s0[j].0@ == k);
                }
            }
            assert forall|k: Seq<char>| has_key(s0, k) implies has_key(s1, k) by {
                let j = choose|j: int| 0 <= j < s0.len() && (#[trigger] s0[j]).0@ == k;
                assert(s1[j].0@ == k);
            }
            assert(has_key(s1, key@)) by {
                assert(s1[s1.len() - 1].0@ == key@);
            }
            assert(others_map(s1) =~= others_map(s0).insert(key@, others_sum(s0, key@) + value));
            assert(final(self).model() =~= (StatsModel {
                others: old(self).model().others.insert(
                    key@,
                    others_sum(old(self).others@, key@) + value,
                ),
                ..old(self).model()
            }));
            assert(others_wf(s1)) by {
                assert forall|a: int, b: int| 0 <= a < b < s1.len() implies (#[trigger] s1[a]).0@
                    != (#[trigger] s1[b]).0@ by {
                    if b == s1.len() - 1 {
                        assert(s1[a].0@ != key@);
                    }
                }
            }
        }
    }

    /// Routes one reported count: `v` is added to `total`, and to the fixed
    /// field matching `kind`, or to `others[kind]` when no fixed field does.
    pub fn bump(&mut self, kind: &str, v: u32)
        requires
            old(self).wf(),
            bump_fits(*old(self), kind@, v),
        ensures
            final(self).wf(),
            final(self).model() == bump_model(old(self).model(), kind@, v as int),
            forall|k: Seq<char>| #[trigger]
                others_sum(final(self).others@, k) == others_sum(old(self).others@, k) + (
                if !fixed_kind(kind@) && k == kind@ {
                    v as int
                } else {
                    0
                }),
            forall|k: Seq<char>| #[trigger]
                has_key(final(self).others@, k) <==> has_key(old(self).others@, k) || (!fixed_kind(
                    kind@,
                ) && k == kind@),
    {
        self.total = self.total + v;
        if crate::text::str_eq(kind, "mem_read") {
            self.mem_read = self.mem_read + v;
        } else if crate::text::str_eq(kind, "mem_write") {
            self.mem_write = self.mem_write + v;
        } else if crate::text::str_eq(kind, "call") {
            self.call = self.call + v;
        } else if crate::text::str_eq(kind, "return") {
            self.ret = self.ret + v;
        } else if crate::text::str_eq(kind, "branch") {
            self.branch = self.branch + v;
        } else if crate::text::str_eq(kind, "compare") {
            self.compare = self.compare + v;
        } else if crate::text::str_eq(kind, "logic") {
            self.logic = self.logic + v;
        } else if crate::text::str_eq(kind, "arithmetic") {
            self.arithmetic = self.arithmetic + v;
        } else {
            self.add_other(kind.to_owned(), v);
            proof {
                if !has_key(old(self).others@, kind@) {
                    lemma_absent_key_sum(old(self).others@, kind@);
                }
                assert(final(self).model().others =~= bump_model(
                    old(self).model(),
                    kind@,
                    v as int,
                ).others);
            }
        }
        proof {
            assert(final(self).model() =~= bump_model(old(self).model(), kind@, v as int));
        }
    }

    /// Field-wise merge of `other` into `self`; shared labels add up.
    pub fn merge(&mut self, other: Statistics)
        requires
            old(self).wf(),
            other.wf(),
            old(self).total + other.total <= u32::MAX,
            old(self).mem_read + other.mem_read <= u32::MAX,
            old(self).mem_write + other.mem_write <= u32::MAX,
            old(self).stack_read + other.stack_read <= u32::MAX,
            old(self).stack_write + other.stack_write <= u32::MAX,
            old(self).call + other.call <= u32::MAX,
            old(self).branch + other.branch <= u32::MAX,
            old(self).ret + other.ret <= u32::MAX,
            old(self).compare + other.compare <= u32::MAX,
            old(self).logic + other.logic <= u32::MAX,
            old(self).arithmetic + other.arithmetic <= u32::MAX,
            forall|k: Seq<char>|
                others_sum(old(self).others@, k) + #[trigger] others_sum(other.others@, k)
                    <= u32::MAX,
        ensures
            final(self).wf(),
            final(self).model() == model_add(old(self).model(), other.model()),
    {
        self.total = self.total + other.total;
        self.mem_read = self.mem_read + other.mem_read;
        self.mem_write = self.mem_write + other.mem_write;
        self.stack_read = self.stack_read + other.stack_read;
        self.stack_write = self.stack_write + other.stack_write;
        self.call = self.call + other.call;
        self.branch = self.branch + other.branch;
        self.ret = self.ret + other.ret;
        self.compare = self.compare + other.compare;
        self.logic = self.logic + other.logic;
        self.arithmetic = self.arithmetic + other.arithmetic;
        let ghost base = self.others@;
        let ghost src = other.others@;
        let n: usize = other.others.len();
        let mut j: usize = 0;
        while j < n
            invariant
                j <= n,
                n == src.len(),
                src == other.others@,
                base == old(self).others@,
                others_wf(base),
                others_wf(src),
                others_wf(self.others@),
                forall|k: Seq<char>|
                    others_sum(base, k) + #[trigger] others_sum(src, k) <= u32::MAX,
                forall|k: Seq<char>| #[trigger]
                    others_sum(self.others@, k) == others_sum(base, k) + others_sum(
                        src.subrange(0, j as int),
                        k,
                    ),
                forall|k: Seq<char>| #[trigger]
                    has_key(self.others@, k) <==> has_key(base, k) || has_key(
                        src.subrange(0, j as int),
                        k,
                    ),
                self.total == old(self).total + other.total,
                self.mem_read == old(self).mem_read + other.mem_read,
                self.mem_write == old(self).mem_write + other.mem_write,
                self.stack_read == old(self).stack_read + other.stack_read,
                self.stack_write == old(self).stack_write + other.stack_write,
                self.call == old(self).call + other.call,
                self.branch == old(self).branch + other.branch,
                self.ret == old(self).ret + other.ret,
                self.compare == old(self).compare + other.compare,
                self.logic == old(self).logic + other.logic,
                self.arithmetic == old(self).arithmetic + other.arithmetic,
            decreases n - j,
        {
            let label: String = other.others[j].0.clone();
            let value: u32 = other.others[j].1;
            proof {
                assert(label@ == src[j as int].0@);
                lemma_unique_key_sum(src, j as int);
                assert(!has_key(src.subrange(0, j as int), label@)) by {
                    if has_key(src.subrange(0, j as int), label@) {
                        let t = choose|t: int|
                            0 <= t < j && (#[trigger] src.subrange(0, j as int)[t]).0@ == label@;
                        assert(src[t].0@ == src[j as int].0@);
                    }
                }
                lemma_absent_key_sum(src.subrange(0, j as int), label@);
            }
            self.add_other(label, value);
            proof {
                assert(src.subrange(0, j + 1).drop_last() =~= src.subrange(0, j as int));
                assert(src.subrange(0, j + 1).last() == src[j as int]);
                assert forall|k: Seq<char>| true implies #[trigger] others_sum(
                    self.others@,
                    k,
                ) == others_sum(base, k) + others_sum(src.subrange(0, j + 1), k) by {
                    assert(others_sum(src.subrange(0, j + 1), k) == others_sum(
                        src.subrange(0, j as int),
                        k,
                    ) + (if src[j as int].0@ == k {
                        src[j as int].1 as int
                    } else {
                        0
                    }));
                }
                assert forall|k: Seq<char>| true implies (#[trigger] has_key(self.others@, k)
                    <==> has_key(base, k) || has_key(src.subrange(0, j + 1), k)) by {
                    if has_key(src.subrange(0, j + 1), k) && !has_key(
                        src.subrange(0, j as int),
                        k,
                    ) {
                        let t = choose|t: int|
                            0 <= t < j + 1 && (#[trigger] src.subrange(0, j + 1)[t]).0@ == k;
                        assert(src[t].0@ == k);
                        assert(t == j);
                    }
                    if k == label@ {
                        assert(src.subrange(0, j + 1)[j as int].0@ == k);
                    }
                }
            }
            j += 1;
        }
        proof {
            assert(src.subrange(0, n as int) =~= src);
            assert forall|k: Seq<char>| true implies #[trigger] others_sum(self.others@, k)
                == others_sum(base, k) + others_sum(src, k) by {}
            assert(others_map(self.others@) =~= model_add(
                old(self).model(),
                other.model(),
            ).others) by {
                assert forall|k: Seq<char>|
                    others_map(self.others@).dom().contains(k) implies #[trigger] others_map(
                    self.others@,
                )[k] == model_add(old(self).model(), other.model()).others[k] by {
                    if !has_key(base, k) {
                        lemma_absent_key_sum(base, k);
                    }
                    if !has_key(src, k) {
                        lemma_absent_key_sum(src, k);
                    }
                }
            }
            assert(final(self).model() =~= model_add(old(self).model(), other.model()));
        }
    }

    /// The record as labelled rows in a fixed order: the eleven fixed
    /// counters, then one synthetic `"other"` row carrying the sum over
    /// every extra category.
    pub fn as_rows(&self) -> (r: [(&'static str, u32); 12])
        requires
            others_total(self.others@) <= u32::MAX,
        ensures
            r@ =~= seq![
                ("total", self.total),
                ("mem_read", self.mem_read),
                ("mem_write", self.mem_write),
                ("stack_read", self.stack_read),
                ("stack_write", self.stack_write),
                ("call", self.call),
                ("branch", self.branch),
                ("return", self.ret),
                ("compare", self.compare),
                ("logic", self.logic),
                ("arithmetic", self.arithmetic),
                ("other", (others_total(self.others@) as u32)),
            ],
    {
        let n: usize = self.others.len();
        let mut sum: u32 = 0;
        let mut i: usize = 0;
        proof {
            assert(self.others@.subrange(0, 0) =~= Seq::<(String, u32)>::empty());
        }
        while i < n
            invariant
                i <= n,
                n == self.others@.len(),
                others_total(self.others@) <= u32::MAX,
                sum == others_total(self.others@.subrange(0, i as int)),
            decreases n - i,
        {
            proof {
                assert(self.others@.subrange(0, i + 1).drop_last() =~= self.others@.subrange(
                    0,
                    i as int,
                ));
                assert(self.others@.subrange(0, i + 1).last() == self.others@[i as int]);
                lemma_others_total_prefix(self.others@, i + 1);
            }
            sum = sum + self.others[i].1;
            i += 1;
        }
        proof {
            assert(self.others@.subrange(0, n as int) =~= self.others@);
        }
        [
            ("total", self.total),
            ("mem_read", self.mem_read),
            ("mem_write", self.mem_write),
            ("stack_read", self.stack_read),
            ("stack_write", self.stack_write),
            ("call", self.call),
            ("branch", self.branch),
            ("return", self.ret),
            ("compare", self.compare),
            ("logic", self.logic),
            ("arithmetic", self.arithmetic),
            ("other", sum),
        ]
    }
}

impl Default for Statistics {
    /// The all-zero record.
    fn default() -> (r: Statistics)
        ensures
            r.wf(),
            r.model() == zero_model(),
            r.others@.len() == 0,
    {
        Statistics::new()
    }
}

/// One reported symbol with its counters.
#[derive(Clone, Debug)]
pub struct Entry {
    pub symbol_name: String,
    pub statistics: Statistics,
}

/// What a backend run yields.
#[non_exhaustive]
pub enum ToolOutput {
    SymbolInstructionCounts { symbols: Vec<Entry>, total: Statistics },
}

} // verus!
