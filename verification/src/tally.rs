use vstd::prelude::*;
use vstd::arithmetic::div_mod::{lemma_div_is_ordered, lemma_div_multiples_vanish};
use vstd::arithmetic::mul::lemma_mul_inequality;
use crate::item::{Item, item_key, tallied, key_of};

verus! {

/// One label of a category tally with its occurrence count.
pub struct Entry {
    pub label: String,
    pub count: usize,
}

/// Occurrence counts per label, derived once from a finished item
/// collection and never mutated afterwards. Labels are distinct; a label
/// that is absent counts zero.
pub struct CategoryTally {
    pub entries: Vec<Entry>,
}

/// Occurrence counts of the two states of the boolean flag.
pub struct FlagTally {
    pub flagged: usize,
    pub unflagged: usize,
}

/// No two entries of the sequence carry the same label.
pub open spec fn labels_distinct(s: Seq<Entry>) -> bool {
    forall|i: int, j: int| 0 <= i < j < s.len() ==> s[i].label@ != s[j].label@
}

/// Some entry of the sequence carries the label `k`.
pub open spec fn has_label(s: Seq<Entry>, k: Seq<char>) -> bool {
    exists|i: int| 0 <= i < s.len() && s[i].label@ == k
}

/// The count the entries record for label `k`: the count of the first
/// entry with that label, or zero where none carries it.
pub open spec fn lookup(s: Seq<Entry>, k: Seq<char>) -> int
    decreases s.len(),
{
    if s.len() == 0 {
        0
    } else if s[0].label@ == k {
        s[0].count as int
    } else {
        lookup(s.drop_first(), k)
    }
}

/// The sum of all counts the entries record.
pub open spec fn sum_counts(s: Seq<Entry>) -> int
    decreases s.len(),
{
    if s.len() == 0 {
        0
    } else {
        sum_counts(s.drop_last()) + s.last().count
    }
}

impl CategoryTally {
    /// No label occurs twice among the entries.
    pub open spec fn wf(self) -> bool {
        labels_distinct(self.entries@)
    }
}

/// How many of the items are tallied under label `k`: those that take
/// part in the tally and whose tally label is `k`.
pub open spec fn count_key(items: Seq<Item>, include_unlabeled: bool, k: Seq<char>) -> int
    decreases items.len(),
{
    if items.len() == 0 {
        0
    } else {
        count_key(items.drop_last(), include_unlabeled, k) + (if tallied(
            items.last(),
            include_unlabeled,
        ) && item_key(items.last()) == k {
            1int
        } else {
            0int
        })
    }
}

/// How many of the items take part in the tally at all.
pub open spec fn count_tallied(items: Seq<Item>, include_unlabeled: bool) -> int
    decreases items.len(),
{
    if items.len() == 0 {
        0
    } else {
        count_tallied(items.drop_last(), include_unlabeled) + (if tallied(
            items.last(),
            include_unlabeled,
        ) {
            1int
        } else {
            0int
        })
    }
}

/// How many of the items carry the boolean flag.
pub open spec fn count_flagged(items: Seq<Item>) -> int
    decreases items.len(),
{
    if items.len() == 0 {
        0
    } else {
        count_flagged(items.drop_last()) + (if items.last().flag {
            1int
        } else {
            0int
        })
    }
}

/// When every item takes part in the tally, the tallied count is the
/// whole length.
proof fn lemma_count_tallied_all(items: Seq<Item>)
    ensures
        count_tallied(items, true) == items.len(),
    decreases items.len(),
{
    if items.len() > 0 {
        lemma_count_tallied_all(items.drop_last());
    }
}

/// Appending an entry with a fresh label keeps the labels distinct.
proof fn lemma_entry_push_fresh_keeps_distinct(s: Seq<Entry>, e: Entry)
    requires
        labels_distinct(s),
        !has_label(s, e.label@),
    ensures
        labels_distinct(s.push(e)),
{
    let t = s.push(e);
    assert forall|i: int, j: int| 0 <= i < j < t.len() implies t[i].label@ != t[j].label@ by {
        if j == s.len() {
            assert(t[i] == s[i]);
            if s[i].label@ == e.label@ {
                assert(has_label(s, e.label@));
            }
        } else {
            assert(t[i] == s[i] && t[j] == s[j]);
        }
    }
}

/// Replacing an entry by one with the same label keeps the labels
/// distinct.
proof fn lemma_entry_update_keeps_distinct(s: Seq<Entry>, j: int, e: Entry)
    requires
        labels_distinct(s),
        0 <= j < s.len(),
        s[j].label@ == e.label@,
    ensures
        labels_distinct(s.update(j, e)),
{
    let t = s.update(j, e);
    assert forall|a: int, b: int| 0 <= a < b < t.len() implies t[a].label@ != t[b].label@ by {
        assert(t[a].label@ == s[a].label@ && t[b].label@ == s[b].label@);
    }
}

/// Where no entry carries label `k`, the recorded count for `k` is zero.
proof fn lemma_lookup_absent(s: Seq<Entry>, k: Seq<char>)
    requires
        !has_label(s, k),
    ensures
        lookup(s, k) == 0,
    decreases s.len(),
{
    if s.len() > 0 {
        if s[0].label@ == k {
            assert(has_label(s, k));
        }
        assert forall|i: int| 0 <= i < s.drop_first().len() implies s.drop_first()[i].label@ != k by {
            assert(s.drop_first()[i] == s[i + 1]);
        }
        lemma_lookup_absent(s.drop_first(), k);
    }
}

/// With distinct labels, the count recorded for an entry's label is that
/// entry's count.
proof fn lemma_lookup_at(s: Seq<Entry>, j: int, k: Seq<char>)
    requires
        labels_distinct(s),
        0 <= j < s.len(),
        s[j].label@ == k,
    ensures
        lookup(s, k) == s[j].count,
    decreases s.len(),
{
    if j > 0 {
        assert(s[0].label@ != k);
        let d = s.drop_first();
        assert forall|a: int, b: int| 0 <= a < b < d.len() implies d[a].label@ != d[b].label@ by {
            assert(d[a] == s[a + 1] && d[b] == s[b + 1]);
        }
        assert(d[j - 1] == s[j]);
        lemma_lookup_at(d, j - 1, k);
    }
}

/// Appending an entry with a fresh label records that entry's count for
/// its label and changes no other label's count.
proof fn lemma_lookup_push(s: Seq<Entry>, e: Entry, k: Seq<char>)
    requires
        !has_label(s, e.label@),
    ensures
        lookup(s.push(e), k) == if k == e.label@ {
            e.count as int
        } else {
            lookup(s, k)
        },
    decreases s.len(),
{
    let t = s.push(e);
    if s.len() == 0 {
        assert(t[0] == e);
        assert(t.drop_first() =~= Seq::<Entry>::empty());
        assert(lookup(Seq::<Entry>::empty(), k) == 0);
    } else {
        assert(t[0] == s[0]);
        assert(t.drop_first() =~= s.drop_first().push(e));
        if s[0].label@ == e.label@ {
            assert(has_label(s, e.label@));
        }
        assert forall|i: int| 0 <= i < s.drop_first().len() implies s.drop_first()[i].label@
            != e.label@ by {
            assert(s.drop_first()[i] == s[i + 1]);
        }
        lemma_lookup_push(s.drop_first(), e, k);
    }
}

/// Replacing an entry by one with the same label records the new count
/// for that label and changes no other label's count.
proof fn lemma_lookup_update(s: Seq<Entry>, j: int, e: Entry, k: Seq<char>)
    requires
        labels_distinct(s),
        0 <= j < s.len(),
        s[j].label@ == e.label@,
    ensures
        lookup(s.update(j, e), k) == if k == e.label@ {
            e.count as int
        } else {
            lookup(s, k)
        },
    decreases s.len(),
{
    let t = s.update(j, e);
    if j == 0 {
        assert(t[0] == e);
        assert(t.drop_first() =~= s.drop_first());
        if k != e.label@ {
            assert(s[0].label@ != k);
        } else {
            assert(t[0].label@ == k);
        }
    } else {
        assert(t[0] == s[0]);
        assert(s[0].label@ != s[j].label@);
        assert(t.drop_first() =~= s.drop_first().update(j - 1, e));
        let d = s.drop_first();
        assert forall|a: int, b: int| 0 <= a < b < d.len() implies d[a].label@ != d[b].label@ by {
            assert(d[a] == s[a + 1] && d[b] == s[b + 1]);
        }
        assert(d[j - 1] == s[j]);
        lemma_lookup_update(d, j - 1, e, k);
    }
}

/// Replacing one entry changes the sum by the difference of the counts.
proof fn lemma_sum_update(s: Seq<Entry>, j: int, e: Entry)
    requires
        0 <= j < s.len(),
    ensures
        sum_counts(s.update(j, e)) == sum_counts(s) - s[j].count + e.count,
    decreases s.len(),
{
    let t = s.update(j, e);
    if j == s.len() - 1 {
        assert(t.drop_last() =~= s.drop_last());
        assert(t.last() == e);
    } else {
        assert(t.drop_last() =~= s.drop_last().update(j, e));
        assert(t.last() == s.last());
        assert(s.drop_last()[j] == s[j]);
        lemma_sum_update(s.drop_last(), j, e);
    }
}

/// The sum of the counts is never negative.
proof fn lemma_sum_nonneg(s: Seq<Entry>)
    ensures
        sum_counts(s) >= 0,
    decreases s.len(),
{
    if s.len() > 0 {
        lemma_sum_nonneg(s.drop_last());
    }
}

/// The sum over a prefix never exceeds the sum over the whole.
proof fn lemma_sum_take_le(s: Seq<Entry>, n: int)
    requires
        0 <= n <= s.len(),
    ensures
        sum_counts(s.take(n)) <= sum_counts(s),
    decreases s.len() - n,
{
    if n == s.len() {
        assert(s.take(n) =~= s);
    } else {
        assert(s.take(n + 1).drop_last() =~= s.take(n));
        assert(s.take(n + 1).last() == s[n]);
        lemma_sum_take_le(s, n + 1);
    }
}

/// No single count exceeds the sum of all counts.
proof fn lemma_count_le_sum(s: Seq<Entry>, j: int)
    requires
        0 <= j < s.len(),
    ensures
        s[j].count <= sum_counts(s),
    decreases s.len(),
{
    if j == s.len() - 1 {
        lemma_sum_nonneg(s.drop_last());
    } else {
        assert(s.drop_last()[j] == s[j]);
        lemma_count_le_sum(s.drop_last(), j);
    }
}

/// The index of the entry carrying label `k`, where one does.
fn find_label(entries: &Vec<Entry>, k: &String) -> (r: Option<usize>)
    ensures
        r matches Some(j) ==> j < entries@.len() && entries@[j as int].label@ == k@,
        r is None ==> !has_label(entries@, k@),
{
    let mut i: usize = 0;
    while i < entries.len()
        invariant
            i <= entries@.len(),
            forall|a: int| 0 <= a < i ==> entries@[a].label@ != k@,
        decreases entries@.len() - i,
    {
        if entries[i].label == *k {
            return Some(i);
        }
        i += 1;
    }
    None
}

/// Counts the items per tally label. When unlabeled items are included
/// they are counted under the sentinel label; when they are excluded they
/// are skipped entirely. Every label's recorded count equals the number
/// of items tallied under it, every recorded count is at least one, and
/// the counts sum to the number of items that took part — with unlabeled
/// items included, to the full length of the collection.
pub fn tally_by_category(items: &Vec<Item>, include_unlabeled: bool) -> (t: CategoryTally)
    ensures
        t.wf(),
        forall|k: Seq<char>| #[trigger] lookup(t.entries@, k) == count_key(
            items@,
            include_unlabeled,
            k,
        ),
        sum_counts(t.entries@) == count_tallied(items@, include_unlabeled),
        forall|j: int| 0 <= j < t.entries@.len() ==> (#[trigger] t.entries@[j]).count >= 1,
        include_unlabeled ==> sum_counts(t.entries@) == items@.len(),
{
    let mut entries: Vec<Entry> = Vec::new();
    let mut i: usize = 0;
    while i < items.len()
        invariant
            i <= items@.len(),
            labels_distinct(entries@),
            forall|k: Seq<char>| #[trigger] lookup(entries@, k) == count_key(
                items@.take(i as int),
                include_unlabeled,
                k,
            ),
            sum_counts(entries@) == count_tallied(items@.take(i as int), include_unlabeled),
            forall|j: int| 0 <= j < entries@.len() ==> 1 <= (#[trigger] entries@[j]).count <= i,
        decreases items@.len() - i,
    {
        proof {
            assert(items@.take(i as int + 1).drop_last() =~= items@.take(i as int));
            assert(items@.take(i as int + 1).last() == items@[i as int]);
        }
        let ghost pre = entries@;
        let it = &items[i];
        let included = include_unlabeled || it.label.is_some();
        if included {
            let key = key_of(it);
            let ghost kk = item_key(items@[i as int]);
            match find_label(&entries, &key) {
                Some(j) => {
                    let c = entries[j].count;
                    let e = Entry { label: key, count: c + 1 };
                    proof {
                        lemma_lookup_at(pre, j as int, kk);
                        lemma_entry_update_keeps_distinct(pre, j as int, e);
                        lemma_sum_update(pre, j as int, e);
                        assert forall|k: Seq<char>| #[trigger] lookup(pre.update(j as int, e), k)
                            == count_key(items@.take(i as int + 1), include_unlabeled, k) by {
                            lemma_lookup_update(pre, j as int, e, k);
                        }
                    }
                    entries[j] = e;
                },
                None => {
                    let e = Entry { label: key, count: 1 };
                    proof {
                        lemma_lookup_absent(pre, kk);
                        lemma_entry_push_fresh_keeps_distinct(pre, e);
                        assert(pre.push(e).drop_last() =~= pre);
                        assert(pre.push(e).last() == e);
                        assert forall|k: Seq<char>| #[trigger] lookup(pre.push(e), k) == count_key(
                            items@.take(i as int + 1),
                            include_unlabeled,
                            k,
                        ) by {
                            lemma_lookup_push(pre, e, k);
                        }
                    }
                    entries.push(e);
                },
            }
        }
        i += 1;
    }
    proof {
        assert(items@.take(i as int) =~= items@);
        if include_unlabeled {
            lemma_count_tallied_all(items@);
        }
    }
    CategoryTally { entries }
}

/// The count the tally records for a label, zero where the label is
/// absent.
pub fn count_of(t: &CategoryTally, k: &String) -> (c: usize)
    ensures
        c as int == lookup(t.entries@, k@),
{
    proof {
        assert(t.entries@.skip(0) =~= t.entries@);
    }
    let mut i: usize = 0;
    while i < t.entries.len()
        invariant
            i <= t.entries@.len(),
            lookup(t.entries@, k@) == lookup(t.entries@.skip(i as int), k@),
        decreases t.entries@.len() - i,
    {
        proof {
            assert(t.entries@.skip(i as int)[0] == t.entries@[i as int]);
            assert(t.entries@.skip(i as int).drop_first() =~= t.entries@.skip(i as int + 1));
        }
        if t.entries[i].label == *k {
            return t.entries[i].count;
        }
        i += 1;
    }
    proof {
        assert(t.entries@.skip(i as int) =~= Seq::<Entry>::empty());
    }
    0
}

/// Counts the items carrying the boolean flag and those not carrying it;
/// the two counts always sum to the length of the collection.
pub fn tally_by_flag(items: &Vec<Item>) -> (t: FlagTally)
    ensures
        t.flagged == count_flagged(items@),
        t.flagged + t.unflagged == items@.len(),
{
    let mut flagged: usize = 0;
    let mut unflagged: usize = 0;
    let mut i: usize = 0;
    while i < items.len()
        invariant
            i <= items@.len(),
            flagged == count_flagged(items@.take(i as int)),
            flagged + unflagged == i,
        decreases items@.len() - i,
    {
        proof {
            assert(items@.take(i as int + 1).drop_last() =~= items@.take(i as int));
            assert(items@.take(i as int + 1).last() == items@[i as int]);
        }
        if items[i].flag {
            flagged = flagged + 1;
        } else {
            unflagged = unflagged + 1;
        }
        i += 1;
    }
    proof {
        assert(items@.take(i as int) =~= items@);
    }
    FlagTally { flagged, unflagged }
}

impl FlagTally {
    /// The number of items the tally was built from.
    pub fn total(&self) -> (n: usize)
        requires
            self.flagged + self.unflagged <= usize::MAX,
        ensures
            n == self.flagged + self.unflagged,
    {
        self.flagged + self.unflagged
    }
}

/// One label with its share of a tally's total, in hundredths of a
/// percent.
pub struct Share {
    pub label: String,
    pub hundredths: u64,
}

/// The share of `count` in `total` as a percentage with two decimal
/// places, rounded down and scaled by one hundred: 100 × count / total
/// hundredths of a percent.
pub fn share_of(count: usize, total: usize) -> (r: u64)
    requires
        0 < total,
        count <= total,
    ensures
        r == count * 10000 / (total as int),
{
    let q = (count as u128) * 10000 / (total as u128);
    proof {
        lemma_mul_inequality(count as int, total as int, 10000);
        lemma_div_is_ordered((count as int) * 10000, (total as int) * 10000, total as int);
        lemma_div_multiples_vanish(10000, total as int);
    }
    q as u64
}

/// The share of every label of the tally, in tally order, each in
/// hundredths of a percent of the tally's total count. A tally with a
/// zero total has no shares; the caller must not ask for them.
pub fn percentages_of(t: &CategoryTally) -> (r: Vec<Share>)
    requires
        0 < sum_counts(t.entries@),
        sum_counts(t.entries@) <= usize::MAX,
    ensures
        r@.len() == t.entries@.len(),
        forall|i: int| 0 <= i < r@.len() ==> (#[trigger] r@[i]).label@ == t.entries@[i].label@
            && r@[i].hundredths == t.entries@[i].count * 10000 / sum_counts(t.entries@),
{
    let mut total: usize = 0;
    let mut i: usize = 0;
    while i < t.entries.len()
        invariant
            i <= t.entries@.len(),
            total == sum_counts(t.entries@.take(i as int)),
            sum_counts(t.entries@) <= usize::MAX,
        decreases t.entries@.len() - i,
    {
        proof {
            assert(t.entries@.take(i as int + 1).drop_last() =~= t.entries@.take(i as int));
            assert(t.entries@.take(i as int + 1).last() == t.entries@[i as int]);
            lemma_sum_take_le(t.entries@, i as int + 1);
        }
        total = total + t.entries[i].count;
        i += 1;
    }
    proof {
        assert(t.entries@.take(i as int) =~= t.entries@);
    }
    let mut r: Vec<Share> = Vec::new();
    let mut j: usize = 0;
    while j < t.entries.len()
        invariant
            j <= t.entries@.len(),
            total == sum_counts(t.entries@),
            0 < total,
            r@.len() == j,
            forall|a: int| 0 <= a < j ==> (#[trigger] r@[a]).label@ == t.entries@[a].label@
                && r@[a].hundredths == t.entries@[a].count * 10000 / sum_counts(t.entries@),
        decreases t.entries@.len() - j,
    {
        proof {
            lemma_count_le_sum(t.entries@, j as int);
        }
        let h = share_of(t.entries[j].count, total);
        let label = t.entries[j].label.clone();
        r.push(Share { label, hundredths: h });
        j += 1;
    }
    r
}

} // verus!
