use vstd::prelude::*;
use crate::tally::{CategoryTally, Entry, lookup, has_label, count_of};

verus! {

/// Some string of the sequence reads `k`.
pub open spec fn contains_str(s: Seq<String>, k: Seq<char>) -> bool {
    exists|i: int| 0 <= i < s.len() && s[i]@ == k
}

/// No two strings of the sequence read the same.
pub open spec fn strs_distinct(s: Seq<String>) -> bool {
    forall|i: int, j: int| 0 <= i < j < s.len() ==> s[i]@ != s[j]@
}

/// The tally projected onto a caller-supplied label ordering: one count
/// per label, in exactly the given order, zero for every label the tally
/// does not hold.
pub fn collect_data(keys: &Vec<String>, data: &CategoryTally) -> (r: Vec<usize>)
    ensures
        r@.len() == keys@.len(),
        forall|i: int| 0 <= i < keys@.len() ==> #[trigger] r@[i] as int == lookup(
            data.entries@,
            keys@[i]@,
        ),
{
    let mut r: Vec<usize> = Vec::new();
    let mut i: usize = 0;
    while i < keys.len()
        invariant
            i <= keys@.len(),
            r@.len() == i,
            forall|a: int| 0 <= a < i ==> #[trigger] r@[a] as int == lookup(
                data.entries@,
                keys@[a]@,
            ),
        decreases keys@.len() - i,
    {
        let c = count_of(data, &keys[i]);
        r.push(c);
        i += 1;
    }
    r
}

/// Whether one of the strings reads `k`.
fn contains_string(v: &Vec<String>, k: &String) -> (r: bool)
    ensures
        r == contains_str(v@, k@),
{
    let mut i: usize = 0;
    while i < v.len()
        invariant
            i <= v@.len(),
            forall|a: int| 0 <= a < i ==> v@[a]@ != k@,
        decreases v@.len() - i,
    {
        if v[i] == *k {
            return true;
        }
        i += 1;
    }
    false
}

/// Appending a string makes the sequence read `k` exactly when it already
/// did or the new string reads `k`.
proof fn lemma_contains_str_push(s: Seq<String>, x: String, k: Seq<char>)
    ensures
        contains_str(s.push(x), k) <==> (contains_str(s, k) || x@ == k),
{
    let t = s.push(x);
    if contains_str(t, k) {
        let i = choose|i: int| 0 <= i < t.len() && t[i]@ == k;
        if i < s.len() {
            assert(s[i] == t[i]);
        } else {
            assert(t[i] == x);
        }
    }
    if contains_str(s, k) {
        let i = choose|i: int| 0 <= i < s.len() && s[i]@ == k;
        assert(t[i] == s[i]);
    }
    if x@ == k {
        assert(t[s.len() as int] == x);
    }
}

/// One more entry of the prefix carries label `k` exactly when the
/// shorter prefix already did or the entry taken in carries it.
proof fn lemma_has_label_take_step(s: Seq<Entry>, n: int, k: Seq<char>)
    requires
        0 <= n < s.len(),
    ensures
        has_label(s.take(n + 1), k) <==> (has_label(s.take(n), k) || s[n].label@ == k),
{
    let t = s.take(n + 1);
    if has_label(t, k) {
        let i = choose|i: int| 0 <= i < t.len() && t[i].label@ == k;
        if i < n {
            assert(s.take(n)[i] == s[i]);
            assert(has_label(s.take(n), k));
        } else {
            assert(t[i] == s[n]);
        }
    }
    if has_label(s.take(n), k) {
        let i = choose|i: int| 0 <= i < s.take(n).len() && s.take(n)[i].label@ == k;
        assert(t[i] == s.take(n)[i]);
        assert(has_label(t, k));
    }
    if s[n].label@ == k {
        assert(t[n] == s[n]);
        assert(has_label(t, k));
    }
}

/// Appending a string that no other reads keeps the strings distinct.
proof fn lemma_strs_push_fresh_keeps_distinct(s: Seq<String>, x: String)
    requires
        strs_distinct(s),
        !contains_str(s, x@),
    ensures
        strs_distinct(s.push(x)),
{
    let t = s.push(x);
    assert forall|i: int, j: int| 0 <= i < j < t.len() implies t[i]@ != t[j]@ by {
        if j == s.len() {
            assert(t[i] == s[i]);
            if s[i]@ == x@ {
                assert(contains_str(s, x@));
            }
        } else {
            assert(t[i] == s[i] && t[j] == s[j]);
        }
    }
}

/// Appends to `acc` every label of the tally it does not read yet, in
/// tally order; what `acc` already held stays in place and first, and no
/// label ends up twice.
pub fn add_labels(acc: &mut Vec<String>, t: &CategoryTally)
    requires
        strs_distinct(old(acc)@),
    ensures
        strs_distinct(final(acc)@),
        old(acc)@.len() <= final(acc)@.len(),
        final(acc)@.take(old(acc)@.len() as int) == old(acc)@,
        forall|k: Seq<char>| contains_str(final(acc)@, k) <==> (contains_str(old(acc)@, k)
            || has_label(t.entries@, k)),
{
    let ghost orig = acc@;
    let mut e: usize = 0;
    proof {
        assert(acc@.take(orig.len() as int) =~= orig);
    }
    while e < t.entries.len()
        invariant
            e <= t.entries@.len(),
            strs_distinct(acc@),
            orig.len() <= acc@.len(),
            acc@.take(orig.len() as int) == orig,
            forall|k: Seq<char>| #[trigger] contains_str(acc@, k) <==> (contains_str(orig, k)
                || has_label(t.entries@.take(e as int), k)),
        decreases t.entries@.len() - e,
    {
        let ghost pre = acc@;
        let label = &t.entries[e].label;
        let fresh = !contains_string(acc, label);
        if fresh {
            let owned = label.clone();
            proof {
                lemma_strs_push_fresh_keeps_distinct(pre, owned);
                assert(pre.push(owned).take(orig.len() as int) =~= pre.take(orig.len() as int));
            }
            acc.push(owned);
        }
        proof {
            assert forall|k: Seq<char>| #[trigger] contains_str(acc@, k) <==> (contains_str(orig, k)
                || has_label(t.entries@.take(e as int + 1), k)) by {
                lemma_has_label_take_step(t.entries@, e as int, k);
                assert(contains_str(pre, k) == (contains_str(orig, k) || has_label(
                    t.entries@.take(e as int),
                    k,
                )));
                if fresh {
                    assert(acc@ == pre.push(acc@.last()));
                    assert(acc@.last()@ == t.entries@[e as int].label@);
                    lemma_contains_str_push(pre, acc@.last(), k);
                } else {
                    assert(acc@ == pre);
                    assert(contains_str(pre, t.entries@[e as int].label@));
                }
            }
        }
        e += 1;
    }
    proof {
        assert(t.entries@.take(e as int) =~= t.entries@);
    }
}

/// The texts the strings read, in order.
pub open spec fn views_of(s: Seq<String>) -> Seq<Seq<char>> {
    s.map_values(|x: String| x@)
}

/// The texts with every occurrence of `excluded` dropped; the order of
/// the rest is kept.
pub open spec fn drop_key(s: Seq<Seq<char>>, excluded: Seq<char>) -> Seq<Seq<char>> {
    s.filter(|k: Seq<char>| k != excluded)
}

/// Dropping a key distributes over appending a text: the text stays at
/// the end exactly when it is not the dropped key.
proof fn lemma_drop_key_push(s: Seq<Seq<char>>, x: Seq<char>, excluded: Seq<char>)
    ensures
        drop_key(s.push(x), excluded) == if x != excluded {
            drop_key(s, excluded).push(x)
        } else {
            drop_key(s, excluded)
        },
{
    reveal(Seq::filter);
    assert(s.push(x).drop_last() =~= s);
    assert(s.push(x).last() == x);
}

/// The labels with every occurrence of `excluded` dropped; the order of
/// the rest is kept.
pub fn labels_without(labels: &Vec<String>, excluded: &String) -> (r: Vec<String>)
    ensures
        views_of(r@) == drop_key(views_of(labels@), excluded@),
{
    let mut r: Vec<String> = Vec::new();
    let mut i: usize = 0;
    proof {
        reveal(Seq::filter);
        assert(views_of(r@) =~= Seq::<Seq<char>>::empty());
        assert(views_of(labels@.take(0)) =~= Seq::<Seq<char>>::empty());
        assert(drop_key(Seq::<Seq<char>>::empty(), excluded@) =~= Seq::<Seq<char>>::empty());
    }
    while i < labels.len()
        invariant
            i <= labels@.len(),
            views_of(r@) == drop_key(views_of(labels@.take(i as int)), excluded@),
        decreases labels@.len() - i,
    {
        let ghost prev = views_of(labels@.take(i as int));
        proof {
            assert(views_of(labels@.take(i as int + 1)) =~= prev.push(labels@[i as int]@));
            lemma_drop_key_push(prev, labels@[i as int]@, excluded@);
        }
        let keep = !(labels[i] == *excluded);
        if keep {
            let ghost before = r@;
            r.push(labels[i].clone());
            proof {
                assert(views_of(r@) =~= views_of(before).push(labels@[i as int]@));
            }
        }
        i += 1;
    }
    proof {
        assert(labels@.take(i as int) =~= labels@);
    }
    r
}

} // verus!
