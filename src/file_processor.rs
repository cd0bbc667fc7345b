use vstd::prelude::*;
use dashmap::DashMap;
use std::path::PathBuf;
use crate::item::{day_bucket, Item};
use crate::text::{
    lemma_text_less_irreflexive, lemma_text_less_total, lemma_text_less_transitive, text_less,
    text_lt,
};
use crate::usage::{lemma_merge_associative, lemma_merge_commutative, Usage};

verus! {

/// dashmap's `DashMap`, held opaque; what a table holds is `table_contents`.
#[verifier::external_type_specification]
#[verifier::external_body]
#[verifier::reject_recursive_types(K)]
#[verifier::reject_recursive_types(V)]
#[verifier::reject_recursive_types(S)]
pub struct ExDashMap<K, V, S>(DashMap<K, V, S>);

/// std's `PathBuf`, carried opaque as the directory that is scanned.
#[verifier::external_type_specification]
#[verifier::external_body]
pub struct ExPathBuf(PathBuf);

/// An aggregation key: a model name and a date bucket.
pub type KeyView = (Seq<char>, Seq<char>);

/// What a table of usage counters holds, by (model, date bucket).
pub uninterp spec fn table_contents(table: DashMap<(String, String), Usage>) -> Map<
    KeyView,
    Usage,
>;

/// The table after one merge-or-insert of `usage` under `key`.
pub open spec fn merge_entry(m: Map<KeyView, Usage>, key: KeyView, usage: Usage) -> Map<
    KeyView,
    Usage,
> {
    if m.contains_key(key) {
        m.insert(key, m[key].merged(usage))
    } else {
        m.insert(key, usage)
    }
}

pub open spec fn empty_table() -> Map<KeyView, Usage> {
    Map::empty()
}

/// Relies on `DashMap::new`: a table that holds nothing.
#[verifier::external_body]
fn new_table() -> (r: DashMap<(String, String), Usage>)
    ensures
        table_contents(r) == empty_table(),
{
    DashMap::new()
}

/// Relies on `DashMap::entry` with `Entry::and_modify` and `Entry::or_insert`:
/// the counter under the key is merged with `usage`, or `usage` is inserted
/// where the key is new; no other key changes.
#[verifier::external_body]
fn merge_into(table: &mut DashMap<(String, String), Usage>, key: (String, String), usage: Usage)
    ensures
        table_contents(*final(table)) == merge_entry(
            table_contents(*old(table)),
            (key.0@, key.1@),
            usage,
        ),
{
    table.entry(key).and_modify(|existing| *existing = existing.merge(&usage)).or_insert(usage);
}

pub open spec fn key_of(e: ((String, String), Usage)) -> KeyView {
    (e.0.0@, e.0.1@)
}

/// Every entry is in the table with its counter, and every key of the table
/// is the key of some entry.
pub open spec fn holds_exactly(s: Seq<((String, String), Usage)>, m: Map<KeyView, Usage>) -> bool {
    &&& forall|i: int|
        0 <= i < s.len() ==> m.contains_key(#[trigger] key_of(s[i])) && m[key_of(s[i])]
            == s[i].1
    &&& forall|k: KeyView| m.contains_key(k) ==> exists|i: int| 0 <= i < s.len() && #[trigger] key_of(s[i]) == k
}

pub open spec fn keys_distinct(s: Seq<((String, String), Usage)>) -> bool {
    forall|i: int, j: int| 0 <= i < j < s.len() ==> key_of(#[trigger] s[i]) != key_of(#[trigger] s[j])
}

/// Relies on `DashMap::iter`: each entry of the table once, in an order that
/// the map does not fix.
#[verifier::external_body]
fn table_entries(table: &DashMap<(String, String), Usage>) -> (r: Vec<((String, String), Usage)>)
    ensures
        holds_exactly(r@, table_contents(*table)),
        keys_distinct(r@),
{
    table.iter().map(|entry| (entry.key().clone(), *entry.value())).collect()
}

/// The order of the output: by model, then by date bucket.
pub open spec fn key_less(a: KeyView, b: KeyView) -> bool {
    text_less(a.0, b.0) || (a.0 == b.0 && text_less(a.1, b.1))
}

proof fn lemma_key_less_irreflexive(a: KeyView)
    ensures
        !key_less(a, a),
{
    lemma_text_less_irreflexive(a.0);
    lemma_text_less_irreflexive(a.1);
}

proof fn lemma_key_less_transitive(a: KeyView, b: KeyView, c: KeyView)
    requires
        key_less(a, b),
        key_less(b, c),
    ensures
        key_less(a, c),
{
    if text_less(a.0, b.0) && text_less(b.0, c.0) {
        lemma_text_less_transitive(a.0, b.0, c.0);
    } else if a.0 == b.0 && b.0 == c.0 {
        lemma_text_less_transitive(a.1, b.1, c.1);
    }
}

proof fn lemma_key_less_total(a: KeyView, b: KeyView)
    ensures
        a == b || key_less(a, b) || key_less(b, a),
{
    lemma_text_less_total(a.0, b.0);
    lemma_text_less_total(a.1, b.1);
}

/// Entries in strictly increasing order of their keys.
pub open spec fn sorted_by_key(s: Seq<((String, String), Usage)>) -> bool {
    forall|i: int, j: int| 0 <= i < j < s.len() ==> key_less(key_of(#[trigger] s[i]), key_of(#[trigger] s[j]))
}

fn key_lt(a: &(String, String), b: &(String, String)) -> (r: bool)
    ensures
        r == key_less((a.0@, a.1@), (b.0@, b.1@)),
{
    if text_lt(a.0.as_str(), b.0.as_str()) {
        true
    } else if text_lt(b.0.as_str(), a.0.as_str()) {
        false
    } else {
        proof {
            lemma_text_less_total(a.0@, b.0@);
        }
        text_lt(a.1.as_str(), b.1.as_str())
    }
}

proof fn lemma_insert_sorted(before: Seq<((String, String), Usage)>, p: int, x: ((String, String), Usage))
    requires
        0 <= p <= before.len(),
        sorted_by_key(before),
        forall|q: int| 0 <= q < p ==> key_less(key_of(#[trigger] before[q]), key_of(x)),
        forall|q: int| p <= q < before.len() ==> key_less(key_of(x), key_of(#[trigger] before[q])),
    ensures
        sorted_by_key(before.insert(p, x)),
{
    let after = before.insert(p, x);
    before.insert_ensures(p, x);
    assert forall|a: int, b: int| 0 <= a < b < after.len() implies key_less(
        key_of(#[trigger] after[a]),
        key_of(#[trigger] after[b]),
    ) by {
        if a > p {
            assert(after[(a - 1) + 1] == before[a - 1]);
            assert(after[(b - 1) + 1] == before[b - 1]);
        } else if a == p {
            assert(after[(b - 1) + 1] == before[b - 1]);
        } else if b == p {
        } else if b > p {
            assert(after[(b - 1) + 1] == before[b - 1]);
            lemma_key_less_transitive(key_of(before[a]), key_of(x), key_of(before[b - 1]));
        }
    }
}

proof fn lemma_insert_entries(
    before: Seq<((String, String), Usage)>,
    p: int,
    x: ((String, String), Usage),
    orig: Seq<((String, String), Usage)>,
    k: int,
    m: Map<KeyView, Usage>,
)
    requires
        0 <= p <= before.len(),
        0 <= k < orig.len(),
        x == orig[k],
        holds_exactly(orig, m),
        keys_distinct(orig),
        forall|q: int, j: int|
            0 <= q < before.len() && 0 <= j <= k ==> key_of(#[trigger] before[q]) != key_of(
                #[trigger] orig[j],
            ),
        forall|q: int|
            0 <= q < before.len() ==> m.contains_key(#[trigger] key_of(before[q])) && m[key_of(
                before[q],
            )] == before[q].1,
        forall|j: int|
            #![trigger orig[j]]
            k < j < orig.len() ==> exists|q: int|
                0 <= q < before.len() && key_of(#[trigger] before[q]) == key_of(orig[j]),
    ensures
        forall|q: int, j: int|
            0 <= q < before.insert(p, x).len() && 0 <= j < k ==> key_of(
                #[trigger] before.insert(p, x)[q],
            ) != key_of(#[trigger] orig[j]),
        forall|q: int|
            0 <= q < before.insert(p, x).len() ==> m.contains_key(
                #[trigger] key_of(before.insert(p, x)[q]),
            ) && m[key_of(before.insert(p, x)[q])] == before.insert(p, x)[q].1,
        forall|j: int|
            #![trigger orig[j]]
            k <= j < orig.len() ==> exists|q: int|
                0 <= q < before.insert(p, x).len() && key_of(#[trigger] before.insert(p, x)[q])
                    == key_of(orig[j]),
{
    let after = before.insert(p, x);
    before.insert_ensures(p, x);
    assert forall|q: int| 0 <= q < after.len() implies #[trigger] after[q] == (if q < p {
        before[q]
    } else if q == p {
        x
    } else {
        before[q - 1]
    }) by {
        if q > p {
            assert(after[(q - 1) + 1] == before[q - 1]);
        }
    }
    assert forall|q: int, j: int| 0 <= q < after.len() && 0 <= j < k implies key_of(
        #[trigger] after[q],
    ) != key_of(#[trigger] orig[j]) by {
        if q == p {
            assert(key_of(orig[j]) != key_of(orig[k]));
        } else if q < p {
            assert(key_of(before[q]) != key_of(orig[j]));
        } else {
            assert(key_of(before[q - 1]) != key_of(orig[j]));
        }
    }
    assert forall|j: int| #![trigger orig[j]] k <= j < orig.len() implies exists|q: int|
        0 <= q < after.len() && key_of(#[trigger] after[q]) == key_of(orig[j]) by {
        if j == k {
            assert(key_of(after[p]) == key_of(orig[j]));
        } else {
            let q = choose|q: int| 0 <= q < before.len() && key_of(before[q]) == key_of(orig[j]);
            if q < p {
                assert(key_of(after[q]) == key_of(orig[j]));
            } else {
                assert(key_of(after[q + 1]) == key_of(orig[j]));
            }
        }
    }
    assert forall|q: int| 0 <= q < after.len() implies m.contains_key(#[trigger] key_of(after[q]))
        && m[key_of(after[q])] == after[q].1 by {
        if q == p {
            assert(m.contains_key(key_of(orig[k])));
        } else if q < p {
            assert(after[q] == before[q]);
        } else {
            assert(after[q] == before[q - 1]);
        }
    }
}

/// The entries ordered by key; the entries themselves are kept.
fn sort_by_key(entries: Vec<((String, String), Usage)>, m: Ghost<Map<KeyView, Usage>>) -> (r: Vec<
    ((String, String), Usage),
>)
    requires
        holds_exactly(entries@, m@),
        keys_distinct(entries@),
    ensures
        holds_exactly(r@, m@),
        sorted_by_key(r@),
{
    let ghost orig = entries@;
    let mut rest = entries;
    let mut out: Vec<((String, String), Usage)> = Vec::new();
    while rest.len() > 0
        invariant
            rest@.len() <= orig.len(),
            rest@ == orig.subrange(0, rest@.len() as int),
            holds_exactly(orig, m@),
            keys_distinct(orig),
            sorted_by_key(out@),
            forall|q: int, j: int|
                0 <= q < out@.len() && 0 <= j < rest@.len() ==> key_of(#[trigger] out@[q]) != key_of(
                    #[trigger] orig[j],
                ),
            forall|q: int|
                0 <= q < out@.len() ==> m@.contains_key(#[trigger] key_of(out@[q])) && m@[key_of(
                    out@[q],
                )] == out@[q].1,
            forall|j: int|
                #![trigger orig[j]]
                rest@.len() <= j < orig.len() ==> exists|q: int|
                    0 <= q < out@.len() && key_of(#[trigger] out@[q]) == key_of(orig[j]),
        decreases rest.len(),
    {
        let ghost old_len = rest@.len() as int;
        let x = rest.pop().unwrap();
        let ghost k = rest@.len() as int;
        assert(x == orig[k]);
        let mut p: usize = 0;
        while p < out.len() && !key_lt(&x.0, &out[p].0)
            invariant
                p <= out.len(),
                k + 1 == old_len,
                forall|q: int| 0 <= q < p ==> key_less(key_of(#[trigger] out@[q]), key_of(x)),
                forall|q: int, j: int|
                    0 <= q < out@.len() && 0 <= j < old_len ==> key_of(#[trigger] out@[q]) != key_of(
                        #[trigger] orig[j],
                    ),
                x == orig[k],
                0 <= k < orig.len(),
            decreases out.len() - p,
        {
            proof {
                assert(key_of(out@[p as int]) != key_of(orig[k]));
                lemma_key_less_total(key_of(out@[p as int]), key_of(x));
            }
            p = p + 1;
        }
        let ghost before = out@;
        proof {
            assert forall|q: int| p <= q < before.len() implies key_less(
                key_of(x),
                key_of(#[trigger] before[q]),
            ) by {
                if q > p {
                    lemma_key_less_transitive(key_of(x), key_of(before[p as int]), key_of(before[q]));
                }
            }
            lemma_insert_sorted(before, p as int, x);
            lemma_insert_entries(before, p as int, x, orig, k, m@);
        }
        out.insert(p, x);
        proof {
            assert(rest@ =~= orig.subrange(0, rest@.len() as int));
        }
    }
    proof {
        assert forall|k: KeyView| m@.contains_key(k) implies exists|i: int|
            0 <= i < out@.len() && #[trigger] key_of(out@[i]) == k by {
            let j = choose|j: int| 0 <= j < orig.len() && #[trigger] key_of(orig[j]) == k;
            assert(0 <= j < orig.len());
        }
    }
    out
}

/// The counter a record adds: its usage, or the counter with every field
/// absent where it has none.
pub open spec fn usage_or_absent(usage: Option<Usage>) -> Usage {
    match usage {
        Some(u) => u,
        None => Usage::absent(),
    }
}

/// The aggregation table of one run: usage counters by (model, date bucket),
/// for the log files under one directory.
pub struct FileProcessor {
    directory: PathBuf,
    collected_items: DashMap<(String, String), Usage>,
}

impl FileProcessor {
    /// What the table holds, by (model, date bucket).
    pub closed spec fn contents(&self) -> Map<KeyView, Usage> {
        table_contents(self.collected_items)
    }

    /// The directory whose subdirectories are scanned.
    pub closed spec fn directory_spec(&self) -> PathBuf {
        self.directory
    }

    /// A processor for `directory`, with an empty table.
    pub fn new(directory: PathBuf) -> (r: FileProcessor)
        ensures
            r.contents() == empty_table(),
            r.directory_spec() == directory,
    {
        FileProcessor { directory, collected_items: new_table() }
    }

    pub fn directory(&self) -> (r: &PathBuf)
        ensures
            *r == self.directory_spec(),
    {
        &self.directory
    }

    /// Merges a record's usage into the table under its (model, date bucket)
    /// key; a record without usage creates the key with every field absent.
    pub fn collect_item(&mut self, item: Item)
        ensures
            final(self).contents() == merge_entry(
                old(self).contents(),
                (item.model@, day_bucket(item.timestamp@)),
                usage_or_absent(item.usage),
            ),
            final(self).directory_spec() == old(self).directory_spec(),
    {
        let bucket = item.get_timestamp_key();
        let usage = match item.usage {
            Some(u) => u,
            None => Usage::default(),
        };
        merge_into(&mut self.collected_items, (item.model, bucket), usage);
    }

    /// The table's entries, ordered by model, then date bucket.
    pub fn get_merged_results(&self) -> (r: Vec<((String, String), Usage)>)
        ensures
            sorted_by_key(r@),
            holds_exactly(r@, self.contents()),
    {
        let entries = table_entries(&self.collected_items);
        sort_by_key(entries, Ghost(self.contents()))
    }
}

pub open spec fn entry_view(e: ((String, String), Usage)) -> (KeyView, Usage) {
    (key_of(e), e.1)
}

proof fn lemma_same_key_at(
    s1: Seq<((String, String), Usage)>,
    s2: Seq<((String, String), Usage)>,
    m: Map<KeyView, Usage>,
    i: int,
)
    requires
        sorted_by_key(s1),
        sorted_by_key(s2),
        holds_exactly(s1, m),
        holds_exactly(s2, m),
        0 <= i < s1.len(),
        0 <= i < s2.len(),
        forall|j: int| 0 <= j < i ==> key_of(#[trigger] s1[j]) == key_of(s2[j]),
    ensures
        key_of(s1[i]) == key_of(s2[i]),
{
    let k1 = key_of(s1[i]);
    let k2 = key_of(s2[i]);
    lemma_key_less_total(k1, k2);
    if key_less(k1, k2) {
        let j = choose|j: int| 0 <= j < s2.len() && #[trigger] key_of(s2[j]) == k1;
        if j < i {
            assert(key_of(s1[j]) == k1);
            lemma_key_less_irreflexive(k1);
        } else if j > i {
            lemma_key_less_transitive(k1, k2, k1);
            lemma_key_less_irreflexive(k1);
        }
    } else if key_less(k2, k1) {
        let j = choose|j: int| 0 <= j < s1.len() && #[trigger] key_of(s1[j]) == k2;
        if j < i {
            assert(key_of(s2[j]) == k2);
            lemma_key_less_irreflexive(k2);
        } else if j > i {
            lemma_key_less_transitive(k2, k1, k2);
            lemma_key_less_irreflexive(k2);
        }
    }
}

proof fn lemma_same_keys_upto(
    s1: Seq<((String, String), Usage)>,
    s2: Seq<((String, String), Usage)>,
    m: Map<KeyView, Usage>,
    n: int,
)
    requires
        sorted_by_key(s1),
        sorted_by_key(s2),
        holds_exactly(s1, m),
        holds_exactly(s2, m),
        0 <= n <= s1.len(),
        n <= s2.len(),
    ensures
        forall|j: int| 0 <= j < n ==> key_of(#[trigger] s1[j]) == key_of(s2[j]),
    decreases n,
{
    if n > 0 {
        lemma_same_keys_upto(s1, s2, m, n - 1);
        lemma_same_key_at(s1, s2, m, n - 1);
    }
}

/// The ordered output is determined by the table alone: two sequences that
/// are both ordered by key and both hold exactly the table's entries are
/// the same, entry for entry. So two runs that build the same table give the
/// same output.
pub proof fn lemma_merged_results_unique(
    s1: Seq<((String, String), Usage)>,
    s2: Seq<((String, String), Usage)>,
    m: Map<KeyView, Usage>,
)
    requires
        sorted_by_key(s1),
        sorted_by_key(s2),
        holds_exactly(s1, m),
        holds_exactly(s2, m),
    ensures
        s1.map_values(|e: ((String, String), Usage)| entry_view(e)) == s2.map_values(
            |e: ((String, String), Usage)| entry_view(e),
        ),
{
    let n = if s1.len() <= s2.len() {
        s1.len() as int
    } else {
        s2.len() as int
    };
    lemma_same_keys_upto(s1, s2, m, n);
    if s1.len() > n {
        let k = key_of(s1[n]);
        let j = choose|j: int| 0 <= j < s2.len() && #[trigger] key_of(s2[j]) == k;
        assert(key_of(s1[j]) == k);
        lemma_key_less_irreflexive(k);
    }
    if s2.len() > n {
        let k = key_of(s2[n]);
        let j = choose|j: int| 0 <= j < s1.len() && #[trigger] key_of(s1[j]) == k;
        assert(key_of(s2[j]) == k);
        lemma_key_less_irreflexive(k);
    }
    assert forall|j: int| 0 <= j < s1.len() implies s1[j].1 == s2[j].1 by {
        assert(key_of(s1[j]) == key_of(s2[j]));
    }
    assert(s1.map_values(|e: ((String, String), Usage)| entry_view(e)) =~= s2.map_values(
        |e: ((String, String), Usage)| entry_view(e),
    ));
}

/// Merging two records into the table gives the same table in either order,
/// so concurrent merges need no order among themselves.
pub proof fn lemma_merge_entry_commutes(
    m: Map<KeyView, Usage>,
    k1: KeyView,
    u1: Usage,
    k2: KeyView,
    u2: Usage,
)
    ensures
        merge_entry(merge_entry(m, k1, u1), k2, u2) == merge_entry(merge_entry(m, k2, u2), k1, u1),
{
    if k1 == k2 {
        if m.contains_key(k1) {
            lemma_merge_associative(m[k1], u1, u2);
            lemma_merge_associative(m[k1], u2, u1);
        }
        lemma_merge_commutative(u1, u2);
    }
    assert(merge_entry(merge_entry(m, k1, u1), k2, u2) =~= merge_entry(merge_entry(m, k2, u2), k1, u1));
}

} // verus!
