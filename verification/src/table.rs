//! The key-to-statistics map: entries kept in strictly ascending
//! byte-lexicographic key order, so keys are unique and emission order is
//! deterministic. The view is a mathematical map from key bytes to `Stats`.

use crate::render::{format_line, spec_format_line};
use crate::stats::{stats_add, stats_merge, stats_one, stats_ok, DataPoint, Stats};
use vstd::prelude::*;
use vstd::slice::slice_to_vec;

verus! {

/// Strict byte-lexicographic order on keys.
pub open spec fn lex_lt(a: Seq<u8>, b: Seq<u8>) -> bool
    decreases a.len(),
{
    if b.len() == 0 {
        false
    } else if a.len() == 0 {
        true
    } else if a[0] < b[0] {
        true
    } else if a[0] > b[0] {
        false
    } else {
        lex_lt(a.skip(1), b.skip(1))
    }
}

/// The order is irreflexive.
pub proof fn lemma_lex_irrefl(a: Seq<u8>)
    ensures
        !lex_lt(a, a),
    decreases a.len(),
{
    if a.len() > 0 {
        lemma_lex_irrefl(a.skip(1));
    }
}

/// Distinct keys always compare one way or the other.
pub proof fn lemma_lex_total(a: Seq<u8>, b: Seq<u8>)
    requires
        a != b,
    ensures
        lex_lt(a, b) || lex_lt(b, a),
    decreases a.len(),
{
    if a.len() > 0 && b.len() > 0 && a[0] == b[0] {
        assert(a.skip(1) != b.skip(1)) by {
            if a.skip(1) == b.skip(1) {
                assert(a =~= seq![a[0]] + a.skip(1));
                assert(b =~= seq![b[0]] + b.skip(1));
            }
        }
        lemma_lex_total(a.skip(1), b.skip(1));
    } else if a.len() == 0 && b.len() == 0 {
        assert(a =~= b);
    }
}

/// The order is transitive.
pub proof fn lemma_lex_trans(a: Seq<u8>, b: Seq<u8>, c: Seq<u8>)
    requires
        lex_lt(a, b),
        lex_lt(b, c),
    ensures
        lex_lt(a, c),
    decreases a.len(),
{
    if a.len() > 0 && b.len() > 0 && c.len() > 0 && a[0] == b[0] && b[0] == c[0] {
        lemma_lex_trans(a.skip(1), b.skip(1), c.skip(1));
    }
}

/// Byte-slice equality.
pub fn bytes_eq(a: &[u8], b: &[u8]) -> (r: bool)
    ensures
        r == (a@ == b@),
{
    if a.len() != b.len() {
        return false;
    }
    let mut i: usize = 0;
    while i < a.len()
        invariant
            a@.len() == b@.len(),
            i <= a@.len(),
            forall|j: int| 0 <= j < i ==> a@[j] == b@[j],
        decreases a@.len() - i,
    {
        if a[i] != b[i] {
            return false;
        }
        i = i + 1;
    }
    proof {
        assert(a@ =~= b@);
    }
    true
}

/// Byte-slice comparison in the strict lexicographic order.
pub fn bytes_lt(a: &[u8], b: &[u8]) -> (r: bool)
    ensures
        r == lex_lt(a@, b@),
{
    let shorter: usize = if a.len() < b.len() {
        a.len()
    } else {
        b.len()
    };
    proof {
        assert(a@.skip(0) =~= a@);
        assert(b@.skip(0) =~= b@);
    }
    let mut i: usize = 0;
    while i < shorter
        invariant
            i <= shorter,
            shorter <= a@.len(),
            shorter <= b@.len(),
            shorter == if a@.len() < b@.len() {
                a@.len() as int
            } else {
                b@.len() as int
            },
            lex_lt(a@, b@) == lex_lt(a@.skip(i as int), b@.skip(i as int)),
        decreases shorter - i,
    {
        proof {
            assert(a@.skip(i as int)[0] == a@[i as int]);
            assert(b@.skip(i as int)[0] == b@[i as int]);
        }
        if a[i] < b[i] {
            return true;
        }
        if a[i] > b[i] {
            return false;
        }
        proof {
            assert(a@.skip(i as int).skip(1) =~= a@.skip(i as int + 1));
            assert(b@.skip(i as int).skip(1) =~= b@.skip(i as int + 1));
        }
        i = i + 1;
    }
    proof {
        assert(a@.skip(i as int).len() == a@.len() - i);
        assert(b@.skip(i as int).len() == b@.len() - i);
    }
    a.len() < b.len()
}

/// One key with its statistics.
pub struct Entry {
    pub key: Vec<u8>,
    pub stats: DataPoint,
}

/// The map denoted by a sequence of entries; a later entry for the same key
/// would win, though well-formed tables never hold one.
pub open spec fn map_of(s: Seq<Entry>) -> Map<Seq<u8>, Stats>
    decreases s.len(),
{
    if s.len() == 0 {
        Map::empty()
    } else {
        map_of(s.drop_last()).insert(s.last().key@, s.last().stats@)
    }
}

/// Entries in strictly ascending key order.
pub open spec fn sorted_entries(s: Seq<Entry>) -> bool {
    forall|i: int, j: int| 0 <= i < j < s.len() ==> lex_lt(s[i].key@, s[j].key@)
}

/// A strictly ascending key sequence.
pub open spec fn strictly_sorted(ks: Seq<Seq<u8>>) -> bool {
    forall|i: int, j: int| 0 <= i < j < ks.len() ==> lex_lt(ks[i], ks[j])
}

/// Law: a strictly sorted key sequence is determined by its set of keys, so
/// emission order never depends on worker count or chunk boundaries.
pub proof fn lemma_sorted_keys_unique(ks1: Seq<Seq<u8>>, ks2: Seq<Seq<u8>>)
    requires
        strictly_sorted(ks1),
        strictly_sorted(ks2),
        ks1.to_set() == ks2.to_set(),
    ensures
        ks1 == ks2,
    decreases ks1.len(),
{
    if ks1.len() == 0 {
        if ks2.len() > 0 {
            assert(ks2.contains(ks2[0]));
            assert(ks1.to_set().contains(ks2[0]));
        }
        assert(ks1 =~= ks2);
    } else {
        assert(ks1.contains(ks1[0]));
        assert(ks2.to_set().contains(ks1[0]));
        assert(ks2.len() > 0);
        assert(ks1[0] == ks2[0]) by {
            let j = choose|j: int| 0 <= j < ks2.len() && ks2[j] == ks1[0];
            assert(ks2.contains(ks2[0]));
            assert(ks1.to_set().contains(ks2[0]));
            let i = choose|i: int| 0 <= i < ks1.len() && ks1[i] == ks2[0];
            if j > 0 && i > 0 {
                assert(lex_lt(ks2[0], ks2[j]));
                assert(lex_lt(ks1[0], ks1[i]));
                lemma_lex_trans(ks1[0], ks1[i], ks1[0]);
                lemma_lex_irrefl(ks1[0]);
            }
        }
        assert(strictly_sorted(ks1.skip(1))) by {
            assert(forall|i: int, j: int|
                0 <= i < j < ks1.len() - 1 ==> lex_lt(
                    #[trigger] ks1.skip(1)[i],
                    #[trigger] ks1.skip(1)[j],
                ));
        }
        assert(strictly_sorted(ks2.skip(1))) by {
            assert(forall|i: int, j: int|
                0 <= i < j < ks2.len() - 1 ==> lex_lt(
                    #[trigger] ks2.skip(1)[i],
                    #[trigger] ks2.skip(1)[j],
                ));
        }
        assert(ks1.skip(1).to_set() =~= ks2.skip(1).to_set()) by {
            assert forall|x: Seq<u8>|
                ks1.skip(1).to_set().contains(x) implies ks2.skip(1).to_set().contains(x) by {
                let i = choose|i: int| 0 <= i < ks1.len() - 1 && ks1.skip(1)[i] == x;
                assert(ks1[i + 1] == x);
                assert(lex_lt(ks1[0], x));
                assert(ks1.contains(x));
                assert(ks2.to_set().contains(x));
                let j = choose|j: int| 0 <= j < ks2.len() && ks2[j] == x;
                assert(j > 0) by {
                    if j == 0 {
                        lemma_lex_irrefl(x);
                    }
                }
                assert(ks2.skip(1)[j - 1] == x);
                assert(ks2.skip(1).contains(x));
            }
            assert forall|x: Seq<u8>|
                ks2.skip(1).to_set().contains(x) implies ks1.skip(1).to_set().contains(x) by {
                let i = choose|i: int| 0 <= i < ks2.len() - 1 && ks2.skip(1)[i] == x;
                assert(ks2[i + 1] == x);
                assert(lex_lt(ks2[0], x));
                assert(ks2.contains(x));
                assert(ks1.to_set().contains(x));
                let j = choose|j: int| 0 <= j < ks1.len() && ks1[j] == x;
                assert(j > 0) by {
                    if j == 0 {
                        lemma_lex_irrefl(x);
                    }
                }
                assert(ks1.skip(1)[j - 1] == x);
                assert(ks1.skip(1).contains(x));
            }
        }
        lemma_sorted_keys_unique(ks1.skip(1), ks2.skip(1));
        assert(ks1 =~= ks2) by {
            assert forall|i: int| 0 <= i < ks1.len() implies ks1[i] == ks2[i] by {
                if i > 0 {
                    assert(ks1[i] == ks1.skip(1)[i - 1]);
                    assert(ks2[i] == ks2.skip(1)[i - 1]);
                }
            }
        }
    }
}

/// Sorted entries have pairwise distinct keys.
pub proof fn lemma_sorted_distinct(s: Seq<Entry>)
    requires
        sorted_entries(s),
    ensures
        forall|i: int, j: int|
            0 <= i < s.len() && 0 <= j < s.len() && i != j ==> s[i].key@ != s[j].key@,
{
    assert forall|i: int, j: int|
        0 <= i < s.len() && 0 <= j < s.len() && i != j implies s[i].key@ != s[j].key@ by {
        if s[i].key@ == s[j].key@ {
            lemma_lex_irrefl(s[i].key@);
        }
    }
}

/// A key is in the map exactly when some entry holds it.
pub proof fn lemma_map_of_contains(s: Seq<Entry>, k: Seq<u8>)
    ensures
        map_of(s).contains_key(k) <==> exists|i: int| 0 <= i < s.len() && s[i].key@ == k,
    decreases s.len(),
{
    if s.len() > 0 {
        lemma_map_of_contains(s.drop_last(), k);
        if s.last().key@ == k {
            assert(s[s.len() - 1].key@ == k);
        }
        if map_of(s).contains_key(k) && s.last().key@ != k {
            let i = choose|i: int| 0 <= i < s.drop_last().len() && s.drop_last()[i].key@ == k;
            assert(s[i].key@ == k);
        }
        if exists|i: int| 0 <= i < s.len() && s[i].key@ == k {
            let i = choose|i: int| 0 <= i < s.len() && s[i].key@ == k;
            if i < s.len() - 1 {
                assert(s.drop_last()[i].key@ == k);
            }
        }
    }
}

/// The map sends an entry's key to that entry's statistics, provided no
/// later entry repeats the key.
pub proof fn lemma_map_of_index(s: Seq<Entry>, i: int)
    requires
        0 <= i < s.len(),
        forall|j: int| i < j < s.len() ==> s[j].key@ != s[i].key@,
    ensures
        map_of(s).contains_key(s[i].key@),
        map_of(s)[s[i].key@] == s[i].stats@,
    decreases s.len(),
{
    if i < s.len() - 1 {
        assert(forall|j: int| i < j < s.drop_last().len() ==> s.drop_last()[j].key@ != s
            .drop_last()[i].key@);
        lemma_map_of_index(s.drop_last(), i);
        assert(s.last().key@ != s[i].key@);
    }
}

/// Inserting an entry with a fresh key inserts its statistics in the map.
pub proof fn lemma_map_of_insert(s: Seq<Entry>, p: int, e: Entry)
    requires
        0 <= p <= s.len(),
        forall|i: int| 0 <= i < s.len() ==> s[i].key@ != e.key@,
    ensures
        map_of(s.insert(p, e)) == map_of(s).insert(e.key@, e.stats@),
    decreases s.len(),
{
    if p == s.len() {
        assert(s.insert(p, e).drop_last() =~= s);
        assert(s.insert(p, e).last() == e);
    } else {
        let t = s.insert(p, e);
        assert(t.drop_last() =~= s.drop_last().insert(p, e));
        assert(t.last() == s.last());
        assert(forall|i: int| 0 <= i < s.drop_last().len() ==> s.drop_last()[i].key@ != e.key@);
        lemma_map_of_insert(s.drop_last(), p, e);
        assert(s[s.len() - 1].key@ != e.key@);
        assert(map_of(s.drop_last()).insert(e.key@, e.stats@).insert(
            s.last().key@,
            s.last().stats@,
        ) =~= map_of(s.drop_last()).insert(s.last().key@, s.last().stats@).insert(
            e.key@,
            e.stats@,
        ));
    }
}

/// Replacing the statistics of the entry that holds a key updates the map
/// at that key.
pub proof fn lemma_map_of_update(s: Seq<Entry>, i: int, e: Entry)
    requires
        0 <= i < s.len(),
        e.key@ == s[i].key@,
        forall|j: int| 0 <= j < s.len() && j != i ==> s[j].key@ != s[i].key@,
    ensures
        map_of(s.update(i, e)) == map_of(s).insert(e.key@, e.stats@),
    decreases s.len(),
{
    let t = s.update(i, e);
    if i == s.len() - 1 {
        assert(t.drop_last() =~= s.drop_last());
        assert(t.last() == e);
        assert(map_of(s.drop_last()).insert(s.last().key@, s.last().stats@).insert(
            e.key@,
            e.stats@,
        ) =~= map_of(s.drop_last()).insert(e.key@, e.stats@));
    } else {
        assert(t.drop_last() =~= s.drop_last().update(i, e));
        assert(t.last() == s.last());
        assert(forall|j: int|
            0 <= j < s.drop_last().len() && j != i ==> s.drop_last()[j].key@ != s.drop_last()[i]
                .key@);
        lemma_map_of_update(s.drop_last(), i, e);
        assert(s[s.len() - 1].key@ != s[i].key@);
        assert(map_of(s.drop_last()).insert(e.key@, e.stats@).insert(
            s.last().key@,
            s.last().stats@,
        ) =~= map_of(s.drop_last()).insert(s.last().key@, s.last().stats@).insert(
            e.key@,
            e.stats@,
        ));
    }
}

/// Folding one sample into a map of statistics.
pub open spec fn map_add_spec(m: Map<Seq<u8>, Stats>, k: Seq<u8>, v: int) -> Map<Seq<u8>, Stats> {
    if m.contains_key(k) {
        m.insert(k, stats_add(m[k], v))
    } else {
        m.insert(k, stats_one(v))
    }
}

/// Combining one key's incoming statistics into a map of statistics.
pub open spec fn map_merge_one(m: Map<Seq<u8>, Stats>, k: Seq<u8>, s: Stats) -> Map<
    Seq<u8>,
    Stats,
> {
    if m.contains_key(k) {
        m.insert(k, stats_merge(m[k], s))
    } else {
        m.insert(k, s)
    }
}

/// The merge of two aggregate maps: the union of their keys, with combined
/// statistics wherever a key is in both.
pub open spec fn merge_maps(a: Map<Seq<u8>, Stats>, b: Map<Seq<u8>, Stats>) -> Map<
    Seq<u8>,
    Stats,
> {
    Map::new(
        |k: Seq<u8>| a.contains_key(k) || b.contains_key(k),
        |k: Seq<u8>|
            if a.contains_key(k) && b.contains_key(k) {
                stats_merge(a[k], b[k])
            } else if a.contains_key(k) {
                a[k]
            } else {
                b[k]
            },
    )
}

/// Merging in a map extended by a fresh key is combining that key after the
/// merge.
pub proof fn lemma_merge_insert(m: Map<Seq<u8>, Stats>, r: Map<Seq<u8>, Stats>, k: Seq<u8>, s: Stats)
    requires
        !r.contains_key(k),
    ensures
        merge_maps(m, r.insert(k, s)) == map_merge_one(merge_maps(m, r), k, s),
{
    assert(merge_maps(m, r.insert(k, s)) =~= map_merge_one(merge_maps(m, r), k, s));
}

/// A key-to-statistics table with entries in strictly ascending key order.
pub struct StationMap {
    entries: Vec<Entry>,
}

impl View for StationMap {
    type V = Map<Seq<u8>, Stats>;

    closed spec fn view(&self) -> Map<Seq<u8>, Stats> {
        map_of(self.entries@)
    }
}

impl StationMap {
    /// The keys in storage order: strictly ascending when well formed.
    pub closed spec fn keys_in_order(&self) -> Seq<Seq<u8>> {
        Seq::new(self.entries@.len(), |i: int| self.entries@[i].key@)
    }

    /// Well-formedness: keys strictly ascending (hence unique), statistics
    /// drawn from at least one sample with a sum above the representable
    /// minimum.
    pub closed spec fn wf(&self) -> bool {
        &&& sorted_entries(self.entries@)
        &&& forall|i: int| 0 <= i < self.entries@.len() ==> stats_ok(
            #[trigger] self.entries@[i].stats@,
        )
    }

    /// What well-formedness gives a caller: the key sequence is strictly
    /// sorted, lists exactly the map's keys, and every entry is valid.
    pub proof fn lemma_wf_facts(&self)
        requires
            self.wf(),
        ensures
            strictly_sorted(self.keys_in_order()),
            self.keys_in_order().len() == self@.dom().len(),
            forall|i: int| 0 <= i < self.keys_in_order().len() ==> self@.contains_key(
                #[trigger] self.keys_in_order()[i],
            ),
            forall|k: Seq<u8>| self@.contains_key(k) ==> self.keys_in_order().contains(k),
            forall|k: Seq<u8>| #[trigger] self@.contains_key(k) ==> stats_ok(self@[k]),
            self@.dom() == self.keys_in_order().to_set(),
    {
        let s = self.entries@;
        let ks = self.keys_in_order();
        lemma_sorted_distinct(s);
        assert forall|i: int| 0 <= i < ks.len() implies self@.contains_key(ks[i]) by {
            lemma_map_of_index(s, i);
        }
        assert forall|k: Seq<u8>| #[trigger] self@.contains_key(k) implies ks.contains(k)
            && stats_ok(self@[k]) by {
            lemma_map_of_contains(s, k);
            let i = choose|i: int| 0 <= i < s.len() && s[i].key@ == k;
            assert(ks[i] == k);
            lemma_map_of_index(s, i);
        }
        assert(self@.dom() =~= ks.to_set()) by {
            assert forall|k: Seq<u8>| self@.dom().contains(k) implies ks.to_set().contains(k) by {
                lemma_map_of_contains(s, k);
                let i = choose|i: int| 0 <= i < s.len() && s[i].key@ == k;
                assert(ks[i] == k);
            }
            assert forall|k: Seq<u8>| ks.to_set().contains(k) implies self@.dom().contains(k) by {
                let i = choose|i: int| 0 <= i < ks.len() && ks[i] == k;
                assert(s[i].key@ == k);
                lemma_map_of_contains(s, k);
            }
        }
        assert(ks.no_duplicates()) by {
            assert forall|i: int, j: int|
                0 <= i < ks.len() && 0 <= j < ks.len() && i != j implies ks[i] != ks[j] by {
                assert(s[i].key@ != s[j].key@);
            }
        }
        ks.unique_seq_to_set();
    }

    /// The empty table.
    pub fn new() -> (r: Self)
        ensures
            r.wf(),
            r@ == Map::<Seq<u8>, Stats>::empty(),
            r.keys_in_order() == Seq::<Seq<u8>>::empty(),
    {
        let r = StationMap { entries: Vec::new() };
        proof {
            assert(r.keys_in_order() =~= Seq::<Seq<u8>>::empty());
        }
        r
    }

    /// Where a key is or would be: the index of its entry if present, else
    /// the insertion position that keeps the order.
    fn locate(&self, key: &[u8]) -> (r: (usize, bool))
        requires
            sorted_entries(self.entries@),
        ensures
            r.0 <= self.entries@.len(),
            forall|j: int| 0 <= j < r.0 ==> lex_lt(self.entries@[j].key@, key@),
            r.1 ==> r.0 < self.entries@.len() && self.entries@[r.0 as int].key@ == key@,
            !r.1 ==> (forall|j: int|
                r.0 <= j < self.entries@.len() ==> lex_lt(key@, self.entries@[j].key@)),
    {
        let n = self.entries.len();
        let mut idx: usize = 0;
        let mut found = false;
        while idx < n
            invariant_except_break
                n == self.entries@.len(),
                sorted_entries(self.entries@),
                idx <= n,
                !found,
                forall|j: int| 0 <= j < idx ==> lex_lt(self.entries@[j].key@, key@),
            ensures
                n == self.entries@.len(),
                sorted_entries(self.entries@),
                idx <= n,
                forall|j: int| 0 <= j < idx ==> lex_lt(self.entries@[j].key@, key@),
                found ==> idx < n && self.entries@[idx as int].key@ == key@,
                !found ==> idx == n || lex_lt(key@, self.entries@[idx as int].key@),
            decreases n - idx,
        {
            let c = &self.entries[idx];
            if bytes_eq(c.key.as_slice(), key) {
                found = true;
                break ;
            }
            if !bytes_lt(c.key.as_slice(), key) {
                proof {
                    lemma_lex_total(key@, self.entries@[idx as int].key@);
                }
                break ;
            }
            idx = idx + 1;
        }
        proof {
            if !found {
                assert forall|j: int|
                    idx <= j < self.entries@.len() implies lex_lt(key@, self.entries@[j].key@) by {
                    if j > idx {
                        lemma_lex_trans(
                            key@,
                            self.entries@[idx as int].key@,
                            self.entries@[j].key@,
                        );
                    }
                }
            }
        }
        (idx, found)
    }

    /// No entry holds the key when `locate` reports it absent.
    proof fn lemma_absent(&self, key: Seq<u8>, idx: int)
        requires
            sorted_entries(self.entries@),
            0 <= idx <= self.entries@.len(),
            forall|j: int| 0 <= j < idx ==> lex_lt(self.entries@[j].key@, key),
            forall|j: int| idx <= j < self.entries@.len() ==> lex_lt(key, self.entries@[j].key@),
        ensures
            !self@.contains_key(key),
            forall|j: int| 0 <= j < self.entries@.len() ==> self.entries@[j].key@ != key,
    {
        assert forall|j: int|
            0 <= j < self.entries@.len() implies self.entries@[j].key@ != key by {
            lemma_lex_irrefl(self.entries@[j].key@);
        }
        lemma_map_of_contains(self.entries@, key);
    }

    /// The order is kept when an absent key's entry goes in at `locate`'s
    /// position.
    proof fn lemma_insert_sorted(&self, e: Entry, idx: int)
        requires
            sorted_entries(self.entries@),
            0 <= idx <= self.entries@.len(),
            forall|j: int| 0 <= j < idx ==> lex_lt(self.entries@[j].key@, e.key@),
            forall|j: int| idx <= j < self.entries@.len() ==> lex_lt(e.key@, self.entries@[j].key@),
        ensures
            sorted_entries(self.entries@.insert(idx, e)),
    {
        let s = self.entries@;
        let t = s.insert(idx, e);
        assert forall|x: int, y: int| 0 <= x < y < t.len() implies lex_lt(t[x].key@, t[y].key@) by {
            if y < idx {
                assert(t[x] == s[x] && t[y] == s[y]);
            } else if x > idx {
                assert(t[x] == s[x - 1] && t[y] == s[y - 1]);
            } else if x < idx && y == idx {
                assert(t[x] == s[x] && t[y] == e);
            } else if x < idx && y > idx {
                assert(t[x] == s[x] && t[y] == s[y - 1]);
            } else if x == idx {
                assert(t[x] == e && t[y] == s[y - 1]);
            }
        }
    }

    /// Fold one sample into the table, as the aggregation pass does for each
    /// parsed line.
    pub fn add(&mut self, key: &[u8], val: i32)
        requires
            old(self).wf(),
            old(self)@.contains_key(key@) ==> old(self)@[key@].count < u32::MAX && i64::MIN < old(
                self,
            )@[key@].sum + val <= i64::MAX,
        ensures
            final(self).wf(),
            final(self)@ == map_add_spec(old(self)@, key@, val as int),
    {
        let (idx, found) = self.locate(key);
        proof {
            lemma_sorted_distinct(self.entries@);
        }
        if found {
            proof {
                lemma_map_of_index(self.entries@, idx as int);
            }
            let mut e = self.entries.remove(idx);
            e.stats.add_sample(val);
            let ghost s_old = old(self).entries@;
            self.entries.insert(idx, e);
            proof {
                assert(self.entries@ =~= s_old.update(idx as int, e));
                lemma_map_of_update(s_old, idx as int, e);
                assert(sorted_entries(self.entries@)) by {
                    assert forall|x: int, y: int|
                        0 <= x < y < self.entries@.len() implies lex_lt(
                        self.entries@[x].key@,
                        self.entries@[y].key@,
                    ) by {
                        assert(self.entries@[x].key@ == s_old[x].key@);
                        assert(self.entries@[y].key@ == s_old[y].key@);
                    }
                }
                assert forall|m: int|
                    0 <= m < self.entries@.len() implies stats_ok(
                    #[trigger] self.entries@[m].stats@,
                ) by {
                    if m != idx {
                        assert(self.entries@[m] == s_old[m]);
                    }
                }
            }
        } else {
            let e = Entry { key: slice_to_vec(key), stats: DataPoint::new(val) };
            proof {
                self.lemma_absent(key@, idx as int);
                self.lemma_insert_sorted(e, idx as int);
            }
            let ghost s_old = old(self).entries@;
            self.entries.insert(idx, e);
            proof {
                lemma_map_of_insert(s_old, idx as int, e);
                assert forall|m: int|
                    0 <= m < self.entries@.len() implies stats_ok(
                    #[trigger] self.entries@[m].stats@,
                ) by {
                    if m < idx {
                        assert(self.entries@[m] == s_old[m]);
                    } else if m > idx {
                        assert(self.entries@[m] == s_old[m - 1]);
                    }
                }
            }
        }
    }

    /// Combine one key's incoming statistics into the table, as the merge
    /// step does for each entry of a chunk's local map.
    pub fn merge_add(&mut self, key: &[u8], incoming: &DataPoint)
        requires
            old(self).wf(),
            stats_ok(incoming@),
            old(self)@.contains_key(key@) ==> old(self)@[key@].count + incoming@.count
                <= u32::MAX && i64::MIN < old(self)@[key@].sum + incoming@.sum <= i64::MAX,
        ensures
            final(self).wf(),
            final(self)@ == map_merge_one(old(self)@, key@, incoming@),
    {
        let (idx, found) = self.locate(key);
        proof {
            lemma_sorted_distinct(self.entries@);
        }
        if found {
            proof {
                lemma_map_of_index(self.entries@, idx as int);
            }
            let mut e = self.entries.remove(idx);
            e.stats.merge_with(incoming);
            let ghost s_old = old(self).entries@;
            self.entries.insert(idx, e);
            proof {
                assert(self.entries@ =~= s_old.update(idx as int, e));
                lemma_map_of_update(s_old, idx as int, e);
                assert(sorted_entries(self.entries@)) by {
                    assert forall|x: int, y: int|
                        0 <= x < y < self.entries@.len() implies lex_lt(
                        self.entries@[x].key@,
                        self.entries@[y].key@,
                    ) by {
                        assert(self.entries@[x].key@ == s_old[x].key@);
                        assert(self.entries@[y].key@ == s_old[y].key@);
                    }
                }
                assert forall|m: int|
                    0 <= m < self.entries@.len() implies stats_ok(
                    #[trigger] self.entries@[m].stats@,
                ) by {
                    if m != idx {
                        assert(self.entries@[m] == s_old[m]);
                    }
                }
            }
        } else {
            proof {
                self.lemma_absent(key@, idx as int);
            }
            let e = Entry { key: slice_to_vec(key), stats: *incoming };
            proof {
                self.lemma_insert_sorted(e, idx as int);
            }
            let ghost s_old = old(self).entries@;
            self.entries.insert(idx, e);
            proof {
                lemma_map_of_insert(s_old, idx as int, e);
                assert forall|m: int|
                    0 <= m < self.entries@.len() implies stats_ok(
                    #[trigger] self.entries@[m].stats@,
                ) by {
                    if m < idx {
                        assert(self.entries@[m] == s_old[m]);
                    } else if m > idx {
                        assert(self.entries@[m] == s_old[m - 1]);
                    }
                }
            }
        }
    }

    /// Combine another table into this one, as the merge step folds each
    /// chunk's local map into the global map: key union, combined
    /// statistics on common keys.
    pub fn merge_from(&mut self, other: &StationMap)
        requires
            old(self).wf(),
            other.wf(),
            forall|k: Seq<u8>|
                #[trigger] old(self)@.contains_key(k) && #[trigger] other@.contains_key(k)
                    ==> old(self)@[k].count + other@[k].count <= u32::MAX && i64::MIN < old(
                    self,
                )@[k].sum + other@[k].sum <= i64::MAX,
        ensures
            final(self).wf(),
            final(self)@ == merge_maps(old(self)@, other@),
    {
        let n = other.entries.len();
        let mut j: usize = 0;
        proof {
            assert(other.entries@.take(0) =~= Seq::<Entry>::empty());
            assert(self@ =~= merge_maps(old(self)@, map_of(other.entries@.take(0))));
        }
        while j < n
            invariant
                j <= n,
                n == other.entries@.len(),
                other.wf(),
                self.wf(),
                self@ == merge_maps(old(self)@, map_of(other.entries@.take(j as int))),
                forall|k: Seq<u8>|
                    #[trigger] old(self)@.contains_key(k) && #[trigger] other@.contains_key(k)
                        ==> old(self)@[k].count + other@[k].count <= u32::MAX && i64::MIN < old(
                        self,
                    )@[k].sum + other@[k].sum <= i64::MAX,
            decreases n - j,
        {
            let ghost partial = map_of(other.entries@.take(j as int));
            let ghost oe = other.entries@;
            let ghost kj = oe[j as int].key@;
            proof {
                lemma_sorted_distinct(oe);
                lemma_map_of_index(oe, j as int);
                assert(!partial.contains_key(kj)) by {
                    lemma_map_of_contains(oe.take(j as int), kj);
                    if partial.contains_key(kj) {
                        let i = choose|i: int|
                            0 <= i < j && oe.take(j as int)[i].key@ == kj;
                        assert(oe[i].key@ == kj);
                    }
                }
                if self@.contains_key(kj) {
                    assert(old(self)@.contains_key(kj));
                    assert(self@[kj] == old(self)@[kj]);
                    assert(other@.contains_key(kj) && other@[kj] == oe[j as int].stats@);
                }
                assert(stats_ok(oe[j as int].stats@));
            }
            let e = &other.entries[j];
            self.merge_add(e.key.as_slice(), &e.stats);
            proof {
                assert(oe.take(j + 1).drop_last() =~= oe.take(j as int));
                assert(oe.take(j + 1).last() == oe[j as int]);
                assert(map_of(oe.take(j + 1)) == partial.insert(kj, oe[j as int].stats@));
                lemma_merge_insert(old(self)@, partial, kj, oe[j as int].stats@);
            }
            j = j + 1;
        }
        proof {
            assert(other.entries@.take(n as int) =~= other.entries@);
        }
    }

    /// Look one key up.
    pub fn get(&self, key: &[u8]) -> (r: Option<&DataPoint>)
        requires
            self.wf(),
        ensures
            match r {
                Some(d) => self@.contains_key(key@) && d@ == self@[key@],
                None => !self@.contains_key(key@),
            },
    {
        let (idx, found) = self.locate(key);
        proof {
            lemma_sorted_distinct(self.entries@);
        }
        if found {
            proof {
                lemma_map_of_index(self.entries@, idx as int);
            }
            Some(&self.entries[idx].stats)
        } else {
            proof {
                self.lemma_absent(key@, idx as int);
            }
            None
        }
    }

    /// How many distinct keys the table holds.
    pub fn len(&self) -> (r: usize)
        requires
            self.wf(),
        ensures
            r == self.keys_in_order().len(),
            r == self@.dom().len(),
    {
        proof {
            self.lemma_wf_facts();
        }
        self.entries.len()
    }

    /// One formatted line per key, in ascending key order:
    /// `key=min/mean/max, ` with one fractional digit each.
    pub fn format_results(&self) -> (r: Vec<Vec<u8>>)
        requires
            self.wf(),
        ensures
            r@.len() == self.keys_in_order().len(),
            forall|i: int| 0 <= i < r@.len() ==> r@[i]@ == spec_format_line(
                self.keys_in_order()[i],
                self@[self.keys_in_order()[i]],
            ),
    {
        proof {
            self.lemma_wf_facts();
        }
        let mut r: Vec<Vec<u8>> = Vec::new();
        let mut i: usize = 0;
        while i < self.entries.len()
            invariant
                self.wf(),
                i <= self.entries@.len(),
                r@.len() == i,
                forall|j: int| 0 <= j < i ==> r@[j]@ == spec_format_line(
                    self.keys_in_order()[j],
                    self@[self.keys_in_order()[j]],
                ),
            decreases self.entries@.len() - i,
        {
            proof {
                lemma_sorted_distinct(self.entries@);
                lemma_map_of_index(self.entries@, i as int);
                assert(self.keys_in_order()[i as int] == self.entries@[i as int].key@);
            }
            let e = &self.entries[i];
            let line = format_line(e.key.as_slice(), &e.stats);
            r.push(line);
            i = i + 1;
        }
        r
    }
}

} // verus!
