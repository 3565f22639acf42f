//! The store: every tracked label with the time it was last recorded.

use vstd::prelude::*;

verus! {

/// The mathematical content of a store: its entries in the order in which
/// their labels first came in, each a label and a timestamp in milliseconds
/// since the Unix epoch.
pub type Entries = Seq<(Seq<char>, u128)>;

/// Whether some entry of `es` carries `label`.
pub open spec fn has_label(es: Entries, label: Seq<char>) -> bool {
    exists|i: int| 0 <= i < es.len() && (#[trigger] es[i]).0 == label
}

/// An index at which `es` carries `label`; arbitrary where it has none.
pub open spec fn slot_of(es: Entries, label: Seq<char>) -> int {
    choose|i: int| 0 <= i < es.len() && (#[trigger] es[i]).0 == label
}

/// Whether no label occurs twice in `es`.
pub open spec fn distinct_labels(es: Entries) -> bool {
    forall|i: int, j: int|
        0 <= i < j < es.len() ==> (#[trigger] es[i]).0 != (#[trigger] es[j]).0
}

/// The timestamp that `es` holds for `label`, if it holds one.
pub open spec fn lookup(es: Entries, label: Seq<char>) -> Option<u128> {
    if has_label(es, label) {
        Some(es[slot_of(es, label)].1)
    } else {
        None
    }
}

/// `es` after `label` was recorded at `timestamp`: the entry that carries
/// `label` gets the new timestamp and keeps its place; where there is none, a
/// new entry is put at the end.
pub open spec fn upsert(es: Entries, label: Seq<char>, timestamp: u128) -> Entries {
    if has_label(es, label) {
        es.update(slot_of(es, label), (label, timestamp))
    } else {
        es.push((label, timestamp))
    }
}

/// The mapping from label to timestamp that `es` stands for.
pub open spec fn entries_map(es: Entries) -> Map<Seq<char>, u128> {
    Map::new(|label: Seq<char>| has_label(es, label), |label: Seq<char>| es[slot_of(es, label)].1)
}

/// Where labels are distinct, the index at which a label stands is the only
/// one, so `slot_of` finds it.
pub proof fn lemma_slot_of_unique(es: Entries, i: int)
    requires
        distinct_labels(es),
        0 <= i < es.len(),
    ensures
        has_label(es, es[i].0),
        slot_of(es, es[i].0) == i,
{
    let j = slot_of(es, es[i].0);
    assert(0 <= j < es.len() && es[j].0 == es[i].0);
}

/// Recording a label keeps labels distinct.
pub proof fn lemma_upsert_keeps_distinct(es: Entries, label: Seq<char>, timestamp: u128)
    requires
        distinct_labels(es),
    ensures
        distinct_labels(upsert(es, label, timestamp)),
{
    let after = upsert(es, label, timestamp);
    if has_label(es, label) {
        let k = slot_of(es, label);
        assert forall|i: int, j: int| 0 <= i < j < after.len() implies (#[trigger] after[i]).0 != (
        #[trigger] after[j]).0 by {
            assert(after[i].0 == es[i].0);
            assert(after[j].0 == es[j].0);
        }
    } else {
        assert forall|i: int, j: int| 0 <= i < j < after.len() implies (#[trigger] after[i]).0 != (
        #[trigger] after[j]).0 by {
            if j < es.len() {
                assert(after[i].0 == es[i].0);
                assert(after[j].0 == es[j].0);
            } else {
                assert(after[i] == es[i]);
            }
        }
    }
}

/// Recording a label is an insertion into the mapping that the entries stand
/// for: the label then maps to the new timestamp, and every other label
/// keeps what it had.
pub proof fn lemma_upsert_is_insert(es: Entries, label: Seq<char>, timestamp: u128)
    requires
        distinct_labels(es),
    ensures
        entries_map(upsert(es, label, timestamp)) == entries_map(es).insert(label, timestamp),
{
    let after = upsert(es, label, timestamp);
    let left = entries_map(after);
    let right = entries_map(es).insert(label, timestamp);
    lemma_upsert_keeps_distinct(es, label, timestamp);
    let k = if has_label(es, label) {
        slot_of(es, label)
    } else {
        es.len() as int
    };
    assert(after[k] == (label, timestamp));
    lemma_slot_of_unique(after, k);
    assert forall|l: Seq<char>| left.dom().contains(l) <==> right.dom().contains(l) by {
        if has_label(after, l) {
            let i = slot_of(after, l);
            if i != k {
                assert(es[i].0 == l);
            }
        }
        if has_label(es, l) {
            let i = slot_of(es, l);
            assert(after[i].0 == l);
        }
    }
    assert forall|l: Seq<char>| #[trigger] left.dom().contains(l) implies left[l] == right[l] by {
        let i = slot_of(after, l);
        if l != label {
            assert(i != k);
            assert(es[i] == after[i]);
            lemma_slot_of_unique(es, i);
        }
    }
    assert(left =~= right);
}

/// Recording a label leaves the entries holding it, with the new timestamp.
pub proof fn lemma_lookup_after_upsert(es: Entries, label: Seq<char>, timestamp: u128)
    requires
        distinct_labels(es),
    ensures
        has_label(upsert(es, label, timestamp), label),
        lookup(upsert(es, label, timestamp), label) == Some(timestamp),
{
    let after = upsert(es, label, timestamp);
    lemma_upsert_keeps_distinct(es, label, timestamp);
    let k = if has_label(es, label) {
        slot_of(es, label)
    } else {
        es.len() as int
    };
    assert(after[k] == (label, timestamp));
    lemma_slot_of_unique(after, k);
}

/// Recording a label that the entries already hold changes its timestamp
/// and nothing else: there are as many entries as before, they carry the
/// same labels, each once, and every other label keeps its timestamp.
pub proof fn lemma_record_existing(es: Entries, label: Seq<char>, timestamp: u128)
    requires
        distinct_labels(es),
        has_label(es, label),
    ensures
        upsert(es, label, timestamp).len() == es.len(),
        distinct_labels(upsert(es, label, timestamp)),
        forall|i: int|
            0 <= i < es.len() ==> (#[trigger] upsert(es, label, timestamp)[i]).0 == es[i].0,
        entries_map(upsert(es, label, timestamp)).dom() == entries_map(es).dom(),
        entries_map(upsert(es, label, timestamp)).dom().len() == entries_map(es).dom().len(),
        lookup(upsert(es, label, timestamp), label) == Some(timestamp),
        forall|other: Seq<char>|
            other != label ==> lookup(#[trigger] upsert(es, label, timestamp), other) == lookup(
                es,
                other,
            ),
{
    let after = upsert(es, label, timestamp);
    lemma_upsert_keeps_distinct(es, label, timestamp);
    lemma_upsert_is_insert(es, label, timestamp);
    lemma_lookup_after_upsert(es, label, timestamp);
    assert(entries_map(es).dom().contains(label));
    assert(entries_map(es).insert(label, timestamp).dom() =~= entries_map(es).dom());
    assert forall|other: Seq<char>| other != label implies lookup(after, other) == lookup(
        es,
        other,
    ) by {
        assert(entries_map(after).dom().contains(other) == entries_map(es).dom().contains(other));
        if has_label(es, other) {
            assert(entries_map(after)[other] == entries_map(es)[other]);
        }
    }
}

/// Recording one label twice leaves one entry for it, with the second
/// timestamp: the second recording adds no entry and no label.
pub proof fn lemma_record_twice(es: Entries, label: Seq<char>, first: u128, second: u128)
    requires
        distinct_labels(es),
    ensures
        upsert(upsert(es, label, first), label, second).len() == upsert(es, label, first).len(),
        entries_map(upsert(upsert(es, label, first), label, second)).dom() == entries_map(
            upsert(es, label, first),
        ).dom(),
        lookup(upsert(upsert(es, label, first), label, second), label) == Some(second),
        distinct_labels(upsert(upsert(es, label, first), label, second)),
{
    lemma_upsert_keeps_distinct(es, label, first);
    lemma_lookup_after_upsert(es, label, first);
    lemma_record_existing(upsert(es, label, first), label, second);
}

/// One tracked action: a label and the time it was last recorded.
#[derive(Clone, Debug, PartialEq, Eq)]
pub struct Entry {
    /// The text that identifies the action.
    pub label: String,
    /// Milliseconds since the Unix epoch.
    pub timestamp: u128,
}

impl View for Entry {
    type V = (Seq<char>, u128);

    open spec fn view(&self) -> (Seq<char>, u128) {
        (self.label@, self.timestamp)
    }
}

/// Every tracked label with its timestamp, each label once.
#[derive(Debug)]
pub struct Store {
    entries: Vec<Entry>,
}

impl View for Store {
    type V = Map<Seq<char>, u128>;

    /// The store as a mapping from label to timestamp.
    open spec fn view(&self) -> Map<Seq<char>, u128> {
        entries_map(self.entries())
    }
}

impl Store {
    /// The entries of the store, in the order in which their labels first
    /// came in.
    pub closed spec fn entries(&self) -> Entries {
        Seq::new(self.entries@.len(), |i: int| self.entries@[i]@)
    }

    #[verifier::type_invariant]
    spec fn labels_once(&self) -> bool {
        distinct_labels(self.entries())
    }

    /// A store without entries.
    pub fn new() -> (store: Store)
        ensures
            store.entries() == Seq::<(Seq<char>, u128)>::empty(),
            store@ == Map::<Seq<char>, u128>::empty(),
    {
        let store = Store { entries: Vec::new() };
        assert(store.entries() =~= Seq::<(Seq<char>, u128)>::empty());
        assert(store@ =~= Map::<Seq<char>, u128>::empty());
        store
    }

    /// The number of labels in the store.
    pub fn len(&self) -> (n: usize)
        ensures
            n == self.entries().len(),
    {
        self.entries.len()
    }

    /// Whether the store holds no label.
    pub fn is_empty(&self) -> (empty: bool)
        ensures
            empty == (self.entries().len() == 0),
    {
        self.entries.len() == 0
    }

    /// The entries of the store, in the order in which their labels first
    /// came in. No two of them carry the same label.
    pub fn as_slice(&self) -> (entries: &[Entry])
        ensures
            entries@.len() == self.entries().len(),
            forall|i: int| 0 <= i < entries@.len() ==> (#[trigger] entries@[i])@ == self.entries()[i],
            distinct_labels(self.entries()),
    {
        proof {
            use_type_invariant(self);
        }
        self.entries.as_slice()
    }

    /// The index of the entry that carries `label`, if there is one.
    fn find(&self, label: &String) -> (found: Option<usize>)
        ensures
            match found {
                Some(i) => i < self.entries().len() && self.entries()[i as int].0 == label@
                    && has_label(self.entries(), label@) && slot_of(self.entries(), label@) == i,
                None => !has_label(self.entries(), label@),
            },
    {
        proof {
            use_type_invariant(self);
        }
        let n = self.entries.len();
        let mut i: usize = 0;
        while i < n
            invariant
                i <= n,
                n == self.entries@.len(),
                distinct_labels(self.entries()),
                forall|j: int| 0 <= j < i ==> (#[trigger] self.entries()[j]).0 != label@,
            decreases n - i,
        {
            if self.entries[i].label == *label {
                proof {
                    lemma_slot_of_unique(self.entries(), i as int);
                }
                return Some(i);
            }
            i = i + 1;
        }
        None
    }

    /// The timestamp recorded for `label`, if the store holds the label.
    pub fn get(&self, label: &str) -> (timestamp: Option<u128>)
        ensures
            timestamp == lookup(self.entries(), label@),
            timestamp == if self@.contains_key(label@) {
                Some(self@[label@])
            } else {
                None
            },
    {
        let owned = label.to_owned();
        match self.find(&owned) {
            Some(i) => Some(self.entries[i].timestamp),
            None => None,
        }
    }

    /// Records `label` at `timestamp`, whether or not the store already
    /// holds the label: an existing entry gets the new timestamp, a new label
    /// gets an entry of its own.
    pub fn record(&mut self, label: &str, timestamp: u128)
        ensures
            final(self).entries() == upsert(old(self).entries(), label@, timestamp),
            final(self)@ == old(self)@.insert(label@, timestamp),
            final(self).entries().len() == if old(self)@.contains_key(label@) {
                old(self).entries().len()
            } else {
                old(self).entries().len() + 1
            },
    {
        proof {
            use_type_invariant(&*self);
            lemma_upsert_keeps_distinct(self.entries(), label@, timestamp);
            lemma_upsert_is_insert(self.entries(), label@, timestamp);
        }
        let owned = label.to_owned();
        let found = self.find(&owned);
        let mut entries = Vec::new();
        std::mem::swap(&mut entries, &mut self.entries);
        let entry = Entry { label: owned, timestamp };
        match found {
            Some(i) => {
                entries.set(i, entry);
            },
            None => {
                entries.push(entry);
            },
        }
        let ghost target = upsert(old(self).entries(), label@, timestamp);
        assert(Seq::new(entries@.len(), |i: int| entries@[i]@) =~= target);
        self.entries = entries;
        assert(self.entries() =~= target);
    }
}

} // verus!
