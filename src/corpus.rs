//! The fingerprint store's ingestion rule: at most one record per
//! (subject, category) pair, the first one kept.
use vstd::prelude::*;

verus! {

/// One record of the corpus with the subject and the category it was filed under.
pub struct CorpusEntry<T> {
    pub subject_id: String,
    pub category: String,
    pub record: T,
}

/// An ordered collection of records, one per (subject, category) pair.
pub struct Corpus<T> {
    pub entries: Vec<CorpusEntry<T>>,
}

/// The (subject, category) pair of an entry.
pub open spec fn key_of<T>(e: CorpusEntry<T>) -> (Seq<char>, Seq<char>) {
    (e.subject_id@, e.category@)
}

/// The pairs of a sequence of entries, in order.
pub open spec fn keys_of<T>(s: Seq<CorpusEntry<T>>) -> Seq<(Seq<char>, Seq<char>)> {
    s.map_values(|e: CorpusEntry<T>| key_of(e))
}

/// How many times `k` occurs in `s`.
pub open spec fn occurrences(s: Seq<(Seq<char>, Seq<char>)>, k: (Seq<char>, Seq<char>)) -> nat
    decreases s.len(),
{
    if s.len() == 0 {
        0
    } else {
        occurrences(s.drop_last(), k) + if s.last() == k {
            1nat
        } else {
            0nat
        }
    }
}

/// No pair occurs twice.
pub open spec fn keys_unique(s: Seq<(Seq<char>, Seq<char>)>) -> bool {
    forall|i: int, j: int| 0 <= i < j < s.len() ==> s[i] != s[j]
}

/// The pairs after ingesting a record under `k`: unchanged if `k` is there, else `k` appended.
pub open spec fn ingest_keys(
    s: Seq<(Seq<char>, Seq<char>)>,
    k: (Seq<char>, Seq<char>),
) -> Seq<(Seq<char>, Seq<char>)> {
    if s.contains(k) {
        s
    } else {
        s.push(k)
    }
}

proof fn lemma_occurrences_absent(s: Seq<(Seq<char>, Seq<char>)>, k: (Seq<char>, Seq<char>))
    requires
        !s.contains(k),
    ensures
        occurrences(s, k) == 0,
    decreases s.len(),
{
    if s.len() > 0 {
        assert(!s.drop_last().contains(k)) by {
            if s.drop_last().contains(k) {
                let i = choose|i: int| 0 <= i < s.drop_last().len() && s.drop_last()[i] == k;
                assert(s[i] == k);
            }
        }
        lemma_occurrences_absent(s.drop_last(), k);
    }
}

proof fn lemma_occurrences_unique(s: Seq<(Seq<char>, Seq<char>)>, k: (Seq<char>, Seq<char>))
    requires
        keys_unique(s),
        s.contains(k),
    ensures
        occurrences(s, k) == 1,
    decreases s.len(),
{
    let t = s.drop_last();
    if s.last() == k {
        assert(!t.contains(k)) by {
            if t.contains(k) {
                let i = choose|i: int| 0 <= i < t.len() && t[i] == k;
                assert(s[i] == s[s.len() - 1]);
            }
        }
        lemma_occurrences_absent(t, k);
    } else {
        let i = choose|i: int| 0 <= i < s.len() && s[i] == k;
        assert(t[i] == k);
        lemma_occurrences_unique(t, k);
    }
}

/// Ingesting the same (subject, category) pair twice into a corpus whose pairs
/// are unique leaves exactly one entry for that pair, and the pairs unique.
pub proof fn lemma_ingest_twice(s: Seq<(Seq<char>, Seq<char>)>, k: (Seq<char>, Seq<char>))
    requires
        keys_unique(s),
    ensures
        ingest_keys(ingest_keys(s, k), k) == ingest_keys(s, k),
        keys_unique(ingest_keys(s, k)),
        occurrences(ingest_keys(ingest_keys(s, k), k), k) == 1,
{
    let t = ingest_keys(s, k);
    if !s.contains(k) {
        assert(t[s.len() as int] == k);
        assert(t.contains(k));
    }
    assert(keys_unique(t));
    lemma_occurrences_unique(t, k);
}

impl<T> Corpus<T> {
    pub open spec fn keys(&self) -> Seq<(Seq<char>, Seq<char>)> {
        keys_of(self.entries@)
    }

    /// No two entries share a (subject, category) pair.
    pub open spec fn wf(&self) -> bool {
        keys_unique(self.keys())
    }

    /// An empty corpus.
    pub fn new() -> (r: Corpus<T>)
        ensures
            r.entries@.len() == 0,
            r.wf(),
    {
        Corpus { entries: Vec::new() }
    }

    /// Number of entries.
    pub fn len(&self) -> (r: usize)
        ensures
            r == self.entries@.len(),
    {
        self.entries.len()
    }

    /// Whether an entry is filed under `subject_id` and `category`.
    pub fn contains(&self, subject_id: &String, category: &String) -> (r: bool)
        ensures
            r == self.keys().contains((subject_id@, category@)),
    {
        let mut i: usize = 0;
        while i < self.entries.len()
            invariant
                i <= self.entries@.len(),
                forall|j: int| 0 <= j < i ==> self.keys()[j] != (subject_id@, category@),
            decreases self.entries@.len() - i,
        {
            let e = &self.entries[i];
            if e.subject_id == *subject_id && e.category == *category {
                assert(self.keys()[i as int] == (subject_id@, category@));
                return true;
            }
            i = i + 1;
        }
        false
    }

    /// Appends `record` under `subject_id` and `category` unless an entry is
    /// already filed there, in which case the corpus is left as it was.
    /// Returns whether the record was added.
    pub fn ingest(&mut self, subject_id: String, category: String, record: T) -> (added: bool)
        requires
            old(self).wf(),
        ensures
            final(self).wf(),
            added == !old(self).keys().contains((subject_id@, category@)),
            final(self).keys() == ingest_keys(old(self).keys(), (subject_id@, category@)),
            added ==> final(self).entries@ == old(self).entries@.push(
                (CorpusEntry { subject_id, category, record }),
            ),
            !added ==> final(self).entries@ == old(self).entries@,
    {
        if self.contains(&subject_id, &category) {
            return false;
        }
        let ghost k = (subject_id@, category@);
        let ghost before = self.entries@;
        let e = CorpusEntry { subject_id, category, record };
        self.entries.push(e);
        assert(self.keys() =~= keys_of(before).push(k));
        true
    }
}

} // verus!
