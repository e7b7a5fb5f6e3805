//! The spatial map metadata: the byte length of each encoded subject.
use vstd::prelude::*;

verus! {

/// Byte length of each encoded subject, by subject identifier.
pub struct MappingMetadata {
    pub files: Vec<(String, usize)>,
}

/// The mapping that a list of (subject, length) entries stands for: a later
/// entry for a subject overrides an earlier one.
pub open spec fn entries_map(s: Seq<(String, usize)>) -> Map<Seq<char>, usize>
    decreases s.len(),
{
    if s.len() == 0 {
        Map::empty()
    } else {
        entries_map(s.drop_last()).insert(s.last().0@, s.last().1)
    }
}

/// Overwriting the last entry for a subject overrides its length in the mapping.
proof fn lemma_update_last_match(s: Seq<(String, usize)>, j: int, e: (String, usize))
    requires
        0 <= j < s.len(),
        s[j].0@ == e.0@,
        forall|i: int| j < i < s.len() ==> s[i].0@ != e.0@,
    ensures
        entries_map(s.update(j, e)) == entries_map(s).insert(e.0@, e.1),
    decreases s.len(),
{
    let t = s.update(j, e);
    if j == s.len() - 1 {
        assert(t.drop_last() =~= s.drop_last());
        assert(entries_map(t) =~= entries_map(s).insert(e.0@, e.1));
    } else {
        assert(t.drop_last() =~= s.drop_last().update(j, e));
        lemma_update_last_match(s.drop_last(), j, e);
        assert(entries_map(t) =~= entries_map(s).insert(e.0@, e.1));
    }
}

impl MappingMetadata {
    pub open spec fn view(&self) -> Map<Seq<char>, usize> {
        entries_map(self.files@)
    }

    /// An empty mapping.
    pub fn new() -> (r: MappingMetadata)
        ensures
            r.view() == Map::<Seq<char>, usize>::empty(),
    {
        MappingMetadata { files: Vec::new() }
    }

    /// Position of the last entry for `subject`, if any.
    fn last_index_of(&self, subject: &String) -> (r: Option<usize>)
        ensures
            match r {
                Some(j) => {
                    &&& j < self.files@.len()
                    &&& self.files@[j as int].0@ == subject@
                    &&& forall|i: int| j < i < self.files@.len() ==> self.files@[i].0@ != subject@
                },
                None => forall|i: int| 0 <= i < self.files@.len() ==> self.files@[i].0@ != subject@,
            },
    {
        let mut k: usize = self.files.len();
        while k > 0
            invariant
                k <= self.files@.len(),
                forall|i: int| k <= i < self.files@.len() ==> self.files@[i].0@ != subject@,
            decreases k,
        {
            if self.files[k - 1].0 == *subject {
                return Some(k - 1);
            }
            k = k - 1;
        }
        None
    }

    /// The recorded length of `subject`, if it was ever encoded.
    pub fn get(&self, subject: &String) -> (r: Option<usize>)
        ensures
            r == (if self.view().contains_key(subject@) {
                Some(self.view()[subject@])
            } else {
                None
            }),
    {
        proof {
            lemma_lookup_contains(self.files@, subject@);
        }
        match self.last_index_of(subject) {
            Some(j) => {
                proof {
                    lemma_lookup_last(self.files@, subject@, j as int);
                }
                Some(self.files[j].1)
            },
            None => None,
        }
    }

    /// Records `len` as the length of `subject`, replacing an earlier record.
    pub fn insert(&mut self, subject: String, len: usize)
        ensures
            final(self).view() == old(self).view().insert(subject@, len),
    {
        match self.last_index_of(&subject) {
            Some(j) => {
                proof {
                    lemma_update_last_match(self.files@, j as int, (subject, len));
                }
                self.files.set(j, (subject, len));
            },
            None => {
                let ghost s = self.files@;
                self.files.push((subject, len));
                assert(self.files@.drop_last() =~= s);
            },
        }
    }
}

/// A subject is in the mapping exactly when some entry names it.
proof fn lemma_lookup_contains(s: Seq<(String, usize)>, k: Seq<char>)
    ensures
        entries_map(s).contains_key(k) <==> exists|i: int| 0 <= i < s.len() && s[i].0@ == k,
    decreases s.len(),
{
    if s.len() > 0 {
        let t = s.drop_last();
        lemma_lookup_contains(t, k);
        if exists|i: int| 0 <= i < s.len() && s[i].0@ == k {
            let i = choose|i: int| 0 <= i < s.len() && s[i].0@ == k;
            if i < s.len() - 1 {
                assert(t[i] == s[i]);
            }
        }
        if exists|i: int| 0 <= i < t.len() && t[i].0@ == k {
            let i = choose|i: int| 0 <= i < t.len() && t[i].0@ == k;
            assert(t[i] == s[i]);
        }
    }
}

/// The length recorded for a subject is that of its last entry.
proof fn lemma_lookup_last(s: Seq<(String, usize)>, k: Seq<char>, j: int)
    requires
        0 <= j < s.len(),
        s[j].0@ == k,
        forall|i: int| j < i < s.len() ==> s[i].0@ != k,
    ensures
        entries_map(s).contains_key(k),
        entries_map(s)[k] == s[j].1,
    decreases s.len(),
{
    if j < s.len() - 1 {
        let t = s.drop_last();
        assert(t[j] == s[j]);
        assert forall|i: int| j < i < t.len() implies t[i].0@ != k by {
            assert(t[i] == s[i]);
        }
        lemma_lookup_last(t, k, j);
    }
}

} // verus!
