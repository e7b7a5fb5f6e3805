//! The classifier's discrete part: how many transition keys a probe shares
//! with a sample, and the grouping of corpus entries by category.
use vstd::prelude::*;

verus! {

/// Why a probe could not be classified.
#[derive(PartialEq, Eq, Structural, Debug, Clone, Copy)]
pub enum ClassifyError {
    /// The corpus holds no entry.
    EmptyCorpus,
}

/// The character sequences of a list of strings.
pub open spec fn texts(v: Seq<String>) -> Seq<Seq<char>> {
    v.map_values(|s: String| s@)
}

/// How many of the keys in `probe` also occur in `sample`.
pub open spec fn shared_count(probe: Seq<Seq<char>>, sample: Seq<Seq<char>>) -> nat
    decreases probe.len(),
{
    if probe.len() == 0 {
        0
    } else {
        shared_count(probe.drop_last(), sample) + if sample.contains(probe.last()) {
            1nat
        } else {
            0nat
        }
    }
}

/// Whether `key` is one of `keys`.
fn contains_key(keys: &Vec<String>, key: &String) -> (r: bool)
    ensures
        r == texts(keys@).contains(key@),
{
    let mut i: usize = 0;
    while i < keys.len()
        invariant
            i <= keys@.len(),
            forall|j: int| 0 <= j < i ==> keys@[j]@ != key@,
        decreases keys@.len() - i,
    {
        if keys[i] == *key {
            assert(texts(keys@)[i as int] == key@);
            return true;
        }
        i = i + 1;
    }
    assert(!texts(keys@).contains(key@)) by {
        if texts(keys@).contains(key@) {
            let j = choose|j: int| 0 <= j < texts(keys@).len() && texts(keys@)[j] == key@;
            assert(keys@[j]@ == key@);
        }
    }
    false
}

/// The number of the probe's transition keys that the sample's table also holds.
pub fn shared_key_count(probe: &Vec<String>, sample: &Vec<String>) -> (r: usize)
    ensures
        r == shared_count(texts(probe@), texts(sample@)),
{
    let mut n: usize = 0;
    let mut i: usize = 0;
    while i < probe.len()
        invariant
            i <= probe@.len(),
            n == shared_count(texts(probe@.take(i as int)), texts(sample@)),
            n <= i,
        decreases probe@.len() - i,
    {
        assert(texts(probe@.take(i + 1)).drop_last() =~= texts(probe@.take(i as int)));
        if contains_key(sample, &probe[i]) {
            n = n + 1;
        }
        i = i + 1;
    }
    assert(probe@.take(probe@.len() as int) =~= probe@);
    n
}

/// The categories of a corpus, each once in order of first appearance, and for
/// each entry the position of its category in that list.
pub struct CategoryGroups {
    pub names: Vec<String>,
    pub member: Vec<usize>,
}

/// `g` groups the entries whose categories are `cats`: each entry points at a name
/// equal to its category, the names are distinct, and they come in order of
/// first appearance, so that every name is the category of some entry.
pub open spec fn is_grouping(g: CategoryGroups, cats: Seq<Seq<char>>) -> bool {
    &&& g.member@.len() == cats.len()
    &&& forall|i: int|
        0 <= i < cats.len() ==> (#[trigger] g.member@[i]) < g.names@.len() && g.names@[g.member@[i] as int]@
            == cats[i]
    &&& forall|a: int, b: int| 0 <= a < b < g.names@.len() ==> g.names@[a]@ != g.names@[b]@
    &&& in_first_order(g.member@, g.names@.len() as int)
}

/// Each of the names `0 .. n` is first pointed at by some entry, and each entry
/// points either at a name seen before or at the next new one.
pub open spec fn in_first_order(m: Seq<usize>, n: int) -> bool {
    &&& forall|a: int| 0 <= a < m.len() ==> (#[trigger] m[a]) < n
    &&& forall|k: int| 0 <= k < n ==> #[trigger] has_first_member(m, k)
}

/// Some entry is the first to point at name `k`.
pub open spec fn has_first_member(m: Seq<usize>, k: int) -> bool {
    exists|a: int| #[trigger] is_first_member(m, a, k)
}

proof fn lemma_push_member(m: Seq<usize>, g: int, n: int)
    requires
        in_first_order(m, n),
        0 <= g <= n,
        g <= usize::MAX,
    ensures
        in_first_order(m.push(g as usize), if g == n { n + 1 } else { n }),
{
    let t = m.push(g as usize);
    let n2 = if g == n { n + 1 } else { n };
    assert forall|k: int| 0 <= k < n2 implies #[trigger] has_first_member(t, k) by {
        if k < n {
            assert(has_first_member(m, k));
            let a = choose|a: int| #[trigger] is_first_member(m, a, k);
            assert forall|j: int| 0 <= j <= a implies t[j] == m[j] by {}
            assert(is_first_member(t, a, k));
        } else {
            assert forall|j: int| 0 <= j < m.len() implies t[j] < k by {
                assert(t[j] == m[j]);
            }
            assert(is_first_member(t, m.len() as int, k));
        }
    }
    assert forall|a: int| 0 <= a < t.len() implies (#[trigger] t[a]) < n2 by {
        if a < m.len() {
            assert(t[a] == m[a]);
        }
    }
}

/// Entry `a` is the first to point at name `k`: every earlier entry points at
/// an earlier name.
pub open spec fn is_first_member(m: Seq<usize>, a: int, k: int) -> bool {
    &&& 0 <= a < m.len()
    &&& m[a] == k
    &&& forall|j: int| 0 <= j < a ==> m[j] < k
}

/// Position of the first of `names` equal to `c`, or the length of `names` if none is.
fn find_name(names: &Vec<String>, c: &String) -> (r: usize)
    ensures
        r <= names@.len(),
        r < names@.len() ==> names@[r as int]@ == c@,
        forall|h: int| 0 <= h < r ==> names@[h]@ != c@,
{
    let mut g: usize = 0;
    while g < names.len()
        invariant
            g <= names@.len(),
            forall|h: int| 0 <= h < g ==> names@[h]@ != c@,
        decreases names@.len() - g,
    {
        if names[g] == *c {
            return g;
        }
        g = g + 1;
    }
    g
}

/// Groups the corpus entries by category, or reports an empty corpus.
pub fn group_categories(categories: &Vec<String>) -> (r: Result<CategoryGroups, ClassifyError>)
    ensures
        categories@.len() == 0 <==> r == Err::<CategoryGroups, ClassifyError>(ClassifyError::EmptyCorpus),
        r.is_ok() ==> is_grouping(r.unwrap(), texts(categories@)),
{
    if categories.len() == 0 {
        return Err(ClassifyError::EmptyCorpus);
    }
    let mut names: Vec<String> = Vec::new();
    let mut member: Vec<usize> = Vec::new();
    let mut i: usize = 0;
    while i < categories.len()
        invariant
            i <= categories@.len(),
            member@.len() == i,
            names@.len() <= i,
            forall|a: int|
                0 <= a < i ==> (#[trigger] member@[a]) < names@.len() && names@[member@[a] as int]@
                    == categories@[a]@,
            forall|a: int, b: int| 0 <= a < b < names@.len() ==> names@[a]@ != names@[b]@,
            in_first_order(member@, names@.len() as int),
        decreases categories@.len() - i,
    {
        let g = find_name(&names, &categories[i]);
        let ghost old_member = member@;
        let ghost old_len = names@.len();
        let ghost old_names = names@;
        if g == names.len() {
            names.push(categories[i].clone());
        }
        member.push(g);
        proof {
            lemma_push_member(old_member, g as int, old_len as int);
        }
        i = i + 1;
    }
    assert forall|a: int| 0 <= a < categories@.len() implies texts(categories@)[a] == categories@[a]@ by {}
    Ok(CategoryGroups { names, member })
}

} // verus!
