//! The fingerprint extractor's counting core: a histogram of byte values, a
//! table of adjacent byte pairs, and the ranked table of the most frequent pairs.
use vstd::prelude::*;

verus! {

/// Most entries a fingerprint keeps in its table of transitions.
pub const MAX_TRANSITIONS: usize = 20;

/// Number of distinct ordered byte pairs.
pub const PAIR_CODES: usize = 65536;

/// How many times the byte `b` occurs in `s`.
pub open spec fn count_byte(s: Seq<u8>, b: u8) -> nat
    decreases s.len(),
{
    if s.len() == 0 {
        0
    } else {
        count_byte(s.drop_last(), b) + if s.last() == b {
            1nat
        } else {
            0nat
        }
    }
}

/// The code of the ordered pair `(a, b)`: `a` in the high byte, `b` in the low one.
pub open spec fn pair_code(a: u8, b: u8) -> nat {
    a as nat * 256 + b as nat
}

/// How many adjacent positions `(s[i], s[i + 1])` of `s` hold the pair with code `p`.
pub open spec fn count_pair(s: Seq<u8>, p: nat) -> nat
    decreases s.len(),
{
    if s.len() < 2 {
        0
    } else {
        count_pair(s.drop_last(), p) + if pair_code(s[s.len() - 2], s.last()) == p {
            1nat
        } else {
            0nat
        }
    }
}

/// A pair with count `ca` and code `pa` ranks before one with count `cb` and
/// code `pb`: a larger count first, the smaller code first among equal counts.
pub open spec fn ranks_before(ca: nat, pa: nat, cb: nat, pb: nat) -> bool {
    ca > cb || (ca == cb && pa < pb)
}

/// `top` lists, as (pair code, count), the pairs of `s` with the highest counts:
/// each with its true count, strictly in rank order, at most `MAX_TRANSITIONS` of
/// them, and every pair that occurs but is left out ranks after all of them.
pub open spec fn is_top_pairs(s: Seq<u8>, top: Seq<(usize, usize)>) -> bool {
    &&& top.len() <= MAX_TRANSITIONS
    &&& forall|k: int|
        0 <= k < top.len() ==> {
            &&& (#[trigger] top[k]).0 < PAIR_CODES
            &&& top[k].1 == count_pair(s, top[k].0 as nat)
            &&& top[k].1 > 0
        }
    &&& forall|k: int, l: int|
        0 <= k < l < top.len() ==> ranks_before(
            #[trigger] top[k].1 as nat,
            top[k].0 as nat,
            #[trigger] top[l].1 as nat,
            top[l].0 as nat,
        )
    &&& forall|p: nat|
        p < PAIR_CODES && #[trigger] count_pair(s, p) > 0 && (forall|k: int|
            0 <= k < top.len() ==> top[k].0 != p) ==> top.len() == MAX_TRANSITIONS
            && ranks_before(top.last().1 as nat, top.last().0 as nat, count_pair(s, p), p)
}

proof fn lemma_count_byte_bound(s: Seq<u8>, b: u8)
    ensures
        count_byte(s, b) <= s.len(),
    decreases s.len(),
{
    if s.len() > 0 {
        lemma_count_byte_bound(s.drop_last(), b);
    }
}

proof fn lemma_count_pair_bound(s: Seq<u8>, p: nat)
    ensures
        count_pair(s, p) <= s.len(),
    decreases s.len(),
{
    if s.len() >= 2 {
        lemma_count_pair_bound(s.drop_last(), p);
    }
}

/// The number of occurrences of each byte value in `data`, indexed by the value.
pub fn byte_histogram(data: &Vec<u8>) -> (r: Vec<usize>)
    ensures
        r@.len() == 256,
        forall|b: u8| #[trigger] r@[b as int] == count_byte(data@, b),
{
    let mut counts: Vec<usize> = vec![0usize; 256];
    let mut i: usize = 0;
    while i < data.len()
        invariant
            i <= data@.len(),
            counts@.len() == 256,
            forall|b: u8| #[trigger] counts@[b as int] == count_byte(data@.take(i as int), b),
        decreases data@.len() - i,
    {
        let v = data[i];
        let ghost prev = counts@;
        assert(data@.take(i + 1).drop_last() =~= data@.take(i as int));
        proof {
            lemma_count_byte_bound(data@.take(i as int), v);
        }
        counts.set(v as usize, counts[v as usize] + 1);
        assert forall|b: u8| #[trigger] counts@[b as int] == count_byte(data@.take(i + 1), b) by {
            if b != v {
                assert(counts@[b as int] == prev[b as int]);
            }
        }
        i = i + 1;
    }
    assert(data@.take(data@.len() as int) =~= data@);
    counts
}

/// The number of occurrences of each adjacent pair of `data`, indexed by pair code.
pub fn pair_histogram(data: &Vec<u8>) -> (r: Vec<usize>)
    ensures
        r@.len() == PAIR_CODES,
        forall|p: int| 0 <= p < PAIR_CODES ==> #[trigger] r@[p] == count_pair(data@, p as nat),
{
    let mut table: Vec<usize> = vec![0usize; PAIR_CODES];
    if data.len() < 2 {
        return table;
    }
    let mut i: usize = 1;
    while i < data.len()
        invariant
            1 <= i <= data@.len(),
            table@.len() == PAIR_CODES,
            forall|p: int|
                0 <= p < PAIR_CODES ==> #[trigger] table@[p] == count_pair(data@.take(i as int), p as nat),
        decreases data@.len() - i,
    {
        let a = data[i - 1];
        let b = data[i];
        let code: usize = a as usize * 256 + b as usize;
        let ghost prev = table@;
        let ghost t = data@.take(i + 1);
        assert(t.drop_last() =~= data@.take(i as int));
        assert(t[t.len() - 2] == a && t.last() == b);
        proof {
            lemma_count_pair_bound(data@.take(i as int), code as nat);
        }
        table.set(code, table[code] + 1);
        assert forall|p: int| 0 <= p < PAIR_CODES implies #[trigger] table@[p] == count_pair(t, p as nat) by {
            if p != code {
                assert(table@[p] == prev[p]);
            }
        }
        i = i + 1;
    }
    assert(data@.take(data@.len() as int) =~= data@);
    table
}

/// Ranks the nonzero entries of a pair table (index = pair code) and keeps the
/// first `MAX_TRANSITIONS` of them, as (pair code, count).
pub fn top_pairs(data: &Vec<u8>) -> (r: Vec<(usize, usize)>)
    ensures
        is_top_pairs(data@, r@),
{
    let table = pair_histogram(data);
    let mut top: Vec<(usize, usize)> = Vec::new();
    let mut done = false;
    while top.len() < MAX_TRANSITIONS && !done
        invariant
            table@.len() == PAIR_CODES,
            forall|p: int| 0 <= p < PAIR_CODES ==> #[trigger] table@[p] == count_pair(data@, p as nat),
            top@.len() <= MAX_TRANSITIONS,
            forall|k: int|
                0 <= k < top@.len() ==> {
                    &&& (#[trigger] top@[k]).0 < PAIR_CODES
                    &&& top@[k].1 == count_pair(data@, top@[k].0 as nat)
                    &&& top@[k].1 > 0
                },
            forall|k: int, l: int|
                0 <= k < l < top@.len() ==> ranks_before(
                    #[trigger] top@[k].1 as nat,
                    top@[k].0 as nat,
                    #[trigger] top@[l].1 as nat,
                    top@[l].0 as nat,
                ),
            forall|p: nat|
                p < PAIR_CODES && #[trigger] count_pair(data@, p) > 0 && (forall|k: int|
                    0 <= k < top@.len() ==> top@[k].0 != p) ==> (!done || top@.len() == MAX_TRANSITIONS)
                    && (top@.len() > 0 ==> ranks_before(
                    top@.last().1 as nat,
                    top@.last().0 as nat,
                    count_pair(data@, p),
                    p,
                )),
        decreases MAX_TRANSITIONS - top@.len() + if done { 0int } else { 1int },
    {
        let has_last = top.len() > 0;
        let (last_code, last_count) = if has_last {
            top[top.len() - 1]
        } else {
            (0, 0)
        };
        let mut best: Option<(usize, usize)> = None;
        let mut p: usize = 0;
        while p < PAIR_CODES
            invariant
                p <= PAIR_CODES,
                table@.len() == PAIR_CODES,
                has_last == (top@.len() > 0),
                has_last ==> (last_code, last_count) == top@.last(),
                match best {
                    Some(bc) => {
                        &&& bc.0 < p
                        &&& bc.1 == table@[bc.0 as int]
                        &&& bc.1 > 0
                        &&& (has_last ==> ranks_before(last_count as nat, last_code as nat, bc.1 as nat, bc.0 as nat))
                    },
                    None => true,
                },
                forall|q: int|
                    0 <= q < p && #[trigger] table@[q] > 0 && (has_last ==> ranks_before(
                        last_count as nat,
                        last_code as nat,
                        table@[q] as nat,
                        q as nat,
                    )) ==> match best {
                        Some(bc) => bc.0 == q || ranks_before(bc.1 as nat, bc.0 as nat, table@[q] as nat, q as nat),
                        None => false,
                    },
            decreases PAIR_CODES - p,
        {
            let c = table[p];
            if c > 0 && (!has_last || c < last_count || (c == last_count && p > last_code)) {
                let better = match best {
                    Some(bc) => c > bc.1,
                    None => true,
                };
                if better {
                    best = Some((p, c));
                }
            }
            p = p + 1;
        }
        match best {
            Some(bc) => {
                let ghost old_top = top@;
                top.push(bc);
                assert forall|p: nat|
                    p < PAIR_CODES && #[trigger] count_pair(data@, p) > 0 && (forall|k: int|
                        0 <= k < top@.len() ==> top@[k].0 != p) implies ranks_before(
                    top@.last().1 as nat,
                    top@.last().0 as nat,
                    count_pair(data@, p),
                    p,
                ) by {
                    assert(table@[p as int] == count_pair(data@, p));
                    assert(top@.last() == bc);
                    assert forall|k: int| 0 <= k < old_top.len() implies old_top[k].0 != p by {
                        assert(old_top[k] == top@[k]);
                    }
                    if old_top.len() > 0 {
                        assert(ranks_before(
                            last_count as nat,
                            last_code as nat,
                            count_pair(data@, p),
                            p,
                        ));
                    }
                    assert(table@[p as int] > 0);
                }
                assert forall|k: int, l: int|
                    0 <= k < l < top@.len() implies ranks_before(
                    #[trigger] top@[k].1 as nat,
                    top@[k].0 as nat,
                    #[trigger] top@[l].1 as nat,
                    top@[l].0 as nat,
                ) by {
                    if l == top@.len() - 1 && k < l - 1 {
                        assert(ranks_before(
                            old_top[k].1 as nat,
                            old_top[k].0 as nat,
                            old_top.last().1 as nat,
                            old_top.last().0 as nat,
                        ));
                    }
                }
            },
            None => {
                assert forall|p: nat|
                    p < PAIR_CODES && #[trigger] count_pair(data@, p) > 0 implies exists|k: int|
                        0 <= k < top@.len() && top@[k].0 == p by {
                    assert(table@[p as int] == count_pair(data@, p));
                    if forall|k: int| 0 <= k < top@.len() ==> top@[k].0 != p {
                        assert(table@[p as int] > 0);
                    }
                }
                done = true;
            },
        }
    }
    top
}

/// One entry of a fingerprint's table of transitions: the ordered byte pair
/// `(first, second)`, its key of four lower-case hex digits, and how many times
/// it occurs.
pub struct Transition {
    pub key: String,
    pub first: u8,
    pub second: u8,
    pub count: usize,
}

/// The counting part of a fingerprint: the buffer's length, the occurrences of
/// each byte value, and the ranked table of its most frequent transitions.
pub struct ByteProfile {
    pub length: usize,
    pub byte_counts: Vec<usize>,
    pub top_transitions: Vec<Transition>,
}

/// The lower-case hex digit of `d`.
pub open spec fn hex_digit(d: nat) -> char {
    seq!['0', '1', '2', '3', '4', '5', '6', '7', '8', '9', 'a', 'b', 'c', 'd', 'e', 'f'][d as int]
}

/// The key of the pair `(a, b)`: two zero-padded lower-case hex digits for each byte.
pub open spec fn pair_key_of(a: u8, b: u8) -> Seq<char> {
    seq![hex_digit(a as nat / 16), hex_digit(a as nat % 16), hex_digit(b as nat / 16), hex_digit(b as nat % 16)]
}

/// Relies on `format!` with `{:02x}`: each byte as two lower-case hex digits,
/// zero-padded.
#[verifier::external_body]
fn pair_key(a: u8, b: u8) -> (r: String)
    ensures
        r@ == pair_key_of(a, b),
{
    format!("{:02x}{:02x}", a, b)
}

/// The table of transitions as (pair code, count).
pub open spec fn transition_codes(t: Seq<Transition>) -> Seq<(usize, usize)> {
    t.map_values(|e: Transition| ((e.first as nat * 256 + e.second as nat) as usize, e.count))
}

/// `r` is the profile of `data`.
pub open spec fn is_profile_of(r: ByteProfile, data: Seq<u8>) -> bool {
    &&& r.length == data.len()
    &&& r.byte_counts@.len() == 256
    &&& forall|b: u8| #[trigger] r.byte_counts@[b as int] == count_byte(data, b)
    &&& is_top_pairs(data, transition_codes(r.top_transitions@))
    &&& forall|k: int|
        0 <= k < r.top_transitions@.len() ==> (#[trigger] r.top_transitions@[k]).key@ == pair_key_of(
            r.top_transitions@[k].first,
            r.top_transitions@[k].second,
        )
}

/// Counts the bytes and the transitions of `data` and ranks the transitions.
pub fn analyze_bytes(data: &Vec<u8>) -> (r: ByteProfile)
    ensures
        is_profile_of(r, data@),
        r.top_transitions@.len() <= MAX_TRANSITIONS,
{
    let byte_counts = byte_histogram(data);
    let top = top_pairs(data);
    let mut transitions: Vec<Transition> = Vec::new();
    let mut k: usize = 0;
    while k < top.len()
        invariant
            k <= top@.len(),
            is_top_pairs(data@, top@),
            transition_codes(transitions@) == top@.take(k as int),
            forall|j: int|
                0 <= j < transitions@.len() ==> (#[trigger] transitions@[j]).key@ == pair_key_of(
                    transitions@[j].first,
                    transitions@[j].second,
                ),
        decreases top@.len() - k,
    {
        let (code, count) = top[k];
        assert(code < PAIR_CODES);
        let first = (code / 256) as u8;
        let second = (code % 256) as u8;
        let key = pair_key(first, second);
        let ghost before = transitions@;
        transitions.push(Transition { key, first, second, count });
        assert(transition_codes(transitions@) =~= top@.take(k + 1)) by {
            assert(transition_codes(transitions@) =~= transition_codes(before).push(top@[k as int]));
        }
        k = k + 1;
    }
    assert(top@.take(top@.len() as int) =~= top@);
    ByteProfile { length: data.len(), byte_counts, top_transitions: transitions }
}

} // verus!
