//! Duplicate detection: pairing each record with the near neighbours the
//! index reported for it, and removing the newer record of each pair.
use vstd::prelude::*;
use crate::record::IntentRecord;
use crate::query::{last_with_id, find_last_id, lemma_last_id_upto};
use crate::store::reversed;

verus! {

/// A pair of records found to be near duplicates: their positions (the
/// smaller first), and where the pair was first seen: the record whose
/// neighbours were examined and the neighbour's place in that list.
#[derive(Debug, Clone, Copy, PartialEq, Eq)]
pub struct DupPair {
    pub first: usize,
    pub second: usize,
    pub record: usize,
    pub hit: usize,
}

/// Every neighbour id names a stored record.
pub open spec fn all_known(records: Seq<IntentRecord>, neighbours: Seq<Vec<String>>) -> bool {
    forall|r: int, h: int| 0 <= r < neighbours.len() && 0 <= h < neighbours[r]@.len()
        ==> (#[trigger] last_with_id(records, neighbours[r]@[h]@)) is Some
}

/// `acc` already holds the pair `(a, b)`.
pub open spec fn has_pair(acc: Seq<DupPair>, a: int, b: int) -> bool {
    exists|k: int| 0 <= k < acc.len() && (#[trigger] acc[k]).first == a && acc[k].second == b
}

/// The position a map from ids to positions, filled in stored order, gives
/// for `id`.
pub open spec fn position_of(records: Seq<IntentRecord>, id: Seq<char>) -> int {
    match last_with_id(records, id) {
        Some(i) => i,
        None => 0,
    }
}

/// Examining neighbour `h` of record `r`: a neighbour other than the record
/// itself gives the pair of their positions, unless that pair was seen.
pub open spec fn dedup_step(records: Seq<IntentRecord>, nb: Seq<Vec<String>>, acc: Seq<DupPair>, r: int, h: int) -> Seq<DupPair> {
    let nid = nb[r]@[h]@;
    if nid == records[r].id@ {
        acc
    } else {
        let i = position_of(records, records[r].id@);
        let j = position_of(records, nid);
        let a = if i <= j { i } else { j };
        let b = if i <= j { j } else { i };
        if has_pair(acc, a, b) {
            acc
        } else {
            acc.push(DupPair { first: a as usize, second: b as usize, record: r as usize, hit: h as usize })
        }
    }
}

/// The pairs after the first `h` neighbours of record `r`.
pub open spec fn dedup_row(records: Seq<IntentRecord>, nb: Seq<Vec<String>>, acc: Seq<DupPair>, r: int, h: int) -> Seq<DupPair>
    decreases h,
{
    if h <= 0 {
        acc
    } else {
        dedup_step(records, nb, dedup_row(records, nb, acc, r, h - 1), r, h - 1)
    }
}

/// The pairs after the neighbours of the first `n` records.
pub open spec fn dedup_upto(records: Seq<IntentRecord>, nb: Seq<Vec<String>>, n: int) -> Seq<DupPair>
    decreases n,
{
    if n <= 0 {
        Seq::empty()
    } else {
        dedup_row(records, nb, dedup_upto(records, nb, n - 1), n - 1, nb[n - 1]@.len() as int)
    }
}

/// The pairs are distinct, each ordered, within the records.
pub open spec fn pairs_ok(pairs: Seq<DupPair>, n: int) -> bool {
    &&& forall|k: int| 0 <= k < pairs.len() ==> (#[trigger] pairs[k]).first < pairs[k].second < n
    &&& forall|k1: int, k2: int| 0 <= k1 < k2 < pairs.len()
        ==> !((#[trigger] pairs[k1]).first == (#[trigger] pairs[k2]).first && pairs[k1].second == pairs[k2].second)
}

/// Whether `acc` holds the pair `(a, b)`.
fn holds_pair(acc: &Vec<DupPair>, a: usize, b: usize) -> (r: bool)
    ensures
        r == has_pair(acc@, a as int, b as int),
{
    let mut k: usize = 0;
    while k < acc.len()
        invariant
            k <= acc@.len(),
            forall|j: int| 0 <= j < k ==> !((#[trigger] acc@[j]).first == a && acc@[j].second == b),
        decreases acc@.len() - k,
    {
        if acc[k].first == a && acc[k].second == b {
            return true;
        }
        k = k + 1;
    }
    false
}

/// Pairs up near-duplicate records. `neighbours[r]` lists the ids the index
/// found close enough to record `r`, in the order it reported them. Each
/// neighbour other than the record itself gives the pair of their positions
/// (a repeated id stands for its last record), kept the first time it is
/// seen.
pub fn duplicate_pairs(records: &Vec<IntentRecord>, neighbours: &Vec<Vec<String>>) -> (r: Vec<DupPair>)
    requires
        neighbours@.len() == records@.len(),
        all_known(records@, neighbours@),
    ensures
        r@ == dedup_upto(records@, neighbours@, records@.len() as int),
        pairs_ok(r@, records@.len() as int),
{
    let n = records.len();
    let mut acc: Vec<DupPair> = Vec::new();
    let mut ri: usize = 0;
    while ri < n
        invariant
            n == records@.len(),
            neighbours@.len() == n,
            all_known(records@, neighbours@),
            ri <= n,
            acc@ == dedup_upto(records@, neighbours@, ri as int),
            pairs_ok(acc@, n as int),
        decreases n - ri,
    {
        let ghost start = acc@;
        let own = find_last_id(records, &records[ri].id);
        proof {
            lemma_last_id_upto(records@, records@[ri as int].id@, n as int);
        }
        let i = match own {
            Some(i) => i,
            None => {
                // The record's own id is always found.
                proof {
                    assert(false);
                }
                return acc;
            },
        };
        let row = &neighbours[ri];
        let mut h: usize = 0;
        while h < row.len()
            invariant
                n == records@.len(),
                neighbours@.len() == n,
                all_known(records@, neighbours@),
                ri < n,
                *row == neighbours@[ri as int],
                i < n,
                i as int == position_of(records@, records@[ri as int].id@),
                records@[i as int].id@ == records@[ri as int].id@,
                h <= row@.len(),
                acc@ == dedup_row(records@, neighbours@, start, ri as int, h as int),
                pairs_ok(acc@, n as int),
            decreases row@.len() - h,
        {
            let ghost prev = acc@;
            if row[h] != records[ri].id {
                let found = find_last_id(records, &row[h]);
                proof {
                    assert(last_with_id(records@, neighbours@[ri as int]@[h as int]@) is Some);
                }
                let j = match found {
                    Some(j) => j,
                    None => {
                        // Every neighbour id names a record.
                        proof {
                            assert(false);
                        }
                        return acc;
                    },
                };
                let a = if i <= j { i } else { j };
                let b = if i <= j { j } else { i };
                if !holds_pair(&acc, a, b) {
                    proof {
                        lemma_last_id_upto(records@, row@[h as int]@, n as int);
                        assert(a != b) by {
                            if i == j {
                                assert(records@[i as int].id@ == records@[ri as int].id@);
                                assert(records@[j as int].id@ == row@[h as int]@);
                            }
                        }
                    }
                    acc.push(DupPair { first: a, second: b, record: ri, hit: h });
                }
                proof {
                    lemma_last_id_upto(records@, row@[h as int]@, n as int);
                    match last_with_id(records@, row@[h as int]@) {
                        Some(jj) => {
                            assert(records@.len() == records.len());
                            assert(jj == j as int);
                        },
                        None => {},
                    }
                    assert(position_of(records@, row@[h as int]@) == j as int);
                    assert(acc@ == dedup_step(records@, neighbours@, prev, ri as int, h as int));
                }
            } else {
                assert(acc@ == dedup_step(records@, neighbours@, prev, ri as int, h as int));
            }
            h = h + 1;
        }
        ri = ri + 1;
    }
    acc
}

/// The record of a pair that goes: the newer one (the first on a tie).
pub open spec fn victim(records: Seq<IntentRecord>, p: DupPair) -> int {
    if records[p.first as int].timestamp >= records[p.second as int].timestamp { p.first as int } else { p.second as int }
}

/// Record `k` goes with one of the pairs.
pub open spec fn is_victim(records: Seq<IntentRecord>, pairs: Seq<DupPair>, k: int) -> bool {
    exists|q: int| 0 <= q < pairs.len() && victim(records, #[trigger] pairs[q]) == k
}

/// The records, among the first `n`, that no pair removes.
pub open spec fn survivors_upto(records: Seq<IntentRecord>, pairs: Seq<DupPair>, n: int) -> Seq<IntentRecord>
    decreases n,
{
    if n <= 0 {
        Seq::empty()
    } else if is_victim(records, pairs, n - 1) {
        survivors_upto(records, pairs, n - 1)
    } else {
        survivors_upto(records, pairs, n - 1).push(records[n - 1])
    }
}

/// Removes the newer record of each pair (the first of the two when both
/// were added in the same second); returns the remaining records, in
/// order, and how many were removed.
pub fn remove_duplicates(records: Vec<IntentRecord>, pairs: &Vec<DupPair>) -> (r: (Vec<IntentRecord>, usize))
    requires
        forall|k: int| 0 <= k < pairs@.len() ==> (#[trigger] pairs@[k]).first < records@.len() && pairs@[k].second < records@.len(),
    ensures
        r.0@ == survivors_upto(records@, pairs@, records@.len() as int),
        r.1 == records@.len() - r.0@.len(),
{
    let n = records.len();
    let ghost all = records@;
    let mut marks: Vec<bool> = Vec::new();
    let mut k: usize = 0;
    while k < n
        invariant
            k <= n,
            marks@.len() == k,
            forall|j: int| 0 <= j < k ==> !(#[trigger] marks@[j]),
        decreases n - k,
    {
        marks.push(false);
        k = k + 1;
    }
    let mut q: usize = 0;
    while q < pairs.len()
        invariant
            n == all.len(),
            records@ == all,
            forall|k: int| 0 <= k < pairs@.len() ==> (#[trigger] pairs@[k]).first < n && pairs@[k].second < n,
            q <= pairs@.len(),
            marks@.len() == n,
            forall|j: int| 0 <= j < n ==> #[trigger] marks@[j] == is_victim(all, pairs@.take(q as int), j),
        decreases pairs@.len() - q,
    {
        let p = &pairs[q];
        let v = if records[p.first].timestamp >= records[p.second].timestamp { p.first } else { p.second };
        marks.set(v, true);
        proof {
            assert forall|j: int| 0 <= j < n implies #[trigger] marks@[j] == is_victim(all, pairs@.take(q + 1), j) by {
                let t = pairs@.take(q + 1);
                assert(t[q as int] == pairs@[q as int]);
                if is_victim(all, pairs@.take(q as int), j) {
                    let w = choose|w: int| 0 <= w < q && victim(all, #[trigger] pairs@.take(q as int)[w]) == j;
                    assert(t[w] == pairs@.take(q as int)[w]);
                }
                if is_victim(all, t, j) {
                    let w = choose|w: int| 0 <= w < q + 1 && victim(all, #[trigger] t[w]) == j;
                    if w < q {
                        assert(pairs@.take(q as int)[w] == t[w]);
                    }
                }
            }
        }
        q = q + 1;
    }
    assert(pairs@.take(pairs@.len() as int) =~= pairs@);
    let mut rest = reversed(records);
    let mut kept: Vec<IntentRecord> = Vec::new();
    let mut i: usize = 0;
    while rest.len() > 0
        invariant
            n == all.len(),
            i <= n,
            marks@.len() == n,
            forall|j: int| 0 <= j < n ==> #[trigger] marks@[j] == is_victim(all, pairs@, j),
            rest@.len() == n - i,
            forall|j: int| 0 <= j < rest@.len() ==> #[trigger] rest@[j] == all[n - 1 - j],
            kept@ == survivors_upto(all, pairs@, i as int),
            kept@.len() <= i,
        decreases rest@.len(),
    {
        let x = rest.pop().unwrap();
        assert(x == all[i as int]);
        if !marks[i] {
            kept.push(x);
        }
        i = i + 1;
    }
    let removed = n - kept.len();
    (kept, removed)
}

} // verus!
