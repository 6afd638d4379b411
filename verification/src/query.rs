//! Choosing records: tag and time filters, resolving search hits to
//! records, chronological order and duplicate detection.
use vstd::prelude::*;
use crate::record::{IntentRecord, tags_of};
use crate::text::texts_of;
use crate::timeline::{by_time, time_order, chronological};

verus! {

/// Every wanted tag is among `tags`.
pub open spec fn has_all_tags(tags: Seq<Seq<char>>, wanted: Seq<Seq<char>>) -> bool {
    forall|i: int| 0 <= i < wanted.len() ==> tags.contains(#[trigger] wanted[i])
}

/// `ts` lies before `before` (exclusive) and at or after `after`, each bound
/// applying when given.
pub open spec fn in_window(ts: u64, before: Option<u64>, after: Option<u64>) -> bool {
    &&& (before matches Some(b) ==> ts < b)
    &&& (after matches Some(a) ==> ts >= a)
}

/// Which records a listing keeps: those carrying all `tags`, added before
/// `before` and at or after `after`.
pub struct RecordFilter {
    pub tags: Vec<String>,
    pub before: Option<u64>,
    pub after: Option<u64>,
}

/// A filter as its wanted tags and its two bounds.
pub type FilterView = (Seq<Seq<char>>, Option<u64>, Option<u64>);

impl View for RecordFilter {
    type V = FilterView;

    open spec fn view(&self) -> FilterView {
        (texts_of(self.tags@), self.before, self.after)
    }
}

/// The filter keeps record `r`.
pub open spec fn admits(flt: FilterView, r: IntentRecord) -> bool {
    has_all_tags(tags_of(r), flt.0) && in_window(r.timestamp, flt.1, flt.2)
}

/// The first `limit` elements of `s`, or all of `s` when there is no limit.
pub open spec fn first_n<T>(s: Seq<T>, limit: Option<usize>) -> Seq<T> {
    match limit {
        Some(l) => if s.len() <= l { s } else { s.take(l as int) },
        None => s,
    }
}

/// How taking the first `limit` elements behaves when one element is appended.
pub proof fn lemma_first_n_push<T>(s: Seq<T>, x: T, limit: Option<usize>)
    ensures
        first_n(s.push(x), limit) == if limit matches Some(l) && s.len() >= l { first_n(s, limit) } else { first_n(s, limit).push(x) },
        first_n(s, limit).len() == match limit { Some(l) => if s.len() <= l { s.len() } else { l as nat }, None => s.len() },
{
    if let Some(l) = limit {
        if s.len() >= l {
            assert(s.push(x).take(l as int) =~= if s.len() <= l { s } else { s.take(l as int) });
        }
    }
}

/// Whether `tags` holds `t`.
fn has_tag(tags: &Vec<String>, t: &String) -> (r: bool)
    ensures
        r == texts_of(tags@).contains(t@),
{
    let mut i: usize = 0;
    while i < tags.len()
        invariant
            i <= tags@.len(),
            forall|j: int| 0 <= j < i ==> (#[trigger] tags@[j])@ != t@,
        decreases tags@.len() - i,
    {
        if tags[i] == *t {
            assert(texts_of(tags@)[i as int] == t@);
            return true;
        }
        i = i + 1;
    }
    proof {
        if texts_of(tags@).contains(t@) {
            let j = choose|j: int| 0 <= j < texts_of(tags@).len() && texts_of(tags@)[j] == t@;
            assert(tags@[j]@ == t@);
        }
    }
    false
}

/// Whether the record carries every tag of `filter`.
pub fn matches_tags(rec: &IntentRecord, filter: &Vec<String>) -> (r: bool)
    ensures
        r == has_all_tags(tags_of(*rec), texts_of(filter@)),
{
    let mut i: usize = 0;
    while i < filter.len()
        invariant
            i <= filter@.len(),
            forall|k: int| 0 <= k < i ==> tags_of(*rec).contains(#[trigger] texts_of(filter@)[k]),
        decreases filter@.len() - i,
    {
        if !has_tag(&rec.tags, &filter[i]) {
            assert(!tags_of(*rec).contains(texts_of(filter@)[i as int]));
            return false;
        }
        i = i + 1;
    }
    true
}

/// Whether the filter keeps the record.
pub fn admitted(flt: &RecordFilter, rec: &IntentRecord) -> (r: bool)
    ensures
        r == admits(flt@, *rec),
{
    if !matches_tags(rec, &flt.tags) {
        return false;
    }
    let early = match flt.before {
        Some(b) => rec.timestamp < b,
        None => true,
    };
    let late = match flt.after {
        Some(a) => rec.timestamp >= a,
        None => true,
    };
    early && late
}

/// Positions of the records among the first `n` that the filter keeps, in order.
pub open spec fn picks_upto(records: Seq<IntentRecord>, flt: FilterView, n: int) -> Seq<usize>
    decreases n,
{
    if n <= 0 {
        Seq::empty()
    } else if admits(flt, records[n - 1]) {
        picks_upto(records, flt, n - 1).push((n - 1) as usize)
    } else {
        picks_upto(records, flt, n - 1)
    }
}

/// Positions of the records the filter keeps, in order.
pub open spec fn picks(records: Seq<IntentRecord>, flt: FilterView) -> Seq<usize> {
    picks_upto(records, flt, records.len() as int)
}

/// Positions of the first `limit` records (all, without a limit) that the
/// filter keeps, in stored order.
pub fn pick_records(records: &Vec<IntentRecord>, flt: &RecordFilter, limit: Option<usize>) -> (r: Vec<usize>)
    ensures
        r@ == first_n(picks(records@, flt@), limit),
{
    let mut r: Vec<usize> = Vec::new();
    let mut i: usize = 0;
    while i < records.len()
        invariant
            i <= records@.len(),
            r@ == first_n(picks_upto(records@, flt@, i as int), limit),
        decreases records@.len() - i,
    {
        let ghost p = picks_upto(records@, flt@, i as int);
        proof {
            lemma_first_n_push(p, i, limit);
        }
        if admitted(flt, &records[i]) {
            let room = match limit {
                Some(l) => r.len() < l,
                None => true,
            };
            if room {
                r.push(i);
            }
        }
        i = i + 1;
    }
    r
}

/// The entries of `order` whose records the filter keeps, in the order of
/// `order`.
pub open spec fn kept_in(records: Seq<IntentRecord>, flt: FilterView, order: Seq<usize>) -> Seq<usize>
    decreases order.len(),
{
    if order.len() == 0 {
        Seq::empty()
    } else {
        let init = kept_in(records, flt, order.drop_last());
        if admits(flt, records[order.last() as int]) {
            init.push(order.last())
        } else {
            init
        }
    }
}

/// Positions of the records the filter keeps, newest first (by timestamp;
/// of records with one timestamp the later stored first), at most `limit`
/// of them.
pub fn newest_records(records: &Vec<IntentRecord>, flt: &RecordFilter, limit: usize) -> (r: Vec<usize>)
    ensures
        r@ == first_n(kept_in(records@, flt@, time_order(records@).reverse()), Some(limit)),
{
    let order = by_time(records);
    let n = order.len();
    let ghost rev = order@.reverse();
    let mut r: Vec<usize> = Vec::new();
    let mut j: usize = 0;
    while j < n
        invariant
            n == order@.len(),
            rev == order@.reverse(),
            chronological(records@, order@),
            j <= n,
            r@ == first_n(kept_in(records@, flt@, rev.take(j as int)), Some(limit)),
        decreases n - j,
    {
        let x = order[n - 1 - j];
        proof {
            let s = rev.take(j as int);
            assert(rev.take(j + 1).drop_last() =~= s);
            assert(rev.take(j + 1).last() == x);
            lemma_first_n_push(kept_in(records@, flt@, s), x, Some(limit));
        }
        if admitted(flt, &records[x]) {
            if r.len() < limit {
                r.push(x);
            }
        }
        j = j + 1;
    }
    assert(rev.take(n as int) =~= rev);
    r
}

/// The position of the last record in the first `n` with id `id`.
pub open spec fn last_id_upto(records: Seq<IntentRecord>, id: Seq<char>, n: int) -> Option<int>
    decreases n,
{
    if n <= 0 {
        None
    } else if records[n - 1].id@ == id {
        Some(n - 1)
    } else {
        last_id_upto(records, id, n - 1)
    }
}

/// The position of the last record with id `id`: looking an id up in a map
/// filled from the records in order finds that one.
pub open spec fn last_with_id(records: Seq<IntentRecord>, id: Seq<char>) -> Option<int> {
    last_id_upto(records, id, records.len() as int)
}

/// The last position with an id, when found, lies in range and holds that id; when
/// none is found, no record in range has that id.
pub proof fn lemma_last_id_upto(records: Seq<IntentRecord>, id: Seq<char>, n: int)
    requires
        0 <= n <= records.len(),
    ensures
        last_id_upto(records, id, n) matches Some(i) ==> 0 <= i < n && records[i].id@ == id,
        last_id_upto(records, id, n) is None ==> forall|j: int| 0 <= j < n ==> (#[trigger] records[j]).id@ != id,
    decreases n,
{
    if n > 0 {
        lemma_last_id_upto(records, id, n - 1);
    }
}

/// Finds the last record with id `id`.
pub fn find_last_id(records: &Vec<IntentRecord>, id: &String) -> (r: Option<usize>)
    ensures
        r == (match last_with_id(records@, id@) {
            Some(i) => Some(i as usize),
            None => None::<usize>,
        }),
        r matches Some(i) ==> i < records@.len() && records@[i as int].id@ == id@,
{
    proof {
        lemma_last_id_upto(records@, id@, records@.len() as int);
    }
    let mut i: usize = records.len();
    while i > 0
        invariant
            i <= records@.len(),
            last_with_id(records@, id@) == last_id_upto(records@, id@, i as int),
        decreases i,
    {
        if records[i - 1].id == *id {
            return Some(i - 1);
        }
        i = i - 1;
    }
    None
}

/// The text of an optional string.
pub open spec fn opt_text(o: Option<String>) -> Option<Seq<char>> {
    match o {
        Some(s) => Some(s@),
        None => None,
    }
}

/// What the first `n` search hits give: for each hit (in order) whose id
/// names a stored record that the filter keeps and whose id is not the
/// excluded one, the hit's key and the record's position.
pub open spec fn hit_picks(
    records: Seq<IntentRecord>,
    hits: Seq<(u64, String)>,
    flt: FilterView,
    exclude: Option<Seq<char>>,
    n: int,
) -> Seq<(u64, usize)>
    decreases n,
{
    if n <= 0 {
        Seq::empty()
    } else {
        let p = hit_picks(records, hits, flt, exclude, n - 1);
        match last_with_id(records, hits[n - 1].1@) {
            Some(i) => if admits(flt, records[i]) && exclude != Some(records[i].id@) {
                p.push((hits[n - 1].0, i as usize))
            } else {
                p
            },
            None => p,
        }
    }
}

/// Resolves search hits (key, id) to stored records: keeps, in hit order,
/// the hits whose id names a record (the last one with that id) that the
/// filter keeps and that is not `exclude`, at most `limit` of them.
pub fn pick_hits(
    records: &Vec<IntentRecord>,
    hits: &Vec<(u64, String)>,
    flt: &RecordFilter,
    exclude: &Option<String>,
    limit: Option<usize>,
) -> (r: Vec<(u64, usize)>)
    ensures
        r@ == first_n(hit_picks(records@, hits@, flt@, opt_text(*exclude), hits@.len() as int), limit),
        forall|k: int| 0 <= k < r@.len() ==> (#[trigger] r@[k]).1 < records@.len(),
{
    let mut r: Vec<(u64, usize)> = Vec::new();
    let mut h: usize = 0;
    while h < hits.len()
        invariant
            h <= hits@.len(),
            r@ == first_n(hit_picks(records@, hits@, flt@, opt_text(*exclude), h as int), limit),
            forall|k: int| 0 <= k < r@.len() ==> (#[trigger] r@[k]).1 < records@.len(),
        decreases hits@.len() - h,
    {
        let ghost p = hit_picks(records@, hits@, flt@, opt_text(*exclude), h as int);
        let found = find_last_id(records, &hits[h].1);
        if let Some(i) = found {
            let keep = admitted(flt, &records[i]) && match exclude {
                Some(x) => records[i].id != *x,
                None => true,
            };
            proof {
                lemma_first_n_push(p, (hits@[h as int].0, i), limit);
                let id = hits@[h as int].1@;
                lemma_last_id_upto(records@, id, records@.len() as int);
                match last_with_id(records@, id) {
                    Some(j) => {
                        assert(records@.len() == records.len());
                        assert(j == i as int);
                    },
                    None => assert(false),
                }
                assert(keep == (admits(flt@, records@[i as int]) && opt_text(*exclude) != Some(records@[i as int].id@)));
                assert(hit_picks(records@, hits@, flt@, opt_text(*exclude), h + 1)
                    == if keep { p.push((hits@[h as int].0, i)) } else { p });
            }
            if keep {
                let room = match limit {
                    Some(l) => r.len() < l,
                    None => true,
                };
                if room {
                    r.push((hits[h].0, i));
                }
            }
        } else {
            assert(hit_picks(records@, hits@, flt@, opt_text(*exclude), h + 1) == p);
        }
        h = h + 1;
    }
    r
}

} // verus!
