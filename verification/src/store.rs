//! The record list together with its search index.
use vstd::prelude::*;
use crate::hnsw::{Hnsw, oracle_ok, grown_from, MAX_LEVEL};
use crate::record::IntentRecord;
use crate::text::{has_prefix, starts_with, law_prefix_is_leading_text};

verus! {

/// The records and the index built over them; the index always holds one
/// node per record.
pub struct Store {
    records: Vec<IntentRecord>,
    index: Hnsw,
}

/// Copies a vector of vector components.
fn copy_vector(v: &Vec<u32>) -> (r: Vec<u32>)
    ensures
        r@ == v@,
{
    let mut r: Vec<u32> = Vec::new();
    let mut i: usize = 0;
    while i < v.len()
        invariant
            i <= v@.len(),
            r@ == v@.take(i as int),
        decreases v@.len() - i,
    {
        r.push(v[i]);
        assert(r@ =~= v@.take(i + 1));
        i = i + 1;
    }
    assert(r@ =~= v@);
    r
}

/// Copies a list of tags.
pub fn copy_strings(v: &Vec<String>) -> (r: Vec<String>)
    ensures
        r@ == v@,
{
    let mut r: Vec<String> = Vec::new();
    let mut i: usize = 0;
    while i < v.len()
        invariant
            i <= v@.len(),
            r@ == v@.take(i as int),
        decreases v@.len() - i,
    {
        r.push(v[i].clone());
        assert(r@ =~= v@.take(i + 1));
        i = i + 1;
    }
    assert(r@ =~= v@);
    r
}

/// The elements of `v` in reverse order.
pub(crate) fn reversed<T>(v: Vec<T>) -> (r: Vec<T>)
    ensures
        r@ == v@.reverse(),
{
    let mut v = v;
    let ghost orig = v@;
    let mut r: Vec<T> = Vec::new();
    while v.len() > 0
        invariant
            v@ == orig.take(v@.len() as int),
            r@ == orig.reverse().take(r@.len() as int),
            v@.len() + r@.len() == orig.len(),
        decreases v@.len(),
    {
        let ghost k = v@.len();
        let x = v.pop().unwrap();
        r.push(x);
        assert(v@ =~= orig.take(v@.len() as int));
        assert(r@ =~= orig.reverse().take(r@.len() as int));
    }
    assert(r@ =~= orig.reverse());
    r
}

/// The level a drawn level is capped to.
pub open spec fn capped(l: usize) -> usize {
    if l < MAX_LEVEL { l } else { MAX_LEVEL }
}

/// The index holds node `i` for record `i`, with the `i`-th drawn level.
pub open spec fn built_from(h: Hnsw, records: Seq<IntentRecord>, levels: Seq<usize>) -> bool {
    &&& h.size() == records.len()
    &&& forall|i: int| 0 <= i < records.len() ==> {
        &&& #[trigger] h.id_at(i) == records[i].id@
        &&& h.vector_at(i) == records[i].vector@
        &&& h.level_at(i) == capped(levels[i])
    }
}

/// Node `i` of `h` holds the id and vector of record `i`, for every record.
pub open spec fn index_follows(h: Hnsw, records: Seq<IntentRecord>) -> bool {
    &&& h.size() == records.len()
    &&& forall|i: int| 0 <= i < records.len() ==> {
        &&& #[trigger] h.id_at(i) == records[i].id@
        &&& h.vector_at(i) == records[i].vector@
    }
}

/// Builds an index over `records`, giving record `i` the drawn level `levels[i]`.
pub fn build_index<F: Fn(&Vec<u32>, &Vec<u32>) -> u64>(records: &Vec<IntentRecord>, levels: &Vec<usize>, f: &F) -> (h: Hnsw)
    requires
        oracle_ok(f),
        levels@.len() >= records@.len(),
    ensures
        h.wf(),
        h.degree_ok(),
        built_from(h, records@, levels@),
{
    let mut items: Vec<(String, Vec<u32>, usize)> = Vec::new();
    let mut i: usize = 0;
    while i < records.len()
        invariant
            i <= records@.len(),
            levels@.len() >= records@.len(),
            items@.len() == i,
            forall|j: int| 0 <= j < i ==> {
                &&& (#[trigger] items@[j]).0@ == records@[j].id@
                &&& items@[j].1@ == records@[j].vector@
                &&& items@[j].2 == levels@[j]
            },
        decreases records@.len() - i,
    {
        items.push((records[i].id.clone(), copy_vector(&records[i].vector), levels[i]));
        i = i + 1;
    }
    let h = Hnsw::build(items, f);
    proof {
        assert forall|j: int| 0 <= j < records@.len() implies {
            &&& #[trigger] h.id_at(j) == records@[j].id@
            &&& h.vector_at(j) == records@[j].vector@
            &&& h.level_at(j) == capped(levels@[j])
        } by {
            assert(items@[j].0@ == records@[j].id@);
        }
    }
    h
}

/// The records whose id does not start with `prefix`.
pub open spec fn without_prefix(records: Seq<IntentRecord>, prefix: Seq<char>) -> Seq<IntentRecord> {
    records.filter(|r: IntentRecord| !has_prefix(r.id@, prefix))
}

/// Deleting by prefix keeps, in order, exactly the records whose id does not
/// begin, as text, with the prefix.
pub proof fn law_delete_keeps_ids_not_starting_with(records: Seq<IntentRecord>, prefix: Seq<char>)
    ensures
        without_prefix(records, prefix) == records.filter(
            |r: IntentRecord| !(prefix.len() <= r.id@.len() && r.id@.subrange(0, prefix.len() as int) == prefix),
        ),
{
    let f1 = |r: IntentRecord| !has_prefix(r.id@, prefix);
    let f2 = |r: IntentRecord| !(prefix.len() <= r.id@.len() && r.id@.subrange(0, prefix.len() as int) == prefix);
    assert forall|r: IntentRecord| #[trigger] f1(r) == f2(r) by {
        law_prefix_is_leading_text(r.id@, prefix);
    }
    assert(f1 =~= f2);
}

/// The position of the first record whose id starts with `prefix`.
pub open spec fn first_with_prefix(records: Seq<IntentRecord>, prefix: Seq<char>) -> Option<int> {
    if exists|i: int| 0 <= i < records.len() && has_prefix(#[trigger] records[i].id@, prefix) {
        Some(choose|i: int| 0 <= i < records.len() && has_prefix(#[trigger] records[i].id@, prefix)
            && forall|j: int| 0 <= j < i ==> !has_prefix(#[trigger] records[j].id@, prefix))
    } else {
        None
    }
}

/// Finds the first record whose id starts with `prefix`.
pub fn find_prefix(records: &Vec<IntentRecord>, prefix: &str) -> (r: Option<usize>)
    ensures
        match r {
            Some(i) => i < records@.len() && has_prefix(records@[i as int].id@, prefix@)
                && forall|j: int| 0 <= j < i ==> !has_prefix(#[trigger] records@[j].id@, prefix@),
            None => forall|j: int| 0 <= j < records@.len() ==> !has_prefix(#[trigger] records@[j].id@, prefix@),
        },
        r matches Some(i) ==> first_with_prefix(records@, prefix@) == Some(i as int),
        r is None <==> first_with_prefix(records@, prefix@) is None,
{
    let mut i: usize = 0;
    while i < records.len()
        invariant
            i <= records@.len(),
            forall|j: int| 0 <= j < i ==> !has_prefix(#[trigger] records@[j].id@, prefix@),
        decreases records@.len() - i,
    {
        if starts_with(records[i].id.as_str(), prefix) {
            proof {
                let k = choose|k: int| 0 <= k < records@.len() && has_prefix(#[trigger] records@[k].id@, prefix@)
                    && forall|j: int| 0 <= j < k ==> !has_prefix(#[trigger] records@[j].id@, prefix@);
                assert(0 <= i < records@.len() && has_prefix(records@[i as int].id@, prefix@) && forall|j: int| 0 <= j < i ==> !has_prefix(#[trigger] records@[j].id@, prefix@));
                if k < i {
                    assert(!has_prefix(records@[k].id@, prefix@));
                } else if k > i {
                    assert(!has_prefix(records@[i as int].id@, prefix@));
                }
            }
            return Some(i);
        }
        i = i + 1;
    }
    None
}

/// The ids of the records.
pub open spec fn ids_of(records: Seq<IntentRecord>) -> Seq<Seq<char>> {
    records.map_values(|r: IntentRecord| r.id@)
}

/// The incoming records whose ids are not among `existing`'s ids.
pub open spec fn unseen(existing: Seq<IntentRecord>, incoming: Seq<IntentRecord>) -> Seq<IntentRecord> {
    incoming.filter(|r: IntentRecord| !ids_of(existing).contains(r.id@))
}

/// Whether some record has id `id`.
pub fn has_id(records: &Vec<IntentRecord>, id: &String) -> (r: bool)
    ensures
        r == ids_of(records@).contains(id@),
{
    let mut i: usize = 0;
    while i < records.len()
        invariant
            i <= records@.len(),
            forall|j: int| 0 <= j < i ==> (#[trigger] records@[j]).id@ != id@,
        decreases records@.len() - i,
    {
        if records[i].id == *id {
            assert(ids_of(records@)[i as int] == id@);
            return true;
        }
        i = i + 1;
    }
    proof {
        if ids_of(records@).contains(id@) {
            let j = choose|j: int| 0 <= j < ids_of(records@).len() && ids_of(records@)[j] == id@;
            assert(records@[j].id@ == id@);
        }
    }
    false
}

/// The incoming records whose ids no existing record has, in order.
pub fn unseen_records(existing: &Vec<IntentRecord>, incoming: Vec<IntentRecord>) -> (r: Vec<IntentRecord>)
    ensures
        r@ == unseen(existing@, incoming@),
{
    let ghost all = incoming@;
    let ghost pred = |r: IntentRecord| !ids_of(existing@).contains(r.id@);
    let n = incoming.len();
    let mut rest = reversed(incoming);
    let mut kept: Vec<IntentRecord> = Vec::new();
    let mut i: usize = 0;
    while rest.len() > 0
        invariant
            n == all.len(),
            i <= all.len(),
            rest@.len() == all.len() - i,
            forall|j: int| 0 <= j < rest@.len() ==> #[trigger] rest@[j] == all[all.len() - 1 - j],
            pred == |r: IntentRecord| !ids_of(existing@).contains(r.id@),
            kept@ == all.take(i as int).filter(pred),
        decreases rest@.len(),
    {
        proof {
            assert(all.take(i + 1) =~= all.take(i as int).push(all[i as int]));
            all.take(i as int).lemma_filter_push(all[i as int], pred);
        }
        let x = rest.pop().unwrap();
        assert(x == all[i as int]);
        if !has_id(existing, &x.id) {
            kept.push(x);
        }
        i = i + 1;
    }
    assert(all.take(all.len() as int) =~= all);
    kept
}

proof fn unseen_len(existing: Seq<IntentRecord>, incoming: Seq<IntentRecord>)
    ensures
        unseen(existing, incoming).len() <= incoming.len(),
{
    incoming.lemma_filter_take_len(|r: IntentRecord| !ids_of(existing).contains(r.id@), incoming.len() as int);
    assert(incoming.take(incoming.len() as int) =~= incoming);
}

/// After removing the records whose id starts with `prefix`, no remaining
/// record's id starts with it, and every record whose id does not start
/// with it remains.
pub proof fn law_delete_removes_prefix(records: Seq<IntentRecord>, prefix: Seq<char>)
    ensures
        forall|k: int| 0 <= k < without_prefix(records, prefix).len()
            ==> !has_prefix(#[trigger] without_prefix(records, prefix)[k].id@, prefix),
        forall|k: int| 0 <= k < records.len() && !has_prefix(#[trigger] records[k].id@, prefix)
            ==> without_prefix(records, prefix).contains(records[k]),
{
    let pred = |r: IntentRecord| !has_prefix(r.id@, prefix);
    assert forall|k: int| 0 <= k < without_prefix(records, prefix).len()
        implies !has_prefix(#[trigger] without_prefix(records, prefix)[k].id@, prefix) by {
        records.lemma_filter_pred(pred, k);
    }
    assert forall|k: int| 0 <= k < records.len() && !has_prefix(#[trigger] records[k].id@, prefix)
        implies without_prefix(records, prefix).contains(records[k]) by {
        records.lemma_filter_contains(pred, k);
    }
}

/// Adding the unseen records of a batch, then offering the same batch
/// again, adds nothing the second time: a repeated import or pull is a
/// no-op.
pub proof fn law_import_idempotent(existing: Seq<IntentRecord>, incoming: Seq<IntentRecord>)
    ensures
        unseen(existing + unseen(existing, incoming), incoming).len() == 0,
{
    let added = unseen(existing, incoming);
    let pred = |r: IntentRecord| !ids_of(existing).contains(r.id@);
    let after = existing + added;
    let pred2 = |r: IntentRecord| !ids_of(after).contains(r.id@);
    assert forall|j: int| 0 <= j < incoming.len() implies ids_of(after).contains(#[trigger] incoming[j].id@) by {
        let r = incoming[j];
        if ids_of(existing).contains(r.id@) {
            let w = choose|w: int| 0 <= w < ids_of(existing).len() && ids_of(existing)[w] == r.id@;
            assert(ids_of(after)[w] == r.id@);
        } else {
            incoming.lemma_filter_contains(pred, j);
            assert(added.contains(r));
            let w = choose|w: int| 0 <= w < added.len() && added[w] == r;
            assert(after[existing.len() + w] == r);
            assert(ids_of(after)[existing.len() + w] == r.id@);
        }
    }
    if unseen(after, incoming).len() > 0 {
        let x = unseen(after, incoming)[0];
        incoming.lemma_filter_pred(pred2, 0);
        assert(unseen(after, incoming).contains(x));
        incoming.lemma_filter_contains_rev(pred2, x);
        let j = choose|j: int| 0 <= j < incoming.len() && incoming[j] == x;
        assert(ids_of(after).contains(incoming[j].id@));
    }
}

impl Store {
    /// The index holds one node per record.
    pub closed spec fn wf(&self) -> bool {
        &&& self.index.wf()
        &&& self.index.size() == self.records@.len()
    }

    /// The stored records.
    pub closed spec fn records_view(&self) -> Seq<IntentRecord> {
        self.records@
    }

    /// The index over them.
    pub closed spec fn index_view(&self) -> Hnsw {
        self.index
    }

    /// The index of a well-formed store is well-formed and holds one node
    /// per stored record.
    pub proof fn lemma_index_per_record(&self)
        requires
            self.wf(),
        ensures
            self.index_view().wf(),
            self.index_view().size() == self.records_view().len(),
    {
    }

    /// The stored records.
    pub fn records(&self) -> (r: &Vec<IntentRecord>)
        ensures
            r@ == self.records_view(),
    {
        &self.records
    }

    /// The search index.
    pub fn index(&self) -> (r: &Hnsw)
        ensures
            *r == self.index_view(),
    {
        &self.index
    }

    /// Pairs `records` with the index read from disk, or with a fresh index
    /// built from the records when the one read has a different number of
    /// nodes. The flag tells whether a new index was built.
    pub fn open<F: Fn(&Vec<u32>, &Vec<u32>) -> u64>(records: Vec<IntentRecord>, loaded: Hnsw, levels: &Vec<usize>, f: &F) -> (r: (Store, bool))
        requires
            loaded.wf(),
            oracle_ok(f),
            levels@.len() >= records@.len(),
        ensures
            r.0.wf(),
            r.0.records_view() == records@,
            r.1 == (loaded.size() != records@.len()),
            !r.1 ==> r.0.index_view() == loaded,
            r.1 ==> built_from(r.0.index_view(), records@, levels@),
    {
        if loaded.len() == records.len() {
            (Store { records, index: loaded }, false)
        } else {
            let index = build_index(&records, levels, f);
            (Store { records, index }, true)
        }
    }

    /// Number of records.
    pub fn len(&self) -> (r: usize)
        ensures
            r == self.records_view().len(),
    {
        self.records.len()
    }

    /// Adds a record, linking it into the index with the drawn level.
    pub fn put<F: Fn(&Vec<u32>, &Vec<u32>) -> u64>(&mut self, rec: IntentRecord, level: usize, f: &F)
        requires
            old(self).wf(),
            oracle_ok(f),
        ensures
            final(self).wf(),
            final(self).records_view() == old(self).records_view().push(rec),
            grown_from(old(self).index_view().nodes_view(), final(self).index_view().nodes_view(), old(self).records_view().len() as int),
            final(self).index_view().id_at(old(self).records_view().len() as int) == rec.id@,
            final(self).index_view().vector_at(old(self).records_view().len() as int) == rec.vector@,
            index_follows(old(self).index_view(), old(self).records_view()) ==> index_follows(final(self).index_view(), final(self).records_view()),
    {
        let id = rec.id.clone();
        let v = copy_vector(&rec.vector);
        let ghost hb = self.index;
        self.index.insert(id, v, level, f);
        self.records.push(rec);
        proof {
            if index_follows(hb, old(self).records@) {
                assert forall|i: int| 0 <= i < self.records@.len() implies {
                    &&& #[trigger] self.index.id_at(i) == self.records@[i].id@
                    &&& self.index.vector_at(i) == self.records@[i].vector@
                } by {
                    if i < hb.size() {
                        assert(self.index.id_at(i) == hb.id_at(i));
                        assert(self.records@[i] == old(self).records@[i]);
                    }
                }
            }
        }
    }

    /// Removes every record whose id starts with `prefix` and rebuilds the
    /// index; returns how many were removed. Nothing changes when none
    /// matches.
    pub fn delete_prefix<F: Fn(&Vec<u32>, &Vec<u32>) -> u64>(&mut self, prefix: &str, levels: &Vec<usize>, f: &F) -> (deleted: usize)
        requires
            old(self).wf(),
            oracle_ok(f),
            levels@.len() >= old(self).records_view().len(),
        ensures
            final(self).wf(),
            final(self).records_view() == without_prefix(old(self).records_view(), prefix@),
            deleted == old(self).records_view().len() - final(self).records_view().len(),
            deleted == 0 ==> final(self).index_view() == old(self).index_view(),
            deleted > 0 ==> built_from(final(self).index_view(), final(self).records_view(), levels@),
    {
        let total = self.records.len();
        let ghost all = self.records@;
        let ghost pred = |r: IntentRecord| !has_prefix(r.id@, prefix@);
        let mut taken: Vec<IntentRecord> = Vec::new();
        std::mem::swap(&mut taken, &mut self.records);
        let mut rest = reversed(taken);
        let mut kept: Vec<IntentRecord> = Vec::new();
        let mut i: usize = 0;
        while rest.len() > 0
            invariant
                i <= all.len(),
                all.len() <= usize::MAX,
                rest@.len() == all.len() - i,
                forall|j: int| 0 <= j < rest@.len() ==> #[trigger] rest@[j] == all[all.len() - 1 - j],
                pred == |r: IntentRecord| !has_prefix(r.id@, prefix@),
                kept@ == all.take(i as int).filter(pred),
                kept@.len() <= i,
                kept@.len() == i ==> kept@ == all.take(i as int),
            decreases rest@.len(),
        {
            proof {
                assert(all.take(i + 1) =~= all.take(i as int).push(all[i as int]));
                all.take(i as int).lemma_filter_push(all[i as int], pred);
            }
            let x = rest.pop().unwrap();
            assert(x == all[i as int]);
            if !starts_with(x.id.as_str(), prefix) {
                kept.push(x);
            }
            assert(kept@.len() == i + 1 ==> kept@ =~= all.take(i + 1));
            i = i + 1;
        }
        assert(all.take(all.len() as int) =~= all);
        let deleted = i - kept.len();
        if deleted == 0 {
            assert(kept@ == all);
            self.records = kept;
            return 0;
        }
        self.index = build_index(&kept, levels, f);
        self.records = kept;
        deleted
    }

    /// Replaces the text, vector and timestamp of the first record whose id
    /// starts with `prefix` (and its tags, when `tags` is not empty), then
    /// rebuilds the index. Returns the record's position, or `None` (with
    /// nothing changed) when no id matches.
    pub fn update_prefix<F: Fn(&Vec<u32>, &Vec<u32>) -> u64>(
        &mut self,
        prefix: &str,
        text: String,
        vector: Vec<u32>,
        tags: Vec<String>,
        timestamp: u64,
        levels: &Vec<usize>,
        f: &F,
    ) -> (r: Option<usize>)
        requires
            old(self).wf(),
            oracle_ok(f),
            levels@.len() >= old(self).records_view().len(),
        ensures
            final(self).wf(),
            r == (match first_with_prefix(old(self).records_view(), prefix@) {
                Some(i) => Some(i as usize),
                None => None::<usize>,
            }),
            r is None ==> final(self).records_view() == old(self).records_view() && final(self).index_view() == old(self).index_view(),
            r matches Some(i) ==> {
                let o = old(self).records_view()[i as int];
                let n = final(self).records_view()[i as int];
                &&& final(self).records_view().len() == old(self).records_view().len()
                &&& forall|j: int| 0 <= j < old(self).records_view().len() && j != i ==> #[trigger] final(self).records_view()[j] == old(self).records_view()[j]
                &&& n.id == o.id
                &&& n.text == text
                &&& n.vector == vector
                &&& n.timestamp == timestamp
                &&& n.tags == if tags@.len() == 0 { o.tags } else { tags }
                &&& built_from(final(self).index_view(), final(self).records_view(), levels@)
            },
    {
        let found = find_prefix(&self.records, prefix);
        match found {
            None => None,
            Some(i) => {
                let ghost before = self.records@;
                self.records[i].text = text;
                self.records[i].vector = vector;
                if tags.len() > 0 {
                    self.records[i].tags = tags;
                }
                self.records[i].timestamp = timestamp;
                self.index = build_index(&self.records, levels, f);
                Some(i)
            },
        }
    }

    /// Adds the incoming records whose ids are not stored yet, linking each
    /// into the index with the next drawn level; returns how many were added.
    pub fn import<F: Fn(&Vec<u32>, &Vec<u32>) -> u64>(&mut self, incoming: Vec<IntentRecord>, levels: &Vec<usize>, f: &F) -> (added: usize)
        requires
            old(self).wf(),
            oracle_ok(f),
            levels@.len() >= incoming@.len(),
        ensures
            final(self).wf(),
            final(self).records_view() == old(self).records_view() + unseen(old(self).records_view(), incoming@),
            added == unseen(old(self).records_view(), incoming@).len(),
            final(self).index_view().size() == old(self).index_view().size() + added,
            index_follows(old(self).index_view(), old(self).records_view()) ==> index_follows(final(self).index_view(), final(self).records_view()),
    {
        let m = incoming.len();
        let ghost inc = incoming@;
        let fresh = unseen_records(&self.records, incoming);
        let ghost start = self.records@;
        proof {
            unseen_len(start, incoming@);
        }
        let added = fresh.len();
        let mut rest = reversed(fresh);
        let ghost all = rest@.reverse();
        assert(all =~= unseen(start, inc));
        let mut i: usize = 0;
        while rest.len() > 0
            invariant
                self.wf(),
                oracle_ok(f),
                all == unseen(start, inc),
                all.len() <= inc.len(),
                inc.len() == m,
                levels@.len() >= inc.len(),
                i <= all.len(),
                rest@.len() == all.len() - i,
                forall|j: int| 0 <= j < rest@.len() ==> #[trigger] rest@[j] == all[all.len() - 1 - j],
                self.records@ == start + all.take(i as int),
                start == old(self).records@,
                index_follows(old(self).index, start) ==> index_follows(self.index, self.records@),
            decreases rest@.len(),
        {
            let x = rest.pop().unwrap();
            assert(x == all[i as int]);
            self.put(x, levels[i], f);
            assert(self.records@ =~= start + all.take(i + 1));
            i = i + 1;
        }
        assert(all.take(all.len() as int) =~= all);
        added
    }

    /// Appends the incoming records whose ids are not stored yet and, when
    /// any was added, rebuilds the index; returns how many were added.
    pub fn pull<F: Fn(&Vec<u32>, &Vec<u32>) -> u64>(&mut self, incoming: Vec<IntentRecord>, levels: &Vec<usize>, f: &F) -> (added: usize)
        requires
            old(self).wf(),
            oracle_ok(f),
            levels@.len() >= old(self).records_view().len() + incoming@.len(),
        ensures
            final(self).wf(),
            final(self).records_view() == old(self).records_view() + unseen(old(self).records_view(), incoming@),
            added == unseen(old(self).records_view(), incoming@).len(),
            added == 0 ==> final(self).index_view() == old(self).index_view(),
            added > 0 ==> built_from(final(self).index_view(), final(self).records_view(), levels@),
    {
        let fresh = unseen_records(&self.records, incoming);
        proof {
            unseen_len(self.records@, incoming@);
        }
        let added = fresh.len();
        if added == 0 {
            assert(self.records@ + fresh@ =~= self.records@);
            return 0;
        }
        let mut fresh = fresh;
        self.records.append(&mut fresh);
        self.index = build_index(&self.records, levels, f);
        added
    }
}

} // verus!
