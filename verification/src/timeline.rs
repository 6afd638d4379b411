//! The conversation timeline: records classified as user prompts, assistant
//! replies or notes, in chronological order, filtered by session.
use vstd::prelude::*;
use crate::record::{IntentRecord, tags_of};
use crate::query::{opt_text, first_n, lemma_first_n_push};
use crate::text::{has_prefix, starts_with};

verus! {

/// One timeline entry, classified from a record.
#[derive(Debug, Clone, PartialEq, Eq)]
pub enum TimelineEntry {
    /// A prompt the user submitted.
    User { prompt: String, session_id: Option<String> },
    /// A reply of the assistant.
    Claude { text: String, session_id: Option<String> },
    /// Any other record.
    Note { text: String },
}

/// A timeline entry with texts in place of strings.
pub enum EntryView {
    User(Seq<char>, Option<Seq<char>>),
    Claude(Seq<char>, Option<Seq<char>>),
    Note(Seq<char>),
}

impl View for TimelineEntry {
    type V = EntryView;

    open spec fn view(&self) -> EntryView {
        match self {
            TimelineEntry::User { prompt, session_id } => EntryView::User(prompt@, opt_text(*session_id)),
            TimelineEntry::Claude { text, session_id } => EntryView::Claude(text@, opt_text(*session_id)),
            TimelineEntry::Note { text } => EntryView::Note(text@),
        }
    }
}

/// The string that `text`, read as a JSON document, holds under `key` in
/// its top-level object (`None` when the text is no JSON object or the
/// value there is missing or no string).
pub uninterp spec fn json_string_field(text: Seq<char>, key: Seq<char>) -> Option<Seq<char>>;

/// Reads `text` with `serde_json::from_str` as a `serde_json::Value` and
/// takes the string under `key` with `Value::get` and `Value::as_str`.
/// The contract says only that the result depends on `text` and `key`
/// alone; what JSON reading gives is not stated.
#[verifier::external_body]
fn json_field(text: &str, key: &str) -> (r: Option<String>)
    ensures
        opt_text(r) == json_string_field(text@, key@),
{
    match serde_json::from_str::<serde_json::Value>(text) {
        Ok(v) => v.get(key).and_then(|x| x.as_str()).map(|x| x.to_string()),
        Err(_) => None,
    }
}

/// The text in `o`, or `d` when there is none.
pub open spec fn text_or(o: Option<Seq<char>>, d: Seq<char>) -> Seq<char> {
    match o {
        Some(t) => t,
        None => d,
    }
}

/// How a record is classified from what was read of it: whether it is
/// tagged `response`, its text, and the string fields `hook_event_name`,
/// `prompt` and `session_id` of its text read as JSON. A reply shows its
/// raw text, with the session id of a `Stop` hook event; a
/// `UserPromptSubmit` hook event is a user prompt (its `prompt` field,
/// `<no prompt>` when missing); anything else is a note.
pub open spec fn classify_read(
    is_response: bool,
    text: Seq<char>,
    hook: Option<Seq<char>>,
    prompt: Option<Seq<char>>,
    session: Option<Seq<char>>,
) -> EntryView {
    if is_response {
        if hook == Some("Stop"@) {
            EntryView::Claude(text, session)
        } else {
            EntryView::Claude(text, None)
        }
    } else if hook == Some("UserPromptSubmit"@) {
        EntryView::User(text_or(prompt, "<no prompt>"@), session)
    } else {
        EntryView::Note(text)
    }
}

/// How a record with `text` and `tags` is classified.
pub open spec fn classify_spec(text: Seq<char>, tags: Seq<Seq<char>>) -> EntryView {
    classify_read(
        tags.contains("response"@),
        text,
        json_string_field(text, "hook_event_name"@),
        json_string_field(text, "prompt"@),
        json_string_field(text, "session_id"@),
    )
}

fn has_response_tag(tags: &Vec<String>) -> (r: bool)
    ensures
        r == tags@.map_values(|t: String| t@).contains("response"@),
{
    let want = String::from_str("response");
    let mut i: usize = 0;
    while i < tags.len()
        invariant
            want@ == "response"@,
            i <= tags@.len(),
            forall|j: int| 0 <= j < i ==> (#[trigger] tags@[j])@ != "response"@,
        decreases tags@.len() - i,
    {
        if tags[i] == want {
            assert(tags@.map_values(|t: String| t@)[i as int] == "response"@);
            return true;
        }
        i = i + 1;
    }
    proof {
        let ts = tags@.map_values(|t: String| t@);
        if ts.contains("response"@) {
            let j = choose|j: int| 0 <= j < ts.len() && ts[j] == "response"@;
            assert(tags@[j]@ == "response"@);
        }
    }
    false
}

/// Whether `o` holds exactly `want`.
fn holds_text(o: &Option<String>, want: &str) -> (r: bool)
    ensures
        r == (opt_text(*o) == Some(want@)),
{
    match o {
        Some(s) => *s == String::from_str(want),
        None => false,
    }
}

/// Classifies a record from what was read of it (see `classify_read`).
pub fn classify_fields(
    is_response: bool,
    text: &String,
    hook: &Option<String>,
    prompt: Option<String>,
    session: Option<String>,
) -> (r: TimelineEntry)
    ensures
        r@ == classify_read(is_response, text@, opt_text(*hook), opt_text(prompt), opt_text(session)),
{
    if is_response {
        if holds_text(hook, "Stop") {
            return TimelineEntry::Claude { text: text.clone(), session_id: session };
        }
        return TimelineEntry::Claude { text: text.clone(), session_id: None };
    }
    if holds_text(hook, "UserPromptSubmit") {
        let prompt = match prompt {
            Some(t) => t,
            None => String::from_str("<no prompt>"),
        };
        return TimelineEntry::User { prompt, session_id: session };
    }
    TimelineEntry::Note { text: text.clone() }
}

/// Classifies a record for the timeline.
pub fn classify_record(rec: &IntentRecord) -> (r: TimelineEntry)
    ensures
        r@ == classify_spec(rec.text@, tags_of(*rec)),
{
    let hook = json_field(rec.text.as_str(), "hook_event_name");
    let prompt = json_field(rec.text.as_str(), "prompt");
    let session = json_field(rec.text.as_str(), "session_id");
    classify_fields(has_response_tag(&rec.tags), &rec.text, &hook, prompt, session)
}

/// Whether a timeline shows entry `e`. With a session prefix, a prompt is
/// shown when its session id starts with it, a reply when its session id
/// starts with it or it has none, and notes never; without one, prompts
/// and replies are shown and notes when asked for.
pub open spec fn keeps_entry(e: EntryView, session: Option<Seq<char>>, show_notes: bool) -> bool {
    match session {
        Some(sid) => match e {
            EntryView::User(_, Some(s)) => has_prefix(s, sid),
            EntryView::User(_, None) => false,
            EntryView::Claude(_, Some(s)) => has_prefix(s, sid),
            EntryView::Claude(_, None) => true,
            EntryView::Note(_) => false,
        },
        None => match e {
            EntryView::Note(_) => show_notes,
            _ => true,
        },
    }
}

/// Whether the timeline shows `e`.
pub fn keep_entry(e: &TimelineEntry, session: &Option<String>, show_notes: bool) -> (r: bool)
    ensures
        r == keeps_entry(e@, opt_text(*session), show_notes),
{
    match session {
        Some(sid) => match e {
            TimelineEntry::User { session_id: Some(s), .. } => starts_with(s.as_str(), sid.as_str()),
            TimelineEntry::User { session_id: None, .. } => false,
            TimelineEntry::Claude { session_id: Some(s), .. } => starts_with(s.as_str(), sid.as_str()),
            TimelineEntry::Claude { session_id: None, .. } => true,
            TimelineEntry::Note { .. } => false,
        },
        None => match e {
            TimelineEntry::Note { .. } => show_notes,
            _ => true,
        },
    }
}

/// Record `a` comes before record `b` in time: it was added earlier, or at
/// the same second and stored first.
pub open spec fn earlier(records: Seq<IntentRecord>, a: int, b: int) -> bool {
    records[a].timestamp < records[b].timestamp || (records[a].timestamp == records[b].timestamp && a < b)
}

/// `order` lists every record position once, oldest first; records added
/// in the same second keep their stored order.
pub open spec fn chronological(records: Seq<IntentRecord>, order: Seq<usize>) -> bool {
    &&& order.len() == records.len()
    &&& forall|k: int| 0 <= k < order.len() ==> (#[trigger] order[k]) < records.len()
    &&& forall|a: int, b: int| 0 <= a < b < order.len() ==> earlier(records, #[trigger] order[a] as int, #[trigger] order[b] as int)
    &&& forall|i: usize| i < records.len() ==> #[trigger] order.contains(i)
}

/// The record positions in chronological order.
pub open spec fn time_order(records: Seq<IntentRecord>) -> Seq<usize> {
    choose|o: Seq<usize>| chronological(records, o)
}

/// There is exactly one chronological order: any two orders that list
/// every record once, oldest first with ties in stored order, are equal.
pub proof fn law_chronological_unique(records: Seq<IntentRecord>, o1: Seq<usize>, o2: Seq<usize>)
    requires
        chronological(records, o1),
        chronological(records, o2),
    ensures
        o1 == o2,
{
    if exists|k: int| 0 <= k < o1.len() && o1[k] != o2[k] {
        let k = choose|k: int| 0 <= k < o1.len() && o1[k] != o2[k] && forall|j: int| 0 <= j < k ==> o1[j] == o2[j];
        assert(exists|k: int| 0 <= k < o1.len() && o1[k] != o2[k]);
        let k0 = choose|k: int| 0 <= k < o1.len() && o1[k] != o2[k];
        lemma_first_difference(o1, o2, k0);
        let (x, y) = (o1[k], o2[k]);
        if earlier(records, x as int, y as int) {
            assert(o2.contains(x));
            let m = choose|m: int| 0 <= m < o2.len() && o2[m] == x;
            if m < k {
                assert(o1[m] == x);
                assert(earlier(records, o1[m] as int, o1[k] as int));
            } else {
                assert(m != k);
                assert(earlier(records, o2[k] as int, o2[m] as int));
            }
        } else {
            assert(earlier(records, y as int, x as int));
            assert(o1.contains(y));
            let m = choose|m: int| 0 <= m < o1.len() && o1[m] == y;
            if m < k {
                assert(o2[m] == y);
                assert(earlier(records, o2[m] as int, o2[k] as int));
            } else {
                assert(m != k);
                assert(earlier(records, o1[k] as int, o1[m] as int));
            }
        }
    }
    assert(o1 =~= o2);
}

/// Where two sequences differ, there is a first position where they do.
proof fn lemma_first_difference(o1: Seq<usize>, o2: Seq<usize>, k: int)
    requires
        0 <= k < o1.len(),
        o1[k] != o2[k],
    ensures
        exists|f: int| 0 <= f < o1.len() && o1[f] != o2[f] && forall|j: int| 0 <= j < f ==> o1[j] == o2[j],
    decreases k,
{
    if exists|j: int| 0 <= j < k && o1[j] != o2[j] {
        let j = choose|j: int| 0 <= j < k && o1[j] != o2[j];
        lemma_first_difference(o1, o2, j);
    } else {
        assert(forall|j: int| 0 <= j < k ==> o1[j] == o2[j]);
    }
}

/// The first position in `o` whose record was added after `t` (the length
/// when there is none).
spec fn first_later(records: Seq<IntentRecord>, o: Seq<usize>, t: u64) -> int
    decreases o.len(),
{
    if o.len() == 0 {
        0
    } else if records[o[0] as int].timestamp > t {
        0
    } else {
        1 + first_later(records, o.drop_first(), t)
    }
}

proof fn lemma_first_later(records: Seq<IntentRecord>, o: Seq<usize>, t: u64)
    ensures
        0 <= first_later(records, o, t) <= o.len(),
        forall|k: int| 0 <= k < first_later(records, o, t) ==> records[#[trigger] o[k] as int].timestamp <= t,
        first_later(records, o, t) < o.len() ==> records[o[first_later(records, o, t)] as int].timestamp > t,
    decreases o.len(),
{
    if o.len() > 0 && records[o[0] as int].timestamp <= t {
        lemma_first_later(records, o.drop_first(), t);
        assert forall|k: int| 0 <= k < first_later(records, o, t) implies records[#[trigger] o[k] as int].timestamp <= t by {
            if k > 0 {
                assert(o[k] == o.drop_first()[k - 1]);
            }
        }
    }
}

/// The first `n` record positions, sorted by time by insertion.
spec fn insertion_order(records: Seq<IntentRecord>, n: int) -> Seq<usize>
    decreases n,
{
    if n <= 0 {
        Seq::empty()
    } else {
        let o = insertion_order(records, n - 1);
        o.insert(first_later(records, o, records[n - 1].timestamp), (n - 1) as usize)
    }
}

proof fn lemma_insertion_order(records: Seq<IntentRecord>, n: int)
    requires
        0 <= n <= records.len(),
        records.len() <= usize::MAX,
    ensures
        insertion_order(records, n).len() == n,
        forall|k: int| 0 <= k < n ==> (#[trigger] insertion_order(records, n)[k]) < n,
        forall|a: int, b: int| 0 <= a < b < n ==> earlier(records, #[trigger] insertion_order(records, n)[a] as int, #[trigger] insertion_order(records, n)[b] as int),
        forall|j: usize| j < n ==> #[trigger] insertion_order(records, n).contains(j),
    decreases n,
{
    if n > 0 {
        lemma_insertion_order(records, n - 1);
        let o = insertion_order(records, n - 1);
        let i = n - 1;
        let t = records[i].timestamp;
        lemma_first_later(records, o, t);
        let p = first_later(records, o, t);
        let r = o.insert(p, i as usize);
        o.insert_ensures(p, i as usize);
        assert(r == insertion_order(records, n));
        assert forall|a: int, b: int| 0 <= a < b < r.len() implies earlier(records, #[trigger] r[a] as int, #[trigger] r[b] as int) by {
            if b < p {
                assert(r[a] == o[a] && r[b] == o[b]);
            } else if b == p {
                assert(r[a] == o[a]);
                assert(records[o[a] as int].timestamp <= t);
            } else if a == p {
                assert(r[b] == o[b - 1]);
                assert(records[o[p] as int].timestamp > t);
                if b - 1 > p {
                    assert(earlier(records, o[p] as int, o[b - 1] as int));
                }
            } else if a < p {
                assert(r[a] == o[a] && r[b] == o[b - 1]);
            } else {
                assert(r[a] == o[a - 1] && r[b] == o[b - 1]);
            }
        }
        assert forall|j: usize| j < n implies #[trigger] r.contains(j) by {
            if j == i {
                assert(r[p] == i as usize);
            } else {
                assert(o.contains(j));
                let m = choose|m: int| 0 <= m < o.len() && o[m] == j;
                if m < p {
                    assert(r[m] == j);
                } else {
                    assert(r[m + 1] == j);
                }
            }
        }
        assert forall|k: int| 0 <= k < r.len() implies (#[trigger] r[k]) < n by {
            if k < p {
                assert(r[k] == o[k]);
            } else if k > p {
                assert(r[k] == o[k - 1]);
            }
        }
    }
}

/// Every list of records that positions can count has a chronological order.
pub proof fn lemma_chronological_exists(records: Seq<IntentRecord>)
    requires
        records.len() <= usize::MAX,
    ensures
        chronological(records, time_order(records)),
{
    lemma_insertion_order(records, records.len() as int);
    assert(chronological(records, insertion_order(records, records.len() as int)));
}

/// The record positions in chronological order (a stable sort by timestamp).
pub fn by_time(records: &Vec<IntentRecord>) -> (r: Vec<usize>)
    ensures
        chronological(records@, r@),
        r@ == time_order(records@),
{
    let n = records.len();
    let mut r: Vec<usize> = Vec::new();
    let mut i: usize = 0;
    while i < n
        invariant
            n == records@.len(),
            i <= n,
            r@.len() == i,
            forall|k: int| 0 <= k < r@.len() ==> (#[trigger] r@[k]) < i,
            forall|a: int, b: int| 0 <= a < b < r@.len() ==> earlier(records@, #[trigger] r@[a] as int, #[trigger] r@[b] as int),
            forall|j: usize| j < i ==> #[trigger] r@.contains(j),
        decreases n - i,
    {
        let t = records[i].timestamp;
        let mut p: usize = 0;
        while p < r.len() && records[r[p]].timestamp <= t
            invariant
                n == records@.len(),
                i < n,
                p <= r@.len(),
                forall|k: int| 0 <= k < r@.len() ==> (#[trigger] r@[k]) < i,
                forall|k: int| 0 <= k < p ==> records@[#[trigger] r@[k] as int].timestamp <= t,
                t == records@[i as int].timestamp,
            decreases r@.len() - p,
        {
            p = p + 1;
        }
        let ghost old_r = r@;
        r.insert(p, i);
        proof {
            old_r.insert_ensures(p as int, i);
            assert forall|a: int, b: int| 0 <= a < b < r@.len() implies earlier(records@, #[trigger] r@[a] as int, #[trigger] r@[b] as int) by {
                if b < p {
                    assert(r@[a] == old_r[a] && r@[b] == old_r[b]);
                } else if b == p {
                    assert(r@[a] == old_r[a]);
                    assert(records@[old_r[a] as int].timestamp <= t);
                } else if a == p {
                    assert(r@[b] == old_r[b - 1]);
                    assert(records@[old_r[p as int] as int].timestamp > t);
                    if b - 1 > p {
                        assert(earlier(records@, old_r[p as int] as int, old_r[b - 1] as int));
                    }
                } else if a < p {
                    assert(r@[a] == old_r[a] && r@[b] == old_r[b - 1]);
                } else {
                    assert(r@[a] == old_r[a - 1] && r@[b] == old_r[b - 1]);
                }
            }
            assert forall|j: usize| j < i + 1 implies #[trigger] r@.contains(j) by {
                if j == i {
                    assert(r@[p as int] == i);
                } else {
                    assert(old_r.contains(j));
                    let m = choose|m: int| 0 <= m < old_r.len() && old_r[m] == j;
                    if m < p {
                        assert(r@[m] == j);
                    } else {
                        assert(r@[m + 1] == j);
                    }
                }
            }
            assert forall|k: int| 0 <= k < r@.len() implies (#[trigger] r@[k]) < i + 1 by {
                if k < p {
                    assert(r@[k] == old_r[k]);
                } else if k > p {
                    assert(r@[k] == old_r[k - 1]);
                }
            }
        }
        i = i + 1;
    }
    proof {
        assert(chronological(records@, r@));
        law_chronological_unique(records@, r@, time_order(records@));
    }
    r
}

/// The shown entries among the first `n` records of `order`, each with its
/// record position.
pub open spec fn entries_upto(
    records: Seq<IntentRecord>,
    order: Seq<usize>,
    session: Option<Seq<char>>,
    show_notes: bool,
    n: int,
) -> Seq<(usize, EntryView)>
    decreases n,
{
    if n <= 0 {
        Seq::empty()
    } else {
        let p = entries_upto(records, order, session, show_notes, n - 1);
        let rec = records[order[n - 1] as int];
        let e = classify_spec(rec.text@, tags_of(rec));
        if keeps_entry(e, session, show_notes) {
            p.push((order[n - 1], e))
        } else {
            p
        }
    }
}

/// The timeline: the shown entries of all records, oldest first.
pub open spec fn timeline_spec(records: Seq<IntentRecord>, session: Option<Seq<char>>, show_notes: bool) -> Seq<(usize, EntryView)> {
    entries_upto(records, time_order(records), session, show_notes, records.len() as int)
}

/// Entries with texts in place of strings.
pub open spec fn entries_view(v: Seq<(usize, TimelineEntry)>) -> Seq<(usize, EntryView)> {
    v.map_values(|p: (usize, TimelineEntry)| (p.0, p.1@))
}

/// The timeline of the records, oldest first: each shown entry with the
/// position of its record, the first `limit` of them (all without a limit).
pub fn timeline(records: &Vec<IntentRecord>, session: &Option<String>, show_notes: bool, limit: Option<usize>) -> (r: Vec<(usize, TimelineEntry)>)
    ensures
        entries_view(r@) == first_n(timeline_spec(records@, opt_text(*session), show_notes), limit),
{
    let order = by_time(records);
    let ghost sess = opt_text(*session);
    let mut r: Vec<(usize, TimelineEntry)> = Vec::new();
    let mut k: usize = 0;
    while k < order.len()
        invariant
            order@ == time_order(records@),
            chronological(records@, order@),
            sess == opt_text(*session),
            k <= order@.len(),
            entries_view(r@) == first_n(entries_upto(records@, order@, sess, show_notes, k as int), limit),
        decreases order@.len() - k,
    {
        let ghost p = entries_upto(records@, order@, sess, show_notes, k as int);
        let idx = order[k];
        let entry = classify_record(&records[idx]);
        proof {
            lemma_first_n_push(p, (idx, entry@), limit);
        }
        if keep_entry(&entry, session, show_notes) {
            let room = match limit {
                Some(l) => r.len() < l,
                None => true,
            };
            if room {
                let ghost before = r@;
                r.push((idx, entry));
                assert(entries_view(r@) =~= entries_view(before).push((idx, entry@)));
            }
        }
        k = k + 1;
    }
    r
}

/// Each entry among the first `n` records of `order` comes from one of them,
/// and entries keep the order of `order`.
proof fn lemma_entries_follow_order(
    records: Seq<IntentRecord>,
    order: Seq<usize>,
    session: Option<Seq<char>>,
    show_notes: bool,
    n: int,
)
    requires
        0 <= n <= order.len(),
    ensures
        forall|a: int| 0 <= a < entries_upto(records, order, session, show_notes, n).len() ==>
            exists|k: int| 0 <= k < n && (#[trigger] entries_upto(records, order, session, show_notes, n)[a]).0 == order[k],
        forall|a: int, b: int| 0 <= a < b < entries_upto(records, order, session, show_notes, n).len() ==>
            exists|ka: int, kb: int| 0 <= ka < kb < n
                && (#[trigger] entries_upto(records, order, session, show_notes, n)[a]).0 == order[ka]
                && (#[trigger] entries_upto(records, order, session, show_notes, n)[b]).0 == order[kb],
    decreases n,
{
    if n > 0 {
        lemma_entries_follow_order(records, order, session, show_notes, n - 1);
        let p = entries_upto(records, order, session, show_notes, n - 1);
        let e = entries_upto(records, order, session, show_notes, n);
        assert forall|a: int| 0 <= a < e.len() implies exists|k: int| 0 <= k < n && (#[trigger] e[a]).0 == order[k] by {
            if a < p.len() {
                assert(e[a] == p[a]);
                let k = choose|k: int| 0 <= k < n - 1 && p[a].0 == order[k];
            } else {
                assert(e[a].0 == order[n - 1]);
            }
        }
        assert forall|a: int, b: int| 0 <= a < b < e.len() implies exists|ka: int, kb: int| 0 <= ka < kb < n
            && (#[trigger] e[a]).0 == order[ka] && (#[trigger] e[b]).0 == order[kb] by {
            if b < p.len() {
                assert(e[a] == p[a] && e[b] == p[b]);
                let (ka, kb) = choose|ka: int, kb: int| 0 <= ka < kb < n - 1 && p[a].0 == order[ka] && p[b].0 == order[kb];
            } else {
                assert(e[a] == p[a]);
                assert(e[b].0 == order[n - 1]);
                let ka = choose|k: int| 0 <= k < n - 1 && (#[trigger] p[a]).0 == order[k];
                assert(0 <= ka < n - 1 && e[a].0 == order[ka] && e[b].0 == order[n - 1]);
            }
        }
    }
}

/// The timeline lists its entries oldest first: of any two entries, the
/// first comes from a record added earlier (or in the same second and
/// stored first).
pub proof fn law_timeline_in_time_order(records: Seq<IntentRecord>, session: Option<Seq<char>>, show_notes: bool)
    requires
        records.len() <= usize::MAX,
    ensures
        forall|a: int, b: int| 0 <= a < b < timeline_spec(records, session, show_notes).len() ==>
            earlier(records, #[trigger] timeline_spec(records, session, show_notes)[a].0 as int,
                #[trigger] timeline_spec(records, session, show_notes)[b].0 as int),
{
    let order = time_order(records);
    lemma_chronological_exists(records);
    lemma_entries_follow_order(records, order, session, show_notes, records.len() as int);
    let t = timeline_spec(records, session, show_notes);
    assert forall|a: int, b: int| 0 <= a < b < t.len() implies earlier(records, #[trigger] t[a].0 as int, #[trigger] t[b].0 as int) by {
        let (ka, kb) = choose|ka: int, kb: int| 0 <= ka < kb < records.len() && t[a].0 == order[ka] && t[b].0 == order[kb];
        assert(earlier(records, order[ka] as int, order[kb] as int));
    }
}

/// The first `n` entries of an unfiltered walk over `order` hold, for each
/// of the first `n` positions, its record's entry unless it is a note that
/// is not shown.
proof fn lemma_unfiltered_holds(records: Seq<IntentRecord>, order: Seq<usize>, show_notes: bool, n: int, k: int)
    requires
        0 <= k < n,
        !(classify_spec(records[order[k] as int].text@, tags_of(records[order[k] as int])) is Note) || show_notes,
    ensures
        entries_upto(records, order, None, show_notes, n).contains(
            (order[k], classify_spec(records[order[k] as int].text@, tags_of(records[order[k] as int]))),
        ),
    decreases n,
{
    let x = (order[k], classify_spec(records[order[k] as int].text@, tags_of(records[order[k] as int])));
    let p = entries_upto(records, order, None, show_notes, n - 1);
    if k < n - 1 {
        lemma_unfiltered_holds(records, order, show_notes, n - 1, k);
        let j = choose|j: int| 0 <= j < p.len() && p[j] == x;
        let rec = records[order[n - 1] as int];
        let e = classify_spec(rec.text@, tags_of(rec));
        if keeps_entry(e, None, show_notes) {
            assert(p.push((order[n - 1], e))[j] == x);
        }
    } else {
        assert(p.push(x)[p.len() as int] == x);
    }
}

/// Without a session filter the timeline shows every record's prompt or
/// reply (and its notes when asked for), each with the position of its
/// record: no prompt or reply is left out, whatever session it carries.
pub proof fn law_unfiltered_timeline_keeps_everything(records: Seq<IntentRecord>, show_notes: bool)
    requires
        records.len() <= usize::MAX,
    ensures
        forall|i: usize| (i as int) < records.len() && (!(classify_spec(records[i as int].text@, tags_of(records[i as int])) is Note) || show_notes)
            ==> #[trigger] timeline_spec(records, None, show_notes).contains((i, classify_spec(records[i as int].text@, tags_of(records[i as int])))),
{
    let order = time_order(records);
    lemma_chronological_exists(records);
    assert forall|i: usize| (i as int) < records.len() && (!(classify_spec(records[i as int].text@, tags_of(records[i as int])) is Note) || show_notes)
        implies #[trigger] timeline_spec(records, None, show_notes).contains((i, classify_spec(records[i as int].text@, tags_of(records[i as int])))) by {
        assert(order.contains(i));
        let k = choose|k: int| 0 <= k < order.len() && order[k] == i;
        lemma_unfiltered_holds(records, order, show_notes, records.len() as int, k);
    }
}

/// An entry is in the walk over the first `n` positions of `order` exactly
/// when it is the shown entry of one of those positions.
proof fn lemma_entries_member(
    records: Seq<IntentRecord>,
    order: Seq<usize>,
    session: Option<Seq<char>>,
    show_notes: bool,
    n: int,
    x: (usize, EntryView),
)
    ensures
        entries_upto(records, order, session, show_notes, n).contains(x) <==> exists|k: int|
            0 <= k < n && #[trigger] order[k] == x.0 && x.1 == classify_spec(records[order[k] as int].text@, tags_of(records[order[k] as int]))
                && keeps_entry(x.1, session, show_notes),
    decreases n,
{
    if n > 0 {
        lemma_entries_member(records, order, session, show_notes, n - 1, x);
        let p = entries_upto(records, order, session, show_notes, n - 1);
        let rec = records[order[n - 1] as int];
        let e = classify_spec(rec.text@, tags_of(rec));
        let y = (order[n - 1], e);
        if keeps_entry(e, session, show_notes) {
            if p.push(y).contains(x) {
                let j = choose|j: int| 0 <= j < p.push(y).len() && p.push(y)[j] == x;
                if j < p.len() {
                    assert(p[j] == x);
                    assert(p.contains(x));
                } else {
                    assert(order[n - 1] == x.0);
                }
            }
            if exists|k: int|
                0 <= k < n && #[trigger] order[k] == x.0 && x.1 == classify_spec(records[order[k] as int].text@, tags_of(records[order[k] as int]))
                    && keeps_entry(x.1, session, show_notes) {
                let k = choose|k: int|
                    0 <= k < n && #[trigger] order[k] == x.0 && x.1 == classify_spec(records[order[k] as int].text@, tags_of(records[order[k] as int]))
                        && keeps_entry(x.1, session, show_notes);
                if k < n - 1 {
                    assert(p.contains(x));
                    let j = choose|j: int| 0 <= j < p.len() && p[j] == x;
                    assert(p.push(y)[j] == x);
                } else {
                    assert(x == y);
                    assert(p.push(y)[p.len() as int] == y);
                }
            }
        } else {
            if exists|k: int|
                0 <= k < n && #[trigger] order[k] == x.0 && x.1 == classify_spec(records[order[k] as int].text@, tags_of(records[order[k] as int]))
                    && keeps_entry(x.1, session, show_notes) {
                let k = choose|k: int|
                    0 <= k < n && #[trigger] order[k] == x.0 && x.1 == classify_spec(records[order[k] as int].text@, tags_of(records[order[k] as int]))
                        && keeps_entry(x.1, session, show_notes);
                if k == n - 1 {
                    assert(x.1 == e);
                    assert(false);
                }
            }
        }
    }
}

/// Which entries a timeline shows, each with the position of its record:
/// without a session prefix, every prompt and reply and, when asked for,
/// every note; with one, the prompts and replies whose session id starts
/// with it and the replies that carry no session id, and no note and no
/// prompt without a session id.
pub proof fn law_timeline_members(records: Seq<IntentRecord>, session: Option<Seq<char>>, show_notes: bool, i: usize, e: EntryView)
    requires
        records.len() <= usize::MAX,
    ensures
        timeline_spec(records, session, show_notes).contains((i, e)) <==> {
            &&& (i as int) < records.len()
            &&& e == classify_spec(records[i as int].text@, tags_of(records[i as int]))
            &&& match session {
                None => !(e is Note) || show_notes,
                Some(sid) => match e {
                    EntryView::User(_, Some(s)) => has_prefix(s, sid),
                    EntryView::Claude(_, Some(s)) => has_prefix(s, sid),
                    EntryView::Claude(_, None) => true,
                    _ => false,
                },
            }
        },
{
    let order = time_order(records);
    lemma_chronological_exists(records);
    lemma_entries_member(records, order, session, show_notes, records.len() as int, (i, e));
    if (i as int) < records.len() {
        assert(order.contains(i));
        let k = choose|k: int| 0 <= k < order.len() && order[k] == i;
        assert(order[k] == i);
    }
}

/// Whose entries a timeline view keeps.
#[derive(Debug, Clone, Copy, PartialEq, Eq)]
pub enum Role {
    /// The user's prompts.
    User,
    /// The assistant's replies.
    Reply,
}

/// Entry `e` is one that `role` keeps; without a role every entry is kept.
pub open spec fn role_keeps(role: Option<Role>, e: EntryView) -> bool {
    match role {
        None => true,
        Some(Role::User) => e is User,
        Some(Role::Reply) => e is Claude,
    }
}

/// The entries of `es` that `role` keeps, in order.
pub open spec fn role_kept(es: Seq<(usize, EntryView)>, role: Option<Role>) -> Seq<(usize, EntryView)>
    decreases es.len(),
{
    if es.len() == 0 {
        Seq::empty()
    } else {
        let p = role_kept(es.drop_last(), role);
        if role_keeps(role, es.last().1) {
            p.push(es.last())
        } else {
            p
        }
    }
}

/// Whether `role` keeps `e`.
fn role_admits(role: Option<Role>, e: &TimelineEntry) -> (r: bool)
    ensures
        r == role_keeps(role, e@),
{
    match role {
        None => true,
        Some(Role::User) => match e {
            TimelineEntry::User { .. } => true,
            _ => false,
        },
        Some(Role::Reply) => match e {
            TimelineEntry::Claude { .. } => true,
            _ => false,
        },
    }
}

/// The entries `role` keeps, in order, the first `limit` of them (all
/// without a limit).
pub fn keep_role(entries: Vec<(usize, TimelineEntry)>, role: Option<Role>, limit: Option<usize>) -> (r: Vec<(usize, TimelineEntry)>)
    ensures
        entries_view(r@) == first_n(role_kept(entries_view(entries@), role), limit),
{
    let ghost all = entries_view(entries@);
    let n = entries.len();
    let mut rest = entries;
    let mut stack: Vec<(usize, TimelineEntry)> = Vec::new();
    while rest.len() > 0
        invariant
            n == all.len(),
            stack@.len() + rest@.len() == n,
            forall|j: int| 0 <= j < rest@.len() ==> (#[trigger] rest@[j]).0 == all[j].0 && rest@[j].1@ == all[j].1,
            forall|j: int| 0 <= j < stack@.len() ==> (#[trigger] stack@[j]).0 == all[n - 1 - j].0 && stack@[j].1@ == all[n - 1 - j].1,
        decreases rest@.len(),
    {
        let x = rest.pop().unwrap();
        stack.push(x);
    }
    let mut r: Vec<(usize, TimelineEntry)> = Vec::new();
    let mut i: usize = 0;
    while stack.len() > 0
        invariant
            n == all.len(),
            i + stack@.len() == n,
            forall|j: int| 0 <= j < stack@.len() ==> (#[trigger] stack@[j]).0 == all[n - 1 - j].0 && stack@[j].1@ == all[n - 1 - j].1,
            entries_view(r@) == first_n(role_kept(all.take(i as int), role), limit),
        decreases stack@.len(),
    {
        let x = stack.pop().unwrap();
        proof {
            assert(x.0 == all[i as int].0 && x.1@ == all[i as int].1);
            assert(all.take(i + 1).drop_last() =~= all.take(i as int));
            assert(all.take(i + 1).last() == all[i as int]);
            lemma_first_n_push(role_kept(all.take(i as int), role), all[i as int], limit);
        }
        if role_admits(role, &x.1) {
            let room = match limit {
                Some(l) => r.len() < l,
                None => true,
            };
            if room {
                let ghost before = r@;
                r.push(x);
                proof {
                    assert(entries_view(r@) =~= entries_view(before).push((x.0, x.1@)));
                    assert(all[i as int] == (x.0, x.1@));
                }
            }
        }
        i = i + 1;
    }
    assert(all.take(n as int) =~= all);
    r
}

} // verus!
