//! Arguments of the assistant tools, and the records each tool picks.
use vstd::prelude::*;
use crate::record::IntentRecord;
use crate::query::{RecordFilter, pick_records, newest_records, picks, kept_in, first_n, opt_text};
use crate::timeline::{TimelineEntry, timeline, timeline_spec, entries_view, time_order};
use crate::store::copy_strings;
use crate::text::texts_of;
use crate::api::clamp_top;

verus! {

/// Arguments of the `put` tool: the text to store and its tags.
pub struct PutArgs {
    pub text: String,
    pub tags: Vec<String>,
}

/// Arguments of the `ask` tool: the question and how many records to use.
pub struct AskArgs {
    pub question: String,
    pub top: usize,
}

/// Arguments of the `list` tool: a tag filter and the most records to return.
pub struct ListArgs {
    pub tags: Vec<String>,
    pub limit: usize,
}

/// Arguments of the `summarize` tool: an optional topic, a tag filter and
/// the most records to read.
pub struct SummarizeArgs {
    pub topic: Option<String>,
    pub tags: Vec<String>,
    pub top: usize,
}

/// Arguments of the `timeline` tool: an optional session-id prefix and the
/// most entries to return.
pub struct TimelineArgs {
    pub session: Option<String>,
    pub limit: usize,
}

fn tag_only(tags: &Vec<String>) -> (r: RecordFilter)
    ensures
        r@ == (texts_of(tags@), None::<u64>, None::<u64>),
{
    RecordFilter { tags: copy_strings(tags), before: None, after: None }
}

impl AskArgs {
    /// How many records the question uses: `top` brought into `1..=20`.
    pub fn sources_wanted(&self) -> (r: usize)
        ensures
            r == if self.top < 1 { 1 } else if self.top > 20 { 20 } else { self.top },
    {
        clamp_top(self.top, 20)
    }
}

impl ListArgs {
    /// The records listed: those with all the tags, newest first (by
    /// timestamp), at most `limit` of them.
    pub fn select(&self, records: &Vec<IntentRecord>) -> (r: Vec<usize>)
        ensures
            r@ == first_n(kept_in(records@, (texts_of(self.tags@), None, None), time_order(records@).reverse()), Some(self.limit)),
    {
        let f = tag_only(&self.tags);
        newest_records(records, &f, self.limit)
    }
}

impl SummarizeArgs {
    /// The records summarized: the first `top` stored records with all the tags.
    pub fn select(&self, records: &Vec<IntentRecord>) -> (r: Vec<usize>)
        ensures
            r@ == first_n(picks(records@, (texts_of(self.tags@), None, None)), Some(self.top)),
    {
        let f = tag_only(&self.tags);
        pick_records(records, &f, Some(self.top))
    }
}

impl TimelineArgs {
    /// The timeline entries returned: prompts and replies (no notes) of
    /// the session, oldest first, at most `limit` of them.
    pub fn entries(&self, records: &Vec<IntentRecord>) -> (r: Vec<(usize, TimelineEntry)>)
        ensures
            entries_view(r@) == first_n(timeline_spec(records@, opt_text(self.session), false), Some(self.limit)),
    {
        timeline(records, &self.session, false, Some(self.limit))
    }
}

} // verus!
