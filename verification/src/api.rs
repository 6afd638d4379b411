//! What the HTTP, MCP and command-line front ends share: request checks and
//! their errors, the text sent to the language model, defaults, and file
//! locations.
use vstd::prelude::*;
use crate::codec::utf8_of;
use crate::record::IntentRecord;
use crate::query::opt_text;
use crate::text::{texts_of, contains, decimal, push_all, push_decimal};

verus! {

/// Longest text a request may carry, in bytes.
pub const MAX_INPUT_TEXT: usize = 32768;
/// Longest tag a request may carry, in bytes.
pub const MAX_TAG_INPUT: usize = 256;
/// Most tags a request may carry.
pub const MAX_TAGS_COUNT: usize = 64;

/// An error answered to a request, with its message.
#[derive(Debug, Clone, PartialEq, Eq)]
pub enum ApiError {
    BadRequest(String),
    NotFound(String),
    BadGateway(String),
    Internal(String),
}

/// An error as its HTTP status and message.
pub open spec fn error_view(e: ApiError) -> (u16, Seq<char>) {
    match e {
        ApiError::BadRequest(m) => (400, m@),
        ApiError::NotFound(m) => (404, m@),
        ApiError::BadGateway(m) => (502, m@),
        ApiError::Internal(m) => (500, m@),
    }
}

impl ApiError {
    /// The HTTP status of the error.
    pub fn status(&self) -> (r: u16)
        ensures
            r == error_view(*self).0,
    {
        match self {
            ApiError::BadRequest(_) => 400,
            ApiError::NotFound(_) => 404,
            ApiError::BadGateway(_) => 502,
            ApiError::Internal(_) => 500,
        }
    }

    /// The message of the error.
    pub fn message(&self) -> (r: String)
        ensures
            r@ == error_view(*self).1,
    {
        match self {
            ApiError::BadRequest(m) => m.clone(),
            ApiError::NotFound(m) => m.clone(),
            ApiError::BadGateway(m) => m.clone(),
            ApiError::Internal(m) => m.clone(),
        }
    }
}

/// The answer to a text field: empty texts and texts over the byte limit
/// are refused.
pub open spec fn text_check(text: Seq<char>) -> Result<(), (u16, Seq<char>)> {
    if text.len() == 0 {
        Err((400, "text must not be empty"@))
    } else if utf8_of(text).len() > MAX_INPUT_TEXT {
        Err((400, "text too long (max "@ + decimal(MAX_INPUT_TEXT as nat) + " bytes)"@))
    } else {
        Ok(())
    }
}

/// An error result as its status and message.
pub open spec fn check_view(r: Result<(), ApiError>) -> Result<(), (u16, Seq<char>)> {
    match r {
        Ok(()) => Ok(()),
        Err(e) => Err(error_view(e)),
    }
}

/// Refuses an empty text or one longer than the byte limit.
pub fn validate_text(text: &str) -> (r: Result<(), ApiError>)
    ensures
        check_view(r) == text_check(text@),
{
    if text.is_empty() {
        return Err(ApiError::BadRequest(String::from_str("text must not be empty")));
    }
    if text.as_bytes().len() > MAX_INPUT_TEXT {
        let mut m = String::from_str("text too long (max ");
        push_decimal(&mut m, MAX_INPUT_TEXT as u64);
        push_all(&mut m, " bytes)");
        return Err(ApiError::BadRequest(m));
    }
    Ok(())
}

/// The answer to a tag list: too many tags, or a tag over the byte limit,
/// are refused.
pub open spec fn tags_check(tags: Seq<Seq<char>>) -> Result<(), (u16, Seq<char>)> {
    if tags.len() > MAX_TAGS_COUNT {
        Err((400, "too many tags (max "@ + decimal(MAX_TAGS_COUNT as nat) + ")"@))
    } else if exists|i: int| 0 <= i < tags.len() && utf8_of(#[trigger] tags[i]).len() > MAX_TAG_INPUT {
        Err((400, "tag too long (max "@ + decimal(MAX_TAG_INPUT as nat) + " bytes)"@))
    } else {
        Ok(())
    }
}

/// Refuses too many tags or a tag longer than the byte limit.
pub fn validate_tags(tags: &Vec<String>) -> (r: Result<(), ApiError>)
    ensures
        check_view(r) == tags_check(texts_of(tags@)),
{
    if tags.len() > MAX_TAGS_COUNT {
        let mut m = String::from_str("too many tags (max ");
        push_decimal(&mut m, MAX_TAGS_COUNT as u64);
        push_all(&mut m, ")");
        return Err(ApiError::BadRequest(m));
    }
    let mut i: usize = 0;
    while i < tags.len()
        invariant
            i <= tags@.len(),
            tags@.len() <= MAX_TAGS_COUNT,
            forall|j: int| 0 <= j < i ==> utf8_of(#[trigger] texts_of(tags@)[j]).len() <= MAX_TAG_INPUT,
        decreases tags@.len() - i,
    {
        if tags[i].as_str().as_bytes().len() > MAX_TAG_INPUT {
            assert(utf8_of(texts_of(tags@)[i as int]).len() > MAX_TAG_INPUT);
            let mut m = String::from_str("tag too long (max ");
            push_decimal(&mut m, MAX_TAG_INPUT as u64);
            push_all(&mut m, " bytes)");
            return Err(ApiError::BadRequest(m));
        }
        i = i + 1;
    }
    Ok(())
}

/// The answer to a requested result count: it must lie in `1..=max`.
pub open spec fn top_check(top: usize, max: usize) -> Result<(), (u16, Seq<char>)> {
    if top == 0 || top > max {
        Err((400, "top must be between 1 and "@ + decimal(max as nat)))
    } else {
        Ok(())
    }
}

/// Refuses a result count outside `1..=max`.
pub fn check_top(top: usize, max: usize) -> (r: Result<(), ApiError>)
    ensures
        check_view(r) == top_check(top, max),
{
    if top == 0 || top > max {
        let mut m = String::from_str("top must be between 1 and ");
        push_decimal(&mut m, max as u64);
        return Err(ApiError::BadRequest(m));
    }
    Ok(())
}

/// The error for an id that matches no record.
pub fn not_found(id: &str) -> (r: ApiError)
    ensures
        error_view(r) == (404u16, "record not found: "@ + id@),
{
    let mut m = String::from_str("record not found: ");
    push_all(&mut m, id);
    ApiError::NotFound(m)
}

/// The hint given when the embedding or language model service answered
/// something unreadable.
pub open spec fn unreadable_hint() -> Seq<char> {
    "Embedding API error \u{2014} check that OPENAI_API_KEY is set, or configure --embedding-url / --llm-url for Ollama"@
}

/// The hint given when the embedding or language model service could not
/// be reached.
pub open spec fn unreachable_hint() -> Seq<char> {
    "Cannot reach embedding/LLM API \u{2014} is OPENAI_API_KEY set? For Ollama, is `ollama serve` running?"@
}

/// How a failure with message `msg` is answered: unreadable or unreachable
/// model services get a 502 with a hint, anything else a 500 with the
/// message itself.
pub open spec fn failure_view(msg: Seq<char>) -> (u16, Seq<char>) {
    if crate::text::has_substring(msg, "missing field `data`"@) || crate::text::has_substring(msg, "parse embedding"@)
        || crate::text::has_substring(msg, "parse LLM"@) {
        (502, unreadable_hint())
    } else if crate::text::has_substring(msg, "connect to embedding"@) || crate::text::has_substring(msg, "connect to LLM"@)
        || crate::text::has_substring(msg, "Connection refused"@) {
        (502, unreachable_hint())
    } else {
        (500, msg)
    }
}

/// Turns an internal failure (its full message, causes included) into the
/// error answered to the client.
pub fn internal(msg: &str) -> (r: ApiError)
    ensures
        error_view(r) == failure_view(msg@),
{
    if contains(msg, "missing field `data`") || contains(msg, "parse embedding") || contains(msg, "parse LLM") {
        return ApiError::BadGateway(String::from_str(
            "Embedding API error \u{2014} check that OPENAI_API_KEY is set, or configure --embedding-url / --llm-url for Ollama",
        ));
    }
    if contains(msg, "connect to embedding") || contains(msg, "connect to LLM") || contains(msg, "Connection refused") {
        return ApiError::BadGateway(String::from_str(
            "Cannot reach embedding/LLM API \u{2014} is OPENAI_API_KEY set? For Ollama, is `ollama serve` running?",
        ));
    }
    ApiError::Internal(String::from_str(msg))
}

/// Line `k` (counted from 1) of a context: `[k] text`.
pub open spec fn context_line(k: nat, text: Seq<char>) -> Seq<char> {
    "["@ + decimal(k) + "] "@ + text
}

/// The context made of the first `n` chosen records: their numbered lines,
/// joined by newlines.
pub open spec fn context_upto(records: Seq<IntentRecord>, picks: Seq<usize>, n: int) -> Seq<char>
    decreases n,
{
    if n <= 0 {
        Seq::empty()
    } else if n == 1 {
        context_line(1, records[picks[0] as int].text@)
    } else {
        context_upto(records, picks, n - 1) + "\n"@ + context_line(n as nat, records[picks[n - 1] as int].text@)
    }
}

/// The context handed to the language model: the chosen records' texts,
/// numbered from 1, one per line.
pub fn context_of(records: &Vec<IntentRecord>, picks: &Vec<usize>) -> (r: String)
    requires
        forall|k: int| 0 <= k < picks@.len() ==> (#[trigger] picks@[k]) < records@.len(),
        picks@.len() < u64::MAX,
    ensures
        r@ == context_upto(records@, picks@, picks@.len() as int),
{
    let mut r = String::new();
    let mut k: usize = 0;
    while k < picks.len()
        invariant
            forall|j: int| 0 <= j < picks@.len() ==> (#[trigger] picks@[j]) < records@.len(),
            picks@.len() < u64::MAX,
            k <= picks@.len(),
            r@ == context_upto(records@, picks@, k as int),
        decreases picks@.len() - k,
    {
        let ghost start = r@;
        if k > 0 {
            push_all(&mut r, "\n");
        }
        push_all(&mut r, "[");
        push_decimal(&mut r, (k + 1) as u64);
        push_all(&mut r, "] ");
        push_all(&mut r, records[picks[k]].text.as_str());
        assert(r@ =~= context_upto(records@, picks@, k + 1));
        k = k + 1;
    }
    r
}

/// The instruction asking for a summary about `topic`.
pub open spec fn summary_prompt_spec(topic: Seq<char>) -> Seq<char> {
    "Summarize the following records about "@ + topic
        + ". Identify key themes, patterns, and notable items. Be concise but comprehensive."@
}

/// The summary instruction, about the topic given or about "the stored
/// records".
pub fn summary_prompt(topic: &Option<String>) -> (r: String)
    ensures
        r@ == summary_prompt_spec(match *topic {
            Some(t) => t@,
            None => "the stored records"@,
        }),
{
    let mut r = String::from_str("Summarize the following records about ");
    match topic {
        Some(t) => push_all(&mut r, t.as_str()),
        None => push_all(&mut r, "the stored records"),
    }
    push_all(&mut r, ". Identify key themes, patterns, and notable items. Be concise but comprehensive.");
    r
}

/// The system instruction of a question to the language model.
pub open spec fn system_prompt() -> Seq<char> {
    "You are a helpful assistant. Answer the question based solely on the provided context. If the answer is not in the context, say so clearly."@
}

/// The user message of a question: the context, then the question.
pub open spec fn user_message(context: Seq<char>, question: Seq<char>) -> Seq<char> {
    "Context:\n"@ + context + "\n\nQuestion: "@ + question
}

/// The chat messages (role, content) that put a question with its context
/// to the language model.
pub fn chat_messages(question: &str, context: &str) -> (r: Vec<(String, String)>)
    ensures
        r@.len() == 2,
        r@[0].0@ == "system"@ && r@[0].1@ == system_prompt(),
        r@[1].0@ == "user"@ && r@[1].1@ == user_message(context@, question@),
{
    let system = String::from_str(
        "You are a helpful assistant. Answer the question based solely on the provided context. If the answer is not in the context, say so clearly.",
    );
    let mut user = String::from_str("Context:\n");
    push_all(&mut user, context);
    push_all(&mut user, "\n\nQuestion: ");
    push_all(&mut user, question);
    let mut r: Vec<(String, String)> = Vec::new();
    r.push((String::from_str("system"), system));
    r.push((String::from_str("user"), user));
    r
}

/// Default number of search, ask and related results.
pub fn default_top() -> (r: usize)
    ensures
        r == 5,
{
    5
}

/// Default number of records a summary reads.
pub fn default_summarize_top() -> (r: usize)
    ensures
        r == 20,
{
    20
}

/// Default number of entries a list or timeline tool returns.
pub fn default_limit() -> (r: usize)
    ensures
        r == 50,
{
    50
}

/// `top` brought into `1..=max`.
pub fn clamp_top(top: usize, max: usize) -> (r: usize)
    requires
        max >= 1,
    ensures
        r == if top < 1 { 1 } else if top > max { max } else { top },
{
    if top < 1 {
        1
    } else if top > max {
        max
    } else {
        top
    }
}

/// Positions `i < n` whose cluster is `c`, in order.
pub open spec fn members(assign: Seq<usize>, c: usize, n: int) -> Seq<usize>
    decreases n,
{
    if n <= 0 {
        Seq::empty()
    } else if assign[n - 1] == c {
        members(assign, c, n - 1).push((n - 1) as usize)
    } else {
        members(assign, c, n - 1)
    }
}

/// Groups positions by their cluster: group `c` lists, in order, the
/// positions assigned to cluster `c`.
pub fn group_by_cluster(assign: &Vec<usize>, k: usize) -> (r: Vec<Vec<usize>>)
    requires
        forall|i: int| 0 <= i < assign@.len() ==> (#[trigger] assign@[i]) < k,
    ensures
        r@.len() == k,
        forall|c: int| 0 <= c < k ==> (#[trigger] r@[c])@ == members(assign@, c as usize, assign@.len() as int),
{
    let mut groups: Vec<Vec<usize>> = Vec::new();
    let mut c: usize = 0;
    while c < k
        invariant
            c <= k,
            groups@.len() == c,
            forall|d: int| 0 <= d < c ==> (#[trigger] groups@[d])@ == members(assign@, d as usize, assign@.len() as int),
        decreases k - c,
    {
        let mut g: Vec<usize> = Vec::new();
        let mut i: usize = 0;
        while i < assign.len()
            invariant
                i <= assign@.len(),
                g@ == members(assign@, c, i as int),
            decreases assign@.len() - i,
        {
            if assign[i] == c {
                g.push(i);
            }
            i = i + 1;
        }
        groups.push(g);
        c = c + 1;
    }
    groups
}

/// The path `Path::with_extension` makes of `path` with extension `ext`,
/// following the path rules of the target the crate is built for.
pub uninterp spec fn with_extension(path: Seq<char>, ext: Seq<char>) -> Seq<char>;

/// Changes the extension of a path with `Path::with_extension`. The
/// contract names the result as a function of the two arguments; the path
/// rules it follows are not stated. `Path::with_extension` panics on an
/// extension that holds a path separator, so none may be passed.
#[verifier::external_body]
fn path_with_extension(path: &str, ext: &str) -> (r: String)
    requires
        !ext@.contains('/'),
        !ext@.contains('\\'),
    ensures
        r@ == with_extension(path@, ext@),
{
    std::path::Path::new(path).with_extension(ext).to_string_lossy().into_owned()
}

/// The directory part `Path::parent` finds in `path` (`None` for a root or
/// an empty path), following the path rules of the target the crate is
/// built for.
pub uninterp spec fn parent_of(path: Seq<char>) -> Option<Seq<char>>;

/// The directory part of a path with `Path::parent`. The contract names the
/// result as a function of the path; the path rules it follows are not
/// stated.
#[verifier::external_body]
fn path_parent(path: &str) -> (r: Option<String>)
    ensures
        opt_text(r) == parent_of(path@),
{
    std::path::Path::new(path).parent().map(|p| p.to_string_lossy().into_owned())
}

/// The path `Path::join` makes of `name` under the directory `dir`,
/// following the path rules of the target the crate is built for.
pub uninterp spec fn joined(dir: Seq<char>, name: Seq<char>) -> Seq<char>;

/// A path under a directory with `Path::join`. The contract names the result
/// as a function of the two arguments; the path rules it follows are not
/// stated.
#[verifier::external_body]
fn path_join(dir: &str, name: &str) -> (r: String)
    ensures
        r@ == joined(dir@, name@),
{
    std::path::Path::new(dir).join(name).to_string_lossy().into_owned()
}

/// The extension `Path::extension` finds in `path` (`None` when it finds
/// none), following the path rules of the target the crate is built for.
pub uninterp spec fn extension_of(path: Seq<char>) -> Option<Seq<char>>;

/// The extension of a path with `Path::extension`. The contract names the
/// result as a function of the path; the path rules it follows are not
/// stated.
#[verifier::external_body]
fn path_extension(path: &str) -> (r: Option<String>)
    ensures
        opt_text(r) == extension_of(path@),
{
    std::path::Path::new(path).extension().and_then(|e| e.to_str()).map(|e| e.to_string())
}

/// Where the index of a database file is kept: the same path with the
/// extension `hnsw`.
pub fn hnsw_path(db_path: &str) -> (r: String)
    ensures
        r@ == with_extension(db_path@, "hnsw"@),
{
    proof {
        reveal_strlit("hnsw");
    }
    path_with_extension(db_path, "hnsw")
}

/// The directory a namespace file goes in: the directory part of `file`,
/// or the current directory when it has none.
pub open spec fn dir_or_current(file: Seq<char>) -> Seq<char> {
    match parent_of(file) {
        Some(d) => d,
        None => "."@,
    }
}

/// The database file to use: `file` itself without a namespace, else
/// `<ns>.idb` in the directory of `file` (the current one when it has
/// none).
pub fn effective_file(file: &str, ns: &str) -> (r: String)
    ensures
        ns@.len() == 0 ==> r@ == file@,
        ns@.len() > 0 ==> r@ == joined(dir_or_current(file@), ns@ + ".idb"@),
{
    if ns.is_empty() {
        return String::from_str(file);
    }
    let dir = match path_parent(file) {
        Some(d) => d,
        None => String::from_str("."),
    };
    let mut name = String::from_str(ns);
    push_all(&mut name, ".idb");
    path_join(dir.as_str(), name.as_str())
}

/// The extension of a file name, when it has one.
pub fn file_extension(path: &str) -> (r: Option<String>)
    ensures
        opt_text(r) == extension_of(path@),
{
    path_extension(path)
}

/// Reads the system clock: seconds since the Unix epoch, `None` when the
/// clock is set before it.
#[verifier::external_body]
fn clock_secs() -> (r: Option<u64>) {
    match std::time::SystemTime::now().duration_since(std::time::UNIX_EPOCH) {
        Ok(d) => Some(d.as_secs()),
        Err(_) => None,
    }
}

/// The current time in seconds since the Unix epoch (`None` when the clock
/// is set before the epoch). Nothing is stated of the value: it is the
/// clock's.
pub fn now_secs() -> (r: Option<u64>) {
    clock_secs()
}

} // verus!
