use intentdb::api::{
    chat_messages, check_top, clamp_top, context_of, default_limit, default_summarize_top, default_top,
    effective_file, file_extension, group_by_cluster, hnsw_path, internal, not_found, now_secs, summary_prompt,
    validate_tags, validate_text, ApiError,
};
use intentdb::hnsw::Hnsw;
use intentdb::record::IntentRecord;
use intentdb::store::Store;
use intentdb::tools::{AskArgs, ListArgs, SummarizeArgs, TimelineArgs};
use intentdb::transfer::{
    base_url, csv_entries, entries_of_rows, export_csv, export_is_csv, import_format, split_trimmed, text_entries, ImportEntry,
    ImportFormat,
};

fn rec(id: &str, text: &str, vector: Vec<u32>, timestamp: u64, tags: &[&str]) -> IntentRecord {
    IntentRecord {
        id: id.to_string(),
        text: text.to_string(),
        vector,
        timestamp,
        tags: tags.iter().map(|t| t.to_string()).collect(),
    }
}

fn strings(v: &[&str]) -> Vec<String> {
    v.iter().map(|s| s.to_string()).collect()
}

fn l1(a: &Vec<u32>, b: &Vec<u32>) -> u64 {
    a.iter().zip(b.iter()).map(|(x, y)| (*x as i64 - *y as i64).unsigned_abs()).sum()
}

#[test]
fn validate_text_limits() {
    assert_eq!(validate_text("ok"), Ok(()));
    let empty = validate_text("").unwrap_err();
    assert_eq!(empty.status(), 400);
    assert_eq!(empty.message(), "text must not be empty");
    let long = "x".repeat(32_769);
    let too_long = validate_text(&long).unwrap_err();
    assert_eq!(too_long, ApiError::BadRequest("text too long (max 32768 bytes)".to_string()));
    assert_eq!(validate_text(&"x".repeat(32_768)), Ok(()));
}

#[test]
fn validate_tags_limits() {
    assert_eq!(validate_tags(&strings(&["a", "b"])), Ok(()));
    let many: Vec<String> = (0..65).map(|i| i.to_string()).collect();
    assert_eq!(validate_tags(&many), Err(ApiError::BadRequest("too many tags (max 64)".to_string())));
    let long = vec!["y".repeat(257)];
    assert_eq!(validate_tags(&long), Err(ApiError::BadRequest("tag too long (max 256 bytes)".to_string())));
}

#[test]
fn check_top_range() {
    assert_eq!(check_top(1, 100), Ok(()));
    assert_eq!(check_top(100, 100), Ok(()));
    assert_eq!(check_top(0, 100), Err(ApiError::BadRequest("top must be between 1 and 100".to_string())));
    assert_eq!(check_top(201, 200), Err(ApiError::BadRequest("top must be between 1 and 200".to_string())));
}

#[test]
fn errors_for_clients() {
    let nf = not_found("abc");
    assert_eq!(nf.status(), 404);
    assert_eq!(nf.message(), "record not found: abc");
    let unreadable = internal("failed to parse embedding API response: missing field `data`");
    assert_eq!(unreadable.status(), 502);
    assert!(unreadable.message().starts_with("Embedding API error"));
    let unreachable = internal("failed to connect to LLM API: Connection refused");
    assert_eq!(unreachable.status(), 502);
    assert!(unreachable.message().starts_with("Cannot reach embedding/LLM API"));
    let other = internal("disk full");
    assert_eq!(other, ApiError::Internal("disk full".to_string()));
    assert_eq!(other.status(), 500);
}

#[test]
fn context_numbers_lines() {
    let rs = vec![rec("a", "first", vec![], 0, &[]), rec("b", "second", vec![], 0, &[]), rec("c", "third", vec![], 0, &[])];
    assert_eq!(context_of(&rs, &vec![2, 0]), "[1] third\n[2] first");
    assert_eq!(context_of(&rs, &vec![]), "");
}

#[test]
fn prompts_for_the_model() {
    assert_eq!(
        summary_prompt(&None),
        "Summarize the following records about the stored records. Identify key themes, patterns, and notable items. Be concise but comprehensive."
    );
    assert_eq!(
        summary_prompt(&Some("billing".to_string())),
        "Summarize the following records about billing. Identify key themes, patterns, and notable items. Be concise but comprehensive."
    );
    let msgs = chat_messages("why?", "[1] because");
    assert_eq!(msgs.len(), 2);
    assert_eq!(msgs[0].0, "system");
    assert_eq!(
        msgs[0].1,
        "You are a helpful assistant. Answer the question based solely on the provided context. If the answer is not in the context, say so clearly."
    );
    assert_eq!(msgs[1], ("user".to_string(), "Context:\n[1] because\n\nQuestion: why?".to_string()));
}

#[test]
fn defaults_and_clamping() {
    assert_eq!(default_top(), 5);
    assert_eq!(default_summarize_top(), 20);
    assert_eq!(default_limit(), 50);
    assert_eq!(clamp_top(0, 20), 1);
    assert_eq!(clamp_top(7, 20), 7);
    assert_eq!(clamp_top(500, 100), 100);
    assert_eq!(AskArgs { question: "q".to_string(), top: 99 }.sources_wanted(), 20);
}

#[test]
fn cluster_groups_keep_order() {
    let groups = group_by_cluster(&vec![1, 0, 1, 2, 0], 4);
    assert_eq!(groups, vec![vec![1, 4], vec![0, 2], vec![3], vec![]]);
}

#[test]
fn file_locations() {
    assert_eq!(hnsw_path("data.idb"), "data.hnsw");
    assert_eq!(hnsw_path("/tmp/x/notes.idb"), "/tmp/x/notes.hnsw");
    assert_eq!(effective_file("dir/data.idb", ""), "dir/data.idb");
    assert_eq!(effective_file("dir/data.idb", "work"), "dir/work.idb");
    assert_eq!(effective_file("data.idb", "work"), "work.idb");
    assert_eq!(file_extension("a/b.CSV"), Some("CSV".to_string()));
    assert_eq!(file_extension("noext"), None);
    assert!(now_secs().unwrap() > 1_600_000_000);
}

#[test]
fn tool_selections() {
    let rs = vec![
        rec("a", "t", vec![], 1, &["x"]),
        rec("b", "t", vec![], 2, &[]),
        rec("c", "t", vec![], 3, &["x"]),
        rec("d", r#"{"hook_event_name":"UserPromptSubmit","prompt":"p","session_id":"s"}"#, vec![], 0, &[]),
    ];
    assert_eq!(ListArgs { tags: strings(&["x"]), limit: 50 }.select(&rs), vec![2, 0]);
    assert_eq!(ListArgs { tags: vec![], limit: 2 }.select(&rs), vec![2, 1]);
    assert_eq!(ListArgs { tags: vec![], limit: 9 }.select(&rs), vec![2, 1, 0, 3]);
    assert_eq!(SummarizeArgs { topic: None, tags: vec![], top: 2 }.select(&rs), vec![0, 1]);
    let entries = TimelineArgs { session: Some("s".to_string()), limit: 10 }.entries(&rs);
    assert_eq!(entries.len(), 1);
    assert_eq!(entries[0].0, 3);
}

#[test]
fn text_and_csv_imports() {
    let entries = text_entries("  first line \r\n\n second\n   \nthird");
    let texts: Vec<String> = entries.iter().map(|e| e.text.clone()).collect();
    assert_eq!(texts, strings(&["first line", "second", "third"]));
    assert!(entries.iter().all(|e| e.tags.is_empty()));
    assert_eq!(split_trimmed(" a, b ,,c ", ','), strings(&["a", "b", "c"]));
    let csv = "text,tags\nhello ,\"a, b\"\n ,x\n\"quoted \"\"text\"\"\",\n";
    let parsed = csv_entries(csv).unwrap();
    assert_eq!(
        parsed,
        vec![
            ImportEntry { text: "hello".to_string(), tags: strings(&["a", "b"]) },
            ImportEntry { text: "quoted \"text\"".to_string(), tags: vec![] },
        ]
    );
    assert!(csv_entries("a,b\n1,2\n3\n").is_err());
}

#[test]
fn rows_give_entries() {
    let rows = vec![strings(&[" t1 ", "x, y"]), strings(&["  "]), strings(&["t2"]), vec![]];
    assert_eq!(
        entries_of_rows(&rows),
        vec![
            ImportEntry { text: "t1".to_string(), tags: strings(&["x", "y"]) },
            ImportEntry { text: "t2".to_string(), tags: vec![] },
        ]
    );
}

#[test]
fn csv_export_quotes_fields() {
    let rs = vec![rec("id1", "say \"hi\"", vec![1], 42, &["a", "b\"c"]), rec("id2", "plain", vec![], 0, &[])];
    assert_eq!(
        export_csv(&rs),
        "id,text,tags,timestamp\n\"id1\",\"say \"\"hi\"\"\",\"a,b\"\"c\",42\n\"id2\",\"plain\",\"\",0\n"
    );
    assert_eq!(export_csv(&vec![]), "id,text,tags,timestamp\n");
}

#[test]
fn format_choices() {
    assert_eq!(import_format(&Some("JSON".to_string()), false, &None), ImportFormat::Json);
    assert_eq!(import_format(&None, false, &Some("Csv".to_string())), ImportFormat::Csv);
    assert_eq!(import_format(&None, true, &Some("csv".to_string())), ImportFormat::Text);
    assert_eq!(import_format(&None, false, &None), ImportFormat::Text);
    assert_eq!(import_format(&Some("yaml".to_string()), false, &None), ImportFormat::Text);
    assert!(export_is_csv("CSV"));
    assert!(!export_is_csv("json"));
    assert_eq!(base_url("http://host:3000//"), "http://host:3000");
    assert_eq!(base_url("http://host"), "http://host");
}

#[test]
fn store_keeps_index_in_step() {
    let levels = vec![0usize; 16];
    let records = vec![rec("aa1", "one", vec![0, 0], 1, &["x"]), rec("bb2", "two", vec![9, 9], 2, &[])];
    let (mut store, rebuilt) = Store::open(records, Hnsw::new(), &levels, &l1);
    assert!(rebuilt);
    assert_eq!(store.len(), 2);
    assert_eq!(store.index().len(), 2);
    store.put(rec("cc3", "three", vec![5, 5], 3, &[]), 1, &l1);
    assert_eq!(store.len(), 3);
    assert_eq!(store.index().len(), 3);
    let hits = store.index().search(&vec![5, 5], 1, 50, &l1);
    assert_eq!(hits, vec![(0, "cc3".to_string())]);

    let updated = store.update_prefix("bb", "TWO".to_string(), vec![8, 8], vec![], 7, &levels, &l1);
    assert_eq!(updated, Some(1));
    assert_eq!(store.records()[1].text, "TWO");
    assert_eq!(store.records()[1].tags, Vec::<String>::new());
    assert_eq!(store.records()[1].timestamp, 7);
    assert_eq!(store.update_prefix("zz", "x".to_string(), vec![], vec![], 0, &levels, &l1), None);

    assert_eq!(store.delete_prefix("aa", &levels, &l1), 1);
    assert_eq!(store.len(), 2);
    assert!(store.records().iter().all(|r| !r.id.starts_with("aa")));
    assert_eq!(store.index().len(), 2);
    assert_eq!(store.delete_prefix("nothing", &levels, &l1), 0);

    let incoming = vec![rec("cc3", "dup", vec![], 0, &[]), rec("dd4", "four", vec![1, 1], 4, &[])];
    assert_eq!(store.import(incoming.clone(), &levels, &l1), 1);
    assert_eq!(store.len(), 3);
    assert_eq!(store.import(incoming.clone(), &levels, &l1), 0);
    assert_eq!(store.pull(incoming, &levels, &l1), 0);
    assert_eq!(store.pull(vec![rec("ee5", "five", vec![2, 2], 5, &[])], &levels, &l1), 1);
    assert_eq!(store.len(), 4);
    assert_eq!(store.index().len(), 4);

    let loaded = Hnsw::load(&store.index().save()).unwrap();
    let (reopened, rebuilt) = Store::open(store.records().clone(), loaded, &levels, &l1);
    assert!(!rebuilt);
    assert_eq!(reopened.len(), 4);
}
