use intentdb::dedup::{duplicate_pairs, remove_duplicates, DupPair};
use intentdb::query::{find_last_id, matches_tags, newest_records, pick_hits, pick_records, RecordFilter};
use intentdb::record::IntentRecord;
use intentdb::timeline::{by_time, classify_fields, classify_record, keep_entry, keep_role, timeline, Role, TimelineEntry};

fn rec(id: &str, text: &str, timestamp: u64, tags: &[&str]) -> IntentRecord {
    IntentRecord {
        id: id.to_string(),
        text: text.to_string(),
        vector: vec![],
        timestamp,
        tags: tags.iter().map(|t| t.to_string()).collect(),
    }
}

fn strings(v: &[&str]) -> Vec<String> {
    v.iter().map(|s| s.to_string()).collect()
}

fn filter(tags: &[&str], before: Option<u64>, after: Option<u64>) -> RecordFilter {
    RecordFilter { tags: strings(tags), before, after }
}

fn sample() -> Vec<IntentRecord> {
    vec![
        rec("r0", "zero", 10, &["work"]),
        rec("r1", "one", 20, &["work", "urgent"]),
        rec("r2", "two", 30, &[]),
        rec("r3", "three", 40, &["urgent", "work"]),
        rec("r4", "four", 50, &["home"]),
    ]
}

#[test]
fn matches_tags_needs_every_tag() {
    let r = rec("x", "t", 0, &["a", "b"]);
    assert!(matches_tags(&r, &strings(&[])));
    assert!(matches_tags(&r, &strings(&["b"])));
    assert!(matches_tags(&r, &strings(&["b", "a"])));
    assert!(!matches_tags(&r, &strings(&["a", "c"])));
}

#[test]
fn pick_records_by_tags_and_window() {
    let rs = sample();
    assert_eq!(pick_records(&rs, &filter(&["work"], None, None), None), vec![0, 1, 3]);
    assert_eq!(pick_records(&rs, &filter(&["work", "urgent"], None, None), None), vec![1, 3]);
    assert_eq!(pick_records(&rs, &filter(&[], Some(30), None), None), vec![0, 1]);
    assert_eq!(pick_records(&rs, &filter(&[], None, Some(30)), None), vec![2, 3, 4]);
    assert_eq!(pick_records(&rs, &filter(&[], Some(50), Some(20)), None), vec![1, 2, 3]);
    assert_eq!(pick_records(&rs, &filter(&[], None, None), Some(2)), vec![0, 1]);
    assert_eq!(pick_records(&rs, &filter(&["none"], None, None), Some(2)), Vec::<usize>::new());
}

#[test]
fn newest_records_reverse_then_limit() {
    let rs = sample();
    assert_eq!(newest_records(&rs, &filter(&["work"], None, None), 2), vec![3, 1]);
    assert_eq!(newest_records(&rs, &filter(&[], None, None), 50), vec![4, 3, 2, 1, 0]);
    assert_eq!(newest_records(&rs, &filter(&[], None, None), 0), Vec::<usize>::new());
}

#[test]
fn newest_records_follow_timestamps_not_storage() {
    let rs = vec![
        rec("a", "t", 50, &["w"]),
        rec("b", "t", 10, &["w"]),
        rec("c", "t", 50, &[]),
        rec("d", "t", 30, &["w"]),
    ];
    assert_eq!(newest_records(&rs, &filter(&[], None, None), 10), vec![2, 0, 3, 1]);
    assert_eq!(newest_records(&rs, &filter(&["w"], None, None), 2), vec![0, 3]);
}

#[test]
fn find_last_id_takes_the_last_duplicate() {
    let rs = vec![rec("a", "1", 0, &[]), rec("b", "2", 0, &[]), rec("a", "3", 0, &[])];
    assert_eq!(find_last_id(&rs, &"a".to_string()), Some(2));
    assert_eq!(find_last_id(&rs, &"b".to_string()), Some(1));
    assert_eq!(find_last_id(&rs, &"c".to_string()), None);
}

#[test]
fn pick_hits_resolves_filters_excludes_and_limits() {
    let rs = sample();
    let hits: Vec<(u64, String)> = vec![
        (1, "r3".to_string()),
        (2, "gone".to_string()),
        (3, "r0".to_string()),
        (4, "r4".to_string()),
        (5, "r1".to_string()),
    ];
    let all = filter(&[], None, None);
    assert_eq!(pick_hits(&rs, &hits, &all, &None, None), vec![(1, 3), (3, 0), (4, 4), (5, 1)]);
    assert_eq!(pick_hits(&rs, &hits, &filter(&["work"], None, None), &None, None), vec![(1, 3), (3, 0), (5, 1)]);
    assert_eq!(pick_hits(&rs, &hits, &all, &Some("r3".to_string()), Some(2)), vec![(3, 0), (4, 4)]);
    assert_eq!(pick_hits(&rs, &hits, &filter(&[], Some(45), Some(15)), &None, None), vec![(1, 3), (5, 1)]);
}

#[test]
fn classify_prompts_replies_and_notes() {
    let prompt = rec("p", r#"{"hook_event_name":"UserPromptSubmit","prompt":"hi there","session_id":"s-123"}"#, 0, &[]);
    assert_eq!(
        classify_record(&prompt),
        TimelineEntry::User { prompt: "hi there".to_string(), session_id: Some("s-123".to_string()) }
    );
    let no_prompt = rec("p", r#"{"hook_event_name":"UserPromptSubmit"}"#, 0, &[]);
    assert_eq!(
        classify_record(&no_prompt),
        TimelineEntry::User { prompt: "<no prompt>".to_string(), session_id: None }
    );
    let stop = rec("c", r#"{"hook_event_name":"Stop","response":"done","session_id":"s-9"}"#, 0, &["response"]);
    assert_eq!(
        classify_record(&stop),
        TimelineEntry::Claude { text: stop.text.clone(), session_id: Some("s-9".to_string()) }
    );
    let stop_empty = rec("c", r#"{"hook_event_name":"Stop"}"#, 0, &["response"]);
    assert_eq!(classify_record(&stop_empty), TimelineEntry::Claude { text: stop_empty.text.clone(), session_id: None });
    let legacy = rec("c", "plain reply", 0, &["x", "response"]);
    assert_eq!(classify_record(&legacy), TimelineEntry::Claude { text: "plain reply".to_string(), session_id: None });
    let note = rec("n", "just a note", 0, &[]);
    assert_eq!(classify_record(&note), TimelineEntry::Note { text: "just a note".to_string() });
    let other_json = rec("n", r#"{"hook_event_name":"Other"}"#, 0, &[]);
    assert_eq!(classify_record(&other_json), TimelineEntry::Note { text: other_json.text.clone() });
}

#[test]
fn classify_fields_from_read_fields() {
    let text = "raw".to_string();
    assert_eq!(
        classify_fields(true, &text, &Some("Stop".to_string()), None, Some("s".to_string())),
        TimelineEntry::Claude { text: "raw".to_string(), session_id: Some("s".to_string()) }
    );
    assert_eq!(
        classify_fields(false, &text, &Some("UserPromptSubmit".to_string()), Some("q".to_string()), None),
        TimelineEntry::User { prompt: "q".to_string(), session_id: None }
    );
    assert_eq!(
        classify_fields(false, &text, &Some("UserPromptSubmit".to_string()), None, None),
        TimelineEntry::User { prompt: "<no prompt>".to_string(), session_id: None }
    );
    assert_eq!(classify_fields(false, &text, &None, None, None), TimelineEntry::Note { text: "raw".to_string() });
}

#[test]
fn by_time_is_a_stable_sort() {
    let rs = vec![rec("a", "", 30, &[]), rec("b", "", 10, &[]), rec("c", "", 30, &[]), rec("d", "", 10, &[]), rec("e", "", 20, &[])];
    assert_eq!(by_time(&rs), vec![1, 3, 4, 0, 2]);
    assert_eq!(by_time(&vec![]), Vec::<usize>::new());
}

#[test]
fn session_filter_rules() {
    let user = |s: Option<&str>| TimelineEntry::User { prompt: "p".to_string(), session_id: s.map(|x| x.to_string()) };
    let claude = |s: Option<&str>| TimelineEntry::Claude { text: "t".to_string(), session_id: s.map(|x| x.to_string()) };
    let note = TimelineEntry::Note { text: "n".to_string() };
    let sid = Some("abc".to_string());
    assert!(keep_entry(&user(Some("abcdef")), &sid, true));
    assert!(!keep_entry(&user(Some("xyz")), &sid, true));
    assert!(!keep_entry(&user(None), &sid, true));
    assert!(keep_entry(&claude(Some("abc")), &sid, false));
    assert!(!keep_entry(&claude(Some("ab")), &sid, false));
    assert!(keep_entry(&claude(None), &sid, false));
    assert!(!keep_entry(&note, &sid, true));
    assert!(keep_entry(&note, &None, true));
    assert!(!keep_entry(&note, &None, false));
    assert!(keep_entry(&user(None), &None, false));
}

#[test]
fn timeline_orders_and_filters() {
    let rs = vec![
        rec("n1", "note", 5, &[]),
        rec("u2", r#"{"hook_event_name":"UserPromptSubmit","prompt":"late","session_id":"s1"}"#, 30, &[]),
        rec("u1", r#"{"hook_event_name":"UserPromptSubmit","prompt":"early","session_id":"s1"}"#, 10, &[]),
        rec("c1", "legacy reply", 20, &["response"]),
        rec("u3", r#"{"hook_event_name":"UserPromptSubmit","prompt":"other","session_id":"s2"}"#, 25, &[]),
    ];
    let all = timeline(&rs, &None, false, None);
    let positions: Vec<usize> = all.iter().map(|(i, _)| *i).collect();
    assert_eq!(positions, vec![2, 3, 4, 1]);
    let with_notes = timeline(&rs, &None, true, None);
    assert_eq!(with_notes.iter().map(|(i, _)| *i).collect::<Vec<_>>(), vec![0, 2, 3, 4, 1]);
    let s1 = timeline(&rs, &Some("s1".to_string()), true, None);
    assert_eq!(s1.iter().map(|(i, _)| *i).collect::<Vec<_>>(), vec![2, 3, 1]);
    let limited = timeline(&rs, &None, false, Some(2));
    assert_eq!(limited.iter().map(|(i, _)| *i).collect::<Vec<_>>(), vec![2, 3]);
    assert_eq!(all[0].1, TimelineEntry::User { prompt: "early".to_string(), session_id: Some("s1".to_string()) });
}

#[test]
fn duplicate_pairs_are_ordered_and_unique() {
    let rs = vec![rec("a", "", 10, &[]), rec("b", "", 20, &[]), rec("c", "", 30, &[])];
    let neighbours = vec![strings(&["a", "b", "c"]), strings(&["a", "b"]), strings(&["c", "a"])];
    let pairs = duplicate_pairs(&rs, &neighbours);
    assert_eq!(
        pairs,
        vec![
            DupPair { first: 0, second: 1, record: 0, hit: 1 },
            DupPair { first: 0, second: 2, record: 0, hit: 2 },
        ]
    );
    assert_eq!(duplicate_pairs(&rs, &vec![vec![], vec![], vec![]]), vec![]);
}

#[test]
fn duplicate_pairs_use_the_last_record_of_an_id() {
    let rs = vec![rec("a", "", 10, &[]), rec("b", "", 20, &[]), rec("a", "", 30, &[])];
    let neighbours = vec![strings(&["b"]), vec![], vec![]];
    let pairs = duplicate_pairs(&rs, &neighbours);
    assert_eq!(pairs, vec![DupPair { first: 1, second: 2, record: 0, hit: 0 }]);
}

#[test]
fn remove_duplicates_drops_the_newer_record() {
    let rs = vec![rec("a", "", 10, &[]), rec("b", "", 20, &[]), rec("c", "", 30, &[]), rec("d", "", 5, &[])];
    let pairs = vec![
        DupPair { first: 0, second: 1, record: 0, hit: 0 },
        DupPair { first: 0, second: 2, record: 0, hit: 1 },
        DupPair { first: 1, second: 3, record: 1, hit: 0 },
    ];
    let (kept, removed) = remove_duplicates(rs, &pairs);
    assert_eq!(removed, 2);
    let ids: Vec<String> = kept.iter().map(|r| r.id.clone()).collect();
    assert_eq!(ids, strings(&["a", "d"]));
    let tie = vec![rec("x", "", 7, &[]), rec("y", "", 7, &[])];
    let (kept, removed) = remove_duplicates(tie, &vec![DupPair { first: 0, second: 1, record: 0, hit: 0 }]);
    assert_eq!(removed, 1);
    assert_eq!(kept[0].id, "y");
}

#[test]
fn keep_role_filters_then_limits() {
    let user = |p: &str| TimelineEntry::User { prompt: p.to_string(), session_id: None };
    let reply = |t: &str| TimelineEntry::Claude { text: t.to_string(), session_id: None };
    let es = vec![(0, user("a")), (1, reply("b")), (2, user("c")), (3, TimelineEntry::Note { text: "n".to_string() }), (4, user("d"))];
    let idx = |v: Vec<(usize, TimelineEntry)>| v.iter().map(|p| p.0).collect::<Vec<usize>>();
    assert_eq!(idx(keep_role(es.clone(), Some(Role::User), Some(2))), vec![0, 2]);
    assert_eq!(idx(keep_role(es.clone(), Some(Role::Reply), None)), vec![1]);
    assert_eq!(idx(keep_role(es.clone(), None, Some(3))), vec![0, 1, 2]);
    assert_eq!(idx(keep_role(es, None, None)), vec![0, 1, 2, 3, 4]);
}
