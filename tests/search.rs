use kaku::index::NoteListItem;
use kaku::search::{SearchService, BODY_POINTS, TITLE_POINTS};
use kaku::timestamp::Timestamp;

fn item(uid: &str, title: &str) -> NoteListItem {
    NoteListItem {
        uid: uid.to_string(),
        title: title.to_string(),
        path: format!("/notes/{}.md", uid),
        updated_at: Timestamp { year: 2026, month: 1, day: 1, hour: 0, minute: 0, second: 0 },
    }
}

fn file(body: &str) -> Option<Vec<u8>> {
    Some(format!("---\nuid: 1\nupdated_at: 2024\n---\n\n{}", body).into_bytes())
}

#[test]
fn test_skip_front_matter() {
    let content = b"---\nuid: test\nupdated_at: 2024\n---\n\nHello World";
    let result = SearchService::skip_front_matter(content);
    assert!(result.starts_with(b"\nHello"));
}

#[test]
fn test_skip_front_matter_no_front_matter() {
    let content = b"Hello World";
    let result = SearchService::skip_front_matter(content);
    assert_eq!(result, content);
}

#[test]
fn test_skip_front_matter_incomplete() {
    let content = b"---\nuid: test\nno closing";
    let result = SearchService::skip_front_matter(content);
    assert_eq!(result, content);
}

#[test]
fn empty_query_finds_nothing() {
    let notes = vec![item("a", "anything")];
    let bodies = vec![file("anything")];
    assert!(SearchService::search("", None, &notes, &bodies).is_empty());
    assert!(SearchService::search("   ", None, &notes, &bodies).is_empty());
}

#[test]
fn title_match_outranks_body_match() {
    let notes = vec![item("body", "Other"), item("title", "Rust notes")];
    let bodies = vec![file("learning rust today"), file("nothing here")];
    let results = SearchService::search("RUST", None, &notes, &bodies);
    assert_eq!(results.len(), 2);
    assert_eq!(results[0].uid, "title");
    assert_eq!(results[0].score, TITLE_POINTS);
    assert_eq!(results[1].uid, "body");
    assert_eq!(results[1].score, BODY_POINTS);
    assert!(results[0].score > results[1].score);
    assert_eq!(results[0].title_matches.len(), 1);
    assert_eq!((results[0].title_matches[0].start, results[0].title_matches[0].end), (0, 4));
}

#[test]
fn match_beyond_first_4096_bytes_is_not_found() {
    let long_body = format!("{}needle", "a".repeat(5000));
    let notes = vec![item("n", "title")];
    let bodies = vec![file(&long_body)];
    assert!(SearchService::search("needle", None, &notes, &bodies).is_empty());
    let near = format!("{}needle", "a".repeat(100));
    let bodies = vec![file(&near)];
    assert_eq!(SearchService::search("needle", None, &notes, &bodies).len(), 1);
}

#[test]
fn preview_has_ellipses_only_where_cut() {
    let notes = vec![item("n", "title")];
    let bodies = vec![file("short needle text")];
    let r = SearchService::search("needle", None, &notes, &bodies);
    let p = r[0].content_preview.as_ref().unwrap();
    assert!(!p.text.contains("..."));
    let long = format!("{} needle {}", "x".repeat(60), "y".repeat(60));
    let bodies = vec![file(&long)];
    let r = SearchService::search("needle", None, &notes, &bodies);
    let p = r[0].content_preview.as_ref().unwrap();
    assert!(p.text.starts_with("..."));
    assert!(p.text.ends_with("..."));
    let chars: Vec<char> = p.text.chars().collect();
    let shown: String = chars[p.match_start as usize..p.match_end as usize].iter().collect();
    assert_eq!(shown, "needle");
}

#[test]
fn empty_or_missing_file_never_matches_body() {
    let notes = vec![item("a", "x"), item("b", "y")];
    let bodies = vec![Some(vec![]), None];
    assert!(SearchService::search("x y z", None, &notes, &bodies).is_empty());
}

#[test]
fn limit_is_clamped() {
    let notes: Vec<NoteListItem> = (0..120).map(|i| item(&format!("{}", i), "same title")).collect();
    let bodies: Vec<Option<Vec<u8>>> = (0..120).map(|_| None).collect();
    assert_eq!(SearchService::search("same", None, &notes, &bodies).len(), 50);
    assert_eq!(SearchService::search("same", Some(500), &notes, &bodies).len(), 100);
    assert_eq!(SearchService::search("same", Some(3), &notes, &bodies).len(), 3);
}

#[test]
fn title_ranges_do_not_overlap() {
    let q: Vec<char> = "aa".chars().collect();
    let ranges = SearchService::extract_match_ranges(&q, "aaaaa");
    let pairs: Vec<(u32, u32)> = ranges.iter().map(|r| (r.start, r.end)).collect();
    assert_eq!(pairs, vec![(0, 2), (2, 4)]);
}

#[test]
fn invalid_utf8_is_cut_at_last_valid_boundary() {
    let mut bytes = b"needle ".to_vec();
    bytes.push(0xff);
    bytes.extend_from_slice(b" after");
    let notes = vec![item("n", "t")];
    assert_eq!(SearchService::search("needle", None, &notes, &vec![Some(bytes.clone())]).len(), 1);
    assert!(SearchService::search("after", None, &notes, &vec![Some(bytes)]).is_empty());
}
