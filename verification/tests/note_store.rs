use admin_assist::codec::{parse_note, render_note};
use admin_assist::note::Note;
use admin_assist::store::{
    delete_note, list_notes, load_all_notes, search_notes, DeleteError,
};
use admin_assist::textfmt::{excerpt, format_bytes, mem_percent, note_filename, parse_tags, short_id};

fn sample(id: u128, title: &str, content: &str, tags: Vec<&str>, at: i64) -> Note {
    Note {
        id,
        title: title.to_string(),
        content: content.to_string(),
        tags: tags.into_iter().map(|t| t.to_string()).collect(),
        created_at: at,
        updated_at: at,
    }
}

#[test]
fn render_exact_record() {
    let n = sample(0, "T", "C", vec!["a"], 5);
    let mut n = n;
    n.updated_at = 6;
    let s = render_note(&n);
    assert_eq!(
        s,
        "{\"id\":\"00000000-0000-0000-0000-000000000000\",\"title\":\"T\",\"content\":\"C\",\"tags\":[\"a\"],\"created_at\":5,\"updated_at\":6}"
    );
}

#[test]
fn round_trip_plain() {
    let n = sample(0xab12cd34ef56ab78cd90ef12ab34cd56u128, "Monthly Budget", "line one\nline two", vec!["work", "money"], 1700000000000);
    let s = render_note(&n);
    let back = parse_note(&s).expect("canonical record parses");
    assert_eq!(back.id, n.id);
    assert_eq!(back.title, n.title);
    assert_eq!(back.content, n.content);
    assert_eq!(back.tags, n.tags);
    assert_eq!(back.created_at, n.created_at);
    assert_eq!(back.updated_at, n.updated_at);
}

#[test]
fn round_trip_escapes_and_negative_time() {
    let n = sample(
        7,
        "quote \" and slash \\",
        "brackets ][ comma , brace } \"quoted\"\nsecond \\line",
        vec!["with \"quote\"", "", "back\\slash"],
        -12345,
    );
    let s = render_note(&n);
    let back = parse_note(&s).expect("canonical record parses");
    assert_eq!(back.title, n.title);
    assert_eq!(back.content, n.content);
    assert_eq!(back.tags, n.tags);
    assert_eq!(back.created_at, -12345);
}

#[test]
fn parse_rejects_garbage() {
    assert!(parse_note("").is_none());
    assert!(parse_note("not a record").is_none());
    assert!(parse_note("{\"id\":\"zz\"}").is_none());
    let good = render_note(&sample(1, "t", "c", vec![], 0));
    let mut broken = good.clone();
    broken.pop();
    assert!(parse_note(&broken).is_none());
    let trailing = format!("{} ", good);
    assert!(parse_note(&trailing).is_none());
}

#[test]
fn new_note_carries_fields() {
    let n = Note::new("title".to_string(), "content".to_string(), vec!["x".to_string()]);
    assert_eq!(n.title, "title");
    assert_eq!(n.content, "content");
    assert_eq!(n.tags, vec!["x".to_string()]);
    assert_eq!(n.created_at, n.updated_at);
}

#[test]
fn create_then_list_includes_note() {
    let existing = render_note(&sample(1, "old", "o", vec![], 10));
    let new_note = sample(2, "fresh", "f", vec!["t"], 20);
    let files = vec![existing, render_note(&new_note)];
    let listed = load_all_notes(&files);
    let hits: Vec<_> = listed.iter().filter(|n| n.id == new_note.id).collect();
    assert_eq!(hits.len(), 1);
    assert_eq!(hits[0].title, "fresh");
    assert_eq!(hits[0].content, "f");
    assert_eq!(hits[0].tags, vec!["t".to_string()]);
}

#[test]
fn load_skips_unparseable_records() {
    let files = vec![
        render_note(&sample(1, "a", "", vec![], 1)),
        "corrupt".to_string(),
        render_note(&sample(2, "b", "", vec![], 2)),
    ];
    let notes = load_all_notes(&files);
    assert_eq!(notes.len(), 2);
}

#[test]
fn list_sorts_newest_first() {
    let a = sample(1, "first", "", vec![], 100);
    let b = sample(2, "second", "", vec![], 200);
    let c = sample(3, "third", "", vec![], 300);
    let files = vec![render_note(&a), render_note(&c), render_note(&b)];
    let listed = list_notes(&files, None);
    let titles: Vec<&str> = listed.iter().map(|n| n.title.as_str()).collect();
    assert_eq!(titles, vec!["third", "second", "first"]);
}

#[test]
fn list_filters_by_exact_tag() {
    let w = sample(1, "work note", "", vec!["work"], 100);
    let h = sample(2, "home note", "", vec!["home"], 200);
    let files = vec![render_note(&w), render_note(&h)];
    let tag = "work".to_string();
    let listed = list_notes(&files, Some(&tag));
    assert_eq!(listed.len(), 1);
    assert_eq!(listed[0].title, "work note");
    let other = "homework".to_string();
    assert_eq!(list_notes(&files, Some(&other)).len(), 0);
}

#[test]
fn search_is_case_insensitive_across_fields() {
    let by_title = sample(1, "Monthly Budget", "nothing else", vec![], 100);
    let by_content = sample(2, "plain", "the budget is tight", vec![], 200);
    let by_tag = sample(3, "plain too", "still nothing", vec!["BUDGETING"], 300);
    let unrelated = sample(4, "groceries", "milk and eggs", vec!["home"], 400);
    let files = vec![
        render_note(&by_title),
        render_note(&by_content),
        render_note(&by_tag),
        render_note(&unrelated),
    ];
    let notes = load_all_notes(&files);
    let found = search_notes(notes, "budget");
    let mut ids: Vec<u128> = found.iter().map(|n| n.id).collect();
    ids.sort();
    assert_eq!(ids, vec![1, 2, 3]);
}

#[test]
fn delete_prefix_matching_nothing_is_not_found() {
    let notes = load_all_notes(&vec![
        render_note(&sample(0x11111111_u128 << 96, "a", "", vec![], 1)),
    ]);
    let before = notes.len();
    assert_eq!(delete_note(&notes, "ffff"), Err(DeleteError::NotFound));
    assert_eq!(notes.len(), before);
}

#[test]
fn delete_prefix_matching_one_removes_only_it() {
    let keep = sample(0x11111111_u128 << 96, "keep", "", vec![], 1);
    let gone = sample(0xab12ab12_u128 << 96, "gone", "", vec![], 2);
    let mut notes = load_all_notes(&vec![render_note(&keep), render_note(&gone)]);
    let idx = delete_note(&notes, "ab12").expect("unique match");
    assert_eq!(notes[idx].title, "gone");
    notes.remove(idx);
    assert_eq!(notes.len(), 1);
    assert!(notes.iter().all(|n| n.id != gone.id));
    assert_eq!(delete_note(&notes, "ab12"), Err(DeleteError::NotFound));
}

#[test]
fn delete_ambiguous_prefix_removes_nothing() {
    let one = sample(0xab12aaaa_u128 << 96, "one", "", vec![], 1);
    let two = sample(0xab12bbbb_u128 << 96, "two", "", vec![], 2);
    let notes = load_all_notes(&vec![render_note(&one), render_note(&two)]);
    let before = notes.len();
    assert_eq!(delete_note(&notes, "ab12"), Err(DeleteError::Ambiguous));
    assert_eq!(notes.len(), before);
    assert_eq!(delete_note(&notes, "ab12a").map(|i| notes[i].title.clone()), Ok("one".to_string()));
}

#[test]
fn short_id_and_filename_follow_identifier() {
    let n = sample(0xab12cd34_u128 << 96, "t", "", vec![], 0);
    assert_eq!(short_id(&n), "ab12cd34");
    assert_eq!(
        note_filename(&n),
        "ab12cd34-0000-0000-0000-000000000000.json"
    );
}

#[test]
fn format_bytes_exact_values() {
    assert_eq!(format_bytes(0), "0.00 B");
    assert_eq!(format_bytes(123), "123.00 B");
    assert_eq!(format_bytes(1024), "1.00 KB");
    assert_eq!(format_bytes(1536), "1.50 KB");
    assert_eq!(format_bytes(1048576), "1.00 MB");
    assert_eq!(format_bytes(1073741824), "1.00 GB");
    assert_eq!(format_bytes(1649267441664), "1.50 TB");
}

#[test]
fn mem_percent_values() {
    assert_eq!(mem_percent(512, 1024), 50);
    assert_eq!(mem_percent(0, 1024), 0);
    assert_eq!(mem_percent(1024, 1024), 100);
    assert_eq!(mem_percent(1, 0), 0);
}

#[test]
fn parse_tags_splits_and_trims() {
    assert_eq!(parse_tags("work, money ,  a b "), vec!["work", "money", "a b"]);
    assert_eq!(parse_tags(""), vec![""]);
    assert_eq!(parse_tags("a,,b"), vec!["a", "", "b"]);
    assert_eq!(parse_tags(" , "), vec!["", ""]);
}

#[test]
fn excerpt_takes_first_line_cut_to_fifty() {
    assert_eq!(excerpt("short"), "short");
    assert_eq!(excerpt("first line\r\nsecond line"), "first line");
    assert_eq!(excerpt(""), "");
    let long = "x".repeat(80);
    assert_eq!(excerpt(&long), "x".repeat(50));
    assert_eq!(excerpt("a\nb"), "a");
}
