use stickermd::codec::{decode_index, encode_index, load_index};
use stickermd::model::{NoteRecord, NotesIndex, WindowSize};
use stickermd::registry::NoteError;

fn record(id: &str, title: &str, path: &str, w: Option<u32>, h: Option<u32>) -> NoteRecord {
    NoteRecord {
        id: id.to_string(),
        title: title.to_string(),
        file_path: path.to_string(),
        created_at: 1700000000000,
        updated_at: 1700000001000,
        width: w,
        height: h,
    }
}

#[test]
fn round_trip_preserves_every_field() {
    let idx = NotesIndex {
        notes: vec![
            record("id-1", "First note", "/home/u/notes/a.md", Some(400), Some(400)),
            record("id-2", "Second with spaces", "/home/u/my notes/b.md", None, Some(250)),
            record("id-3", "esc \\ and\nnewline", "/tmp/c.md", None, None),
        ],
        main_window: Some(WindowSize { width: 640, height: 820 }),
    };
    let text = encode_index(&idx);
    let back = decode_index(&text).expect("own encoding must parse");
    assert_eq!(back.notes.len(), 3);
    for (orig, got) in idx.notes.iter().zip(back.notes.iter()) {
        assert_eq!(got.id, orig.id);
        assert_eq!(got.title, orig.title);
        assert_eq!(got.file_path, orig.file_path);
        assert_eq!(got.created_at, orig.created_at);
        assert_eq!(got.updated_at, orig.updated_at);
        assert_eq!(got.width, orig.width);
        assert_eq!(got.height, orig.height);
    }
    assert_eq!(back.main_window, Some(WindowSize { width: 640, height: 820 }));
}

#[test]
fn round_trip_of_empty_index() {
    let idx = NotesIndex { notes: vec![], main_window: None };
    let text = encode_index(&idx);
    assert_eq!(text, "stickymd 1\n");
    let back = decode_index(&text).expect("empty file is a valid index");
    assert_eq!(back.notes.len(), 0);
    assert_eq!(back.main_window, None);
}

#[test]
fn korean_title_survives_the_file() {
    let idx = NotesIndex {
        notes: vec![record("k", "한글 제목", "/노트/메모.md", Some(1), Some(2))],
        main_window: None,
    };
    let back = decode_index(&encode_index(&idx)).unwrap();
    assert_eq!(back.notes[0].title, "한글 제목");
    assert_eq!(back.notes[0].file_path, "/노트/메모.md");
}

#[test]
fn malformed_content_is_corrupt() {
    assert!(decode_index("stickymd 1\nn not-enough-fields\n").is_none());
    assert!(decode_index("stickymd 1\nn a b c notanumber 5 - -\n").is_none());
    assert!(decode_index("stickymd 1\nm 12\n").is_none());
    assert!(decode_index("stickymd 1\nm one two\n").is_none());
    assert!(decode_index("stickymd 1\nn a b c 1 2 - bad\\q\n").is_none());
    // Content that is not an index file at all fails the header check.
    assert!(decode_index("").is_none());
    assert!(decode_index("some other file\n").is_none());
}

#[test]
fn unknown_lines_are_skipped() {
    let text = "stickymd 1\nfuture-tag something else\n\nn id1 Title /p.md 5 6 - -\ncomment line\n";
    let idx = decode_index(text).expect("unknown tags must not fail the parse");
    assert_eq!(idx.notes.len(), 1);
    assert_eq!(idx.notes[0].id, "id1");
    assert_eq!(idx.notes[0].created_at, 5);
    assert_eq!(idx.notes[0].width, None);
}

#[test]
fn duplicate_ids_or_paths_are_corrupt() {
    let dup_id = "stickymd 1\nn a t1 /p1.md 1 2 - -\nn a t2 /p2.md 1 2 - -\n";
    assert!(decode_index(dup_id).is_none());
    let dup_path = "stickymd 1\nn a t1 /p.md 1 2 - -\nn b t2 /p.md 1 2 - -\n";
    assert!(decode_index(dup_path).is_none());
    let backwards_clock = "stickymd 1\nn a t /p.md 9 3 - -\n";
    assert!(decode_index(backwards_clock).is_none());
}

#[test]
fn load_recovers_from_corruption_without_failing() {
    let (idx, warning) = load_index(Some("{ \"notes\": [garbage"));
    assert_eq!(idx.notes.len(), 0);
    assert_eq!(idx.main_window, None);
    assert_eq!(warning, Some(NoteError::CorruptIndex));
}

#[test]
fn load_of_missing_file_is_a_fresh_index() {
    let (idx, warning) = load_index(None);
    assert_eq!(idx.notes.len(), 0);
    assert_eq!(idx.main_window, None);
    assert_eq!(warning, None);
}

#[test]
fn load_of_good_content_returns_it() {
    let idx = NotesIndex {
        notes: vec![record("a", "T", "/p.md", Some(9), None)],
        main_window: Some(WindowSize { width: 600, height: 800 }),
    };
    let text = encode_index(&idx);
    let (back, warning) = load_index(Some(&text));
    assert_eq!(warning, None);
    assert_eq!(back.notes.len(), 1);
    assert_eq!(back.notes[0].id, "a");
    assert_eq!(back.main_window, Some(WindowSize { width: 600, height: 800 }));
}

#[test]
fn encoding_is_line_per_entry() {
    let idx = NotesIndex {
        notes: vec![record("a", "two words", "/p q.md", Some(400), None)],
        main_window: Some(WindowSize { width: 600, height: 800 }),
    };
    let text = encode_index(&idx);
    assert_eq!(
        text,
        "stickymd 1\nm 600 800\nn a two\\swords /p\\sq.md 1700000000000 1700000001000 400 -\n"
    );
}
