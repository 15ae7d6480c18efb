use stickermd::model::NotesIndex;
use stickermd::registry::NoteError;

#[test]
fn register_inserts_with_defaults() {
    let mut idx = NotesIndex::empty();
    let rec = idx.register_at("id-1".to_string(), "Title".to_string(), "/n/a.md".to_string(), 100);
    assert_eq!(rec.id, "id-1");
    assert_eq!(rec.title, "Title");
    assert_eq!(rec.file_path, "/n/a.md");
    assert_eq!(rec.created_at, 100);
    assert_eq!(rec.updated_at, 100);
    assert_eq!(rec.width, Some(400));
    assert_eq!(rec.height, Some(400));
    assert_eq!(idx.notes.len(), 1);
}

#[test]
fn register_twice_is_idempotent() {
    let mut idx = NotesIndex::empty();
    idx.register_at("id-1".to_string(), "Title".to_string(), "/n/a.md".to_string(), 100);
    let again = idx.register_at("id-1".to_string(), "Title".to_string(), "/n/a.md".to_string(), 250);
    assert_eq!(idx.notes.len(), 1);
    assert_eq!(again.created_at, 100);
    assert_eq!(again.updated_at, 250);
}

#[test]
fn register_updates_title_and_path_but_keeps_creation() {
    let mut idx = NotesIndex::empty();
    idx.register_at("id-1".to_string(), "Old".to_string(), "/n/a.md".to_string(), 100);
    idx.update_geometry(Some("id-1"), 222, 333);
    let rec = idx.register_at("id-1".to_string(), "New".to_string(), "/n/b.md".to_string(), 400);
    assert_eq!(idx.notes.len(), 1);
    assert_eq!(rec.title, "New");
    assert_eq!(rec.file_path, "/n/b.md");
    assert_eq!(rec.created_at, 100);
    assert_eq!(rec.updated_at, 400);
    // Geometry survives an upsert.
    assert_eq!(rec.width, Some(222));
    assert_eq!(rec.height, Some(333));
}

#[test]
fn updated_at_never_runs_backwards() {
    let mut idx = NotesIndex::empty();
    idx.register_at("id-1".to_string(), "T".to_string(), "/n/a.md".to_string(), 500);
    let rec = idx.register_at("id-1".to_string(), "T".to_string(), "/n/a.md".to_string(), 120);
    assert_eq!(rec.created_at, 500);
    assert_eq!(rec.updated_at, 500);
}

#[test]
fn register_with_clock_runs() {
    let mut idx = NotesIndex::empty();
    let rec = idx.register("id-9".to_string(), "T".to_string(), "/n/z.md".to_string());
    assert_eq!(rec.id, "id-9");
    assert!(rec.updated_at >= rec.created_at);
    assert_eq!(idx.notes.len(), 1);
}

#[test]
fn register_or_locate_never_files_a_path_twice() {
    let mut idx = NotesIndex::empty();
    let id1 = idx.register_or_locate("/n/x.md".to_string(), "# X note").expect("fresh id");
    assert_eq!(id1.chars().count(), 36);
    assert_eq!(idx.notes.len(), 1);
    assert_eq!(idx.notes[0].title, "X note");

    let id2 = idx.register_or_locate("/n/x.md".to_string(), "# changed content").expect("found");
    assert_eq!(id2, id1);
    assert_eq!(idx.notes.len(), 1);
    // The second call must not touch the record.
    assert_eq!(idx.notes[0].title, "X note");
}

#[test]
fn find_by_path_distinguishes_known_files() {
    let mut idx = NotesIndex::empty();
    idx.register_at("a".to_string(), "A".to_string(), "/p/a.md".to_string(), 1);
    idx.register_at("b".to_string(), "B".to_string(), "/p/b.md".to_string(), 2);
    let found = idx.find_by_path("/p/b.md").expect("registered");
    assert_eq!(found.id, "b");
    assert!(idx.find_by_path("/p/c.md").is_none());
}

#[test]
fn delete_frees_the_path() {
    let mut idx = NotesIndex::empty();
    idx.register_at("a".to_string(), "A".to_string(), "/p/a.md".to_string(), 1);
    idx.register_at("b".to_string(), "B".to_string(), "/p/b.md".to_string(), 2);

    let action = idx.delete("a", true).expect("present");
    assert!(action.delete_file);
    assert_eq!(action.removed.file_path, "/p/a.md");
    assert!(idx.find_by_path("/p/a.md").is_none());
    assert_eq!(idx.notes.len(), 1);

    let action = idx.delete("b", false).expect("present");
    assert!(!action.delete_file);
    assert_eq!(action.removed.id, "b");
    assert_eq!(idx.notes.len(), 0);
}

#[test]
fn delete_of_unknown_id_is_not_found() {
    let mut idx = NotesIndex::empty();
    let err = idx.delete("ghost", true).unwrap_err();
    assert_eq!(err, NoteError::NotFound);
    assert_eq!(err.message(), "Note not found");
}

#[test]
fn update_geometry_targets_main_or_note() {
    let mut idx = NotesIndex::empty();
    idx.register_at("a".to_string(), "A".to_string(), "/p/a.md".to_string(), 1);

    idx.update_geometry(None, 700, 900);
    let main = idx.main_window.expect("main size saved");
    assert_eq!((main.width, main.height), (700, 900));

    idx.update_geometry(Some("a"), 320, 240);
    assert_eq!(idx.notes[0].width, Some(320));
    assert_eq!(idx.notes[0].height, Some(240));

    // A geometry report racing a deletion is a silent no-op.
    idx.update_geometry(Some("gone"), 1, 1);
    assert_eq!(idx.notes.len(), 1);
    assert_eq!(idx.notes[0].width, Some(320));
}

#[test]
fn error_messages_carry_their_cause() {
    assert_eq!(
        NoteError::IoError("disk full".to_string()).message(),
        "File operation failed: disk full"
    );
    assert_eq!(
        NoteError::ForbiddenExtension("exe".to_string()).message(),
        "Forbidden file extension: exe"
    );
    assert_eq!(NoteError::CorruptIndex.message(), "Index file was corrupt");
}

#[test]
fn open_size_falls_back_per_component() {
    let mut idx = NotesIndex::empty();
    let rec = idx.register_at("a".to_string(), "A".to_string(), "/p/a.md".to_string(), 1);
    let size = rec.open_size();
    assert_eq!((size.width, size.height), (400, 400));

    idx.update_geometry(Some("a"), 512, 256);
    let size = idx.notes[0].open_size();
    assert_eq!((size.width, size.height), (512, 256));
}
