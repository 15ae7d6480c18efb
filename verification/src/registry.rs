//! Registry operations over the aggregate: upsert by id, lookup by path,
//! register-or-locate for opened files, deletion, and geometry updates.
//! Every operation preserves well-formedness, and the laws at the bottom
//! state idempotence of `register`, deduplication of `register_or_locate`,
//! and that deletion frees the note's path.

use crate::model::{
    spec_has_id, spec_has_path, spec_id_index, spec_path_index, lemma_id_index_unique,
    lemma_path_index_unique, wf, NoteRecord, NoteRecordV, NotesIndex, NotesIndexV,
    WindowSize, DEFAULT_NOTE_HEIGHT, DEFAULT_NOTE_WIDTH,
};
use crate::title::{extract_title, spec_extract_title};
use vstd::prelude::*;

verus! {

/// The typed failures of the registry and its surroundings. `CorruptIndex`
/// is handled internally by backup-and-reset and never fails an operation.
#[derive(Clone, Debug, PartialEq, Eq)]
pub enum NoteError {
    NotFound,
    IoError(String),
    ForbiddenExtension(String),
    CorruptIndex,
}

/// What [`NoteError::message`] returns.
pub open spec fn spec_message(e: NoteError) -> Seq<char> {
    match e {
        NoteError::NotFound => "Note not found"@,
        NoteError::IoError(cause) => "File operation failed: "@ + cause@,
        NoteError::ForbiddenExtension(ext) => "Forbidden file extension: "@ + ext@,
        NoteError::CorruptIndex => "Index file was corrupt"@,
    }
}

impl NoteError {
    /// The text shown to the user for this failure.
    pub fn message(&self) -> (r: String)
        ensures
            r@ == spec_message(*self),
    {
        match self {
            NoteError::NotFound => String::from_str("Note not found"),
            NoteError::IoError(cause) => {
                let mut m = String::from_str("File operation failed: ");
                m.append(cause.as_str());
                m
            },
            NoteError::ForbiddenExtension(ext) => {
                let mut m = String::from_str("Forbidden file extension: ");
                m.append(ext.as_str());
                m
            },
            NoteError::CorruptIndex => String::from_str("Index file was corrupt"),
        }
    }
}

pub open spec fn spec_max(a: u64, b: u64) -> u64 {
    if a >= b {
        a
    } else {
        b
    }
}

/// The record that an upsert leaves under `id`: an existing record keeps its
/// creation time and geometry; a new one starts at `now` with the default
/// note geometry. `updated_at` never falls below `created_at`.
pub open spec fn spec_registered_record(
    notes: Seq<NoteRecordV>,
    id: Seq<char>,
    title: Seq<char>,
    path: Seq<char>,
    now: u64,
) -> NoteRecordV {
    if spec_has_id(notes, id) {
        let prev = notes[spec_id_index(notes, id)];
        NoteRecordV {
            id: id,
            title: title,
            file_path: path,
            created_at: prev.created_at,
            updated_at: spec_max(prev.created_at, now),
            width: prev.width,
            height: prev.height,
        }
    } else {
        NoteRecordV {
            id: id,
            title: title,
            file_path: path,
            created_at: now,
            updated_at: now,
            width: Some(DEFAULT_NOTE_WIDTH),
            height: Some(DEFAULT_NOTE_HEIGHT),
        }
    }
}

/// Upsert by id over the mathematical aggregate.
pub open spec fn spec_register(
    v: NotesIndexV,
    id: Seq<char>,
    title: Seq<char>,
    path: Seq<char>,
    now: u64,
) -> NotesIndexV {
    let rec = spec_registered_record(v.notes, id, title, path, now);
    if spec_has_id(v.notes, id) {
        NotesIndexV {
            notes: v.notes.update(spec_id_index(v.notes, id), rec),
            main_window: v.main_window,
        }
    } else {
        NotesIndexV { notes: v.notes.push(rec), main_window: v.main_window }
    }
}

/// A freshly opened file joins the index as a new record.
pub open spec fn spec_insert_new(
    v: NotesIndexV,
    id: Seq<char>,
    title: Seq<char>,
    path: Seq<char>,
    now: u64,
) -> NotesIndexV {
    NotesIndexV {
        notes: v.notes.push(
            NoteRecordV {
                id: id,
                title: title,
                file_path: path,
                created_at: now,
                updated_at: now,
                width: Some(DEFAULT_NOTE_WIDTH),
                height: Some(DEFAULT_NOTE_HEIGHT),
            },
        ),
        main_window: v.main_window,
    }
}

/// No record other than the one carrying `id` may carry `path`; an upsert
/// under this condition keeps paths unique.
pub open spec fn path_free_for(notes: Seq<NoteRecordV>, id: Seq<char>, path: Seq<char>) -> bool {
    forall|k: int|
        0 <= k < notes.len() && #[trigger] notes[k].file_path == path ==> notes[k].id == id
}

/// Upserting preserves well-formedness.
pub proof fn lemma_register_wf(
    v: NotesIndexV,
    id: Seq<char>,
    title: Seq<char>,
    path: Seq<char>,
    now: u64,
)
    requires
        wf(v),
        path_free_for(v.notes, id, path),
    ensures
        wf(spec_register(v, id, title, path, now)),
        spec_has_id(spec_register(v, id, title, path, now).notes, id),
{
    let out = spec_register(v, id, title, path, now).notes;
    if spec_has_id(v.notes, id) {
        let i = spec_id_index(v.notes, id);
        assert(0 <= i < v.notes.len() && v.notes[i].id == id);
        assert forall|a: int, b: int| 0 <= a < b < out.len() implies #[trigger] out[a].file_path
            != #[trigger] out[b].file_path by {
            if a != i && b != i {
                assert(out[a] == v.notes[a] && out[b] == v.notes[b]);
            } else if a == i {
                if v.notes[b].file_path == path {
                    assert(v.notes[b].id == id);
                    assert(v.notes[i].id != v.notes[b].id);
                }
            } else {
                if v.notes[a].file_path == path {
                    assert(v.notes[a].id == id);
                    assert(v.notes[a].id != v.notes[i].id);
                }
            }
        }
        assert(out[i].id == id);
    } else {
        let n = v.notes.len() as int;
        assert forall|a: int, b: int| 0 <= a < b < out.len() implies #[trigger] out[a].id
            != #[trigger] out[b].id by {
            if b == n {
                assert(out[a] == v.notes[a]);
                if v.notes[a].id == id {
                    assert(spec_has_id(v.notes, id));
                }
            }
        }
        assert forall|a: int, b: int| 0 <= a < b < out.len() implies #[trigger] out[a].file_path
            != #[trigger] out[b].file_path by {
            if b == n {
                assert(out[a] == v.notes[a]);
                if v.notes[a].file_path == path {
                    assert(v.notes[a].id == id);
                    assert(spec_has_id(v.notes, id));
                }
            }
        }
        assert(out[n].id == id);
    }
}

/// Inserting a record with a fresh id and a fresh path preserves
/// well-formedness.
pub proof fn lemma_insert_wf(
    v: NotesIndexV,
    id: Seq<char>,
    title: Seq<char>,
    path: Seq<char>,
    now: u64,
)
    requires
        wf(v),
        !spec_has_id(v.notes, id),
        !spec_has_path(v.notes, path),
    ensures
        wf(spec_insert_new(v, id, title, path, now)),
{
    let out = spec_insert_new(v, id, title, path, now).notes;
    let n = v.notes.len() as int;
    assert forall|a: int, b: int| 0 <= a < b < out.len() implies #[trigger] out[a].id
        != #[trigger] out[b].id by {
        if b == n {
            assert(out[a] == v.notes[a]);
            if v.notes[a].id == id {
                assert(spec_has_id(v.notes, id));
            }
        }
    }
    assert forall|a: int, b: int| 0 <= a < b < out.len() implies #[trigger] out[a].file_path
        != #[trigger] out[b].file_path by {
        if b == n {
            assert(out[a] == v.notes[a]);
            if v.notes[a].file_path == path {
                assert(spec_has_path(v.notes, path));
            }
        }
    }
}

impl NotesIndex {
    /// Upsert by id with an explicit clock reading: an existing record keeps
    /// its creation time and geometry and takes the new title, path and
    /// update time; otherwise a new record is appended. Returns the record
    /// as stored.
    pub fn register_at(&mut self, id: String, title: String, file_path: String, now: u64) -> (r:
        NoteRecord)
        requires
            wf(old(self)@),
            path_free_for(old(self)@.notes, id@, file_path@),
        ensures
            wf(final(self)@),
            final(self)@ == spec_register(old(self)@, id@, title@, file_path@, now),
            r@ == spec_registered_record(old(self)@.notes, id@, title@, file_path@, now),
    {
        proof {
            lemma_register_wf(self@, id@, title@, file_path@, now);
        }
        match self.index_of_id(id.as_str()) {
            Some(i) => {
                proof {
                    lemma_id_index_unique(self@.notes, id@, i as int);
                }
                let created = self.notes[i].created_at;
                let updated = if now >= created {
                    now
                } else {
                    created
                };
                let rec = NoteRecord {
                    id,
                    title,
                    file_path,
                    created_at: created,
                    updated_at: updated,
                    width: self.notes[i].width,
                    height: self.notes[i].height,
                };
                let out = rec.clone();
                let ghost prev = self.notes@;
                self.notes[i] = rec;
                proof {
                    assert(self.notes@.map_values(|n: NoteRecord| n@) =~= prev.map_values(
                        |n: NoteRecord| n@,
                    ).update(i as int, out@));
                    assert(final(self)@ =~= spec_register(old(self)@, id@, title@, file_path@, now));
                }
                out
            },
            None => {
                let rec = NoteRecord {
                    id,
                    title,
                    file_path,
                    created_at: now,
                    updated_at: now,
                    width: Some(DEFAULT_NOTE_WIDTH),
                    height: Some(DEFAULT_NOTE_HEIGHT),
                };
                let out = rec.clone();
                let ghost prev = self.notes@;
                self.notes.push(rec);
                proof {
                    assert(self.notes@.map_values(|n: NoteRecord| n@) =~= prev.map_values(
                        |n: NoteRecord| n@,
                    ).push(out@));
                    assert(final(self)@ =~= spec_register(old(self)@, id@, title@, file_path@, now));
                }
                out
            },
        }
    }

    /// Upsert by id at the current clock reading.
    pub fn register(&mut self, id: String, title: String, file_path: String) -> (r: NoteRecord)
        requires
            wf(old(self)@),
            path_free_for(old(self)@.notes, id@, file_path@),
        ensures
            wf(final(self)@),
            exists|now: u64|
                {
                    &&& final(self)@ == #[trigger] spec_register(
                        old(self)@,
                        id@,
                        title@,
                        file_path@,
                        now,
                    )
                    &&& r@ == spec_registered_record(old(self)@.notes, id@, title@, file_path@, now)
                },
    {
        let now = crate::ids::now_millis();
        let r = self.register_at(id, title, file_path, now);
        r
    }

    /// Returns the id under which `path` is filed: the existing one when the
    /// path is already registered (the index is left untouched), else
    /// `fresh_id`, under which a new record is appended.
    pub fn locate_or_insert(&mut self, path: String, title: String, fresh_id: String, now: u64) -> (
        r: String)
        requires
            wf(old(self)@),
            spec_has_path(old(self)@.notes, path@) || !spec_has_id(old(self)@.notes, fresh_id@),
        ensures
            wf(final(self)@),
            spec_has_path(old(self)@.notes, path@) ==> {
                &&& *final(self) == *old(self)
                &&& r@ == old(self)@.notes[spec_path_index(old(self)@.notes, path@)].id
            },
            !spec_has_path(old(self)@.notes, path@) ==> {
                &&& final(self)@ == spec_insert_new(old(self)@, fresh_id@, title@, path@, now)
                &&& r@ == fresh_id@
            },
    {
        match self.index_of_path(path.as_str()) {
            Some(i) => {
                proof {
                    lemma_path_index_unique(self@.notes, path@, i as int);
                }
                self.notes[i].id.clone()
            },
            None => {
                proof {
                    lemma_insert_wf(self@, fresh_id@, title@, path@, now);
                }
                let r = fresh_id.clone();
                let rec = NoteRecord {
                    id: fresh_id,
                    title,
                    file_path: path,
                    created_at: now,
                    updated_at: now,
                    width: Some(DEFAULT_NOTE_WIDTH),
                    height: Some(DEFAULT_NOTE_HEIGHT),
                };
                let ghost prev = self.notes@;
                let ghost recv = rec@;
                self.notes.push(rec);
                proof {
                    assert(self.notes@.map_values(|n: NoteRecord| n@) =~= prev.map_values(
                        |n: NoteRecord| n@,
                    ).push(recv));
                    assert(final(self)@ =~= spec_insert_new(old(self)@, fresh_id@, title@, path@, now));
                }
                r
            },
        }
    }

    /// Files an opened note file under an id: the existing id when the path
    /// is known (nothing changes — "known file, just refocus"), else a fresh
    /// random id under which the file is registered with a title derived
    /// from its content. `None` only in the vanishingly rare case that the
    /// fresh id collided with an existing record; nothing changes then.
    #[verifier::rlimit(30)]
    pub fn register_or_locate(&mut self, path: String, content: &str) -> (r: Option<String>)
        requires
            wf(old(self)@),
        ensures
            wf(final(self)@),
            match r {
                Some(id) => {
                    if spec_has_path(old(self)@.notes, path@) {
                        &&& *final(self) == *old(self)
                        &&& id@ == old(self)@.notes[spec_path_index(old(self)@.notes, path@)].id
                    } else {
                        &&& id@.len() == 36
                        &&& !spec_has_id(old(self)@.notes, id@)
                        &&& exists|now: u64|
                            final(self)@ == #[trigger] spec_insert_new(
                                old(self)@,
                                id@,
                                spec_extract_title(content@),
                                path@,
                                now,
                            )
                    }
                },
                None => {
                    &&& *final(self) == *old(self)
                    &&& !spec_has_path(old(self)@.notes, path@)
                },
            },
    {
        match self.index_of_path(path.as_str()) {
            Some(i) => {
                proof {
                    lemma_path_index_unique(self@.notes, path@, i as int);
                }
                return Some(self.notes[i].id.clone());
            },
            None => {},
        }
        let fresh_id = crate::ids::fresh_uuid();
        match self.index_of_id(fresh_id.as_str()) {
            Some(_) => return None,
            None => {},
        }
        let now = crate::ids::now_millis();
        let title = extract_title(content);
        let ghost idv = fresh_id@;
        let ghost titlev = title@;
        let ghost pathv = path@;
        let ghost pre = self@;
        let r = self.locate_or_insert(path, title, fresh_id, now);
        proof {
            assert(self@ == spec_insert_new(pre, idv, titlev, pathv, now));
            assert(titlev == spec_extract_title(content@));
            assert(self@ == spec_insert_new(pre, idv, spec_extract_title(content@), pathv, now));
            assert(r@ == idv);
            assert(exists|w: u64|
                self@ == #[trigger] spec_insert_new(pre, r@, spec_extract_title(content@), pathv, w));
        }
        Some(r)
    }

    /// Removes the record carrying `id`; the backing file and any open
    /// window are the caller's to clean up, guided by the returned action.
    /// The removal is committed even when the caller's file deletion later
    /// fails: index consistency outranks file cleanup.
    pub fn delete(&mut self, id: &str, also_delete_file: bool) -> (r: Result<
        DeleteAction,
        NoteError,
    >)
        requires
            wf(old(self)@),
        ensures
            wf(final(self)@),
            match r {
                Ok(action) => {
                    &&& spec_has_id(old(self)@.notes, id@)
                    &&& final(self)@ == spec_delete(old(self)@, id@)
                    &&& action.removed@ == old(self)@.notes[spec_id_index(old(self)@.notes, id@)]
                    &&& action.delete_file == also_delete_file
                },
                Err(e) => {
                    &&& e is NotFound
                    &&& !spec_has_id(old(self)@.notes, id@)
                    &&& *final(self) == *old(self)
                },
            },
    {
        match self.index_of_id(id) {
            Some(i) => {
                proof {
                    lemma_id_index_unique(self@.notes, id@, i as int);
                    lemma_delete_wf(self@, id@);
                }
                let ghost prev = self.notes@;
                let removed = self.notes.remove(i);
                proof {
                    assert(self.notes@.map_values(|n: NoteRecord| n@) =~= prev.map_values(
                        |n: NoteRecord| n@,
                    ).remove(i as int));
                    assert(final(self)@ =~= spec_delete(old(self)@, id@));
                }
                Ok(DeleteAction { removed, delete_file: also_delete_file })
            },
            None => Err(NoteError::NotFound),
        }
    }

    /// Stores a window's last size: the main window's when `id` is `None`,
    /// else the matching note's. A geometry report for an id that is gone
    /// (the save raced with a deletion) changes nothing.
    pub fn update_geometry(&mut self, id: Option<&str>, width: u32, height: u32)
        requires
            wf(old(self)@),
        ensures
            wf(final(self)@),
            final(self)@ == spec_update_geometry(
                old(self)@,
                match id {
                    Some(s) => Some(s@),
                    None => None,
                },
                width,
                height,
            ),
    {
        match id {
            None => {
                self.main_window = Some(WindowSize { width, height });
            },
            Some(note_id) => {
                match self.index_of_id(note_id) {
                    Some(i) => {
                        proof {
                            lemma_id_index_unique(self@.notes, note_id@, i as int);
                            lemma_geometry_wf(self@, note_id@, width, height);
                        }
                        let ghost prev = self.notes@;
                        self.notes[i].width = Some(width);
                        self.notes[i].height = Some(height);
                        proof {
                            let f = |n: NoteRecord| n@;
                            let target = NoteRecordV {
                                width: Some(width),
                                height: Some(height),
                                ..prev.map_values(f)[i as int]
                            };
                            assert(self.notes@.map_values(f) =~= prev.map_values(f).update(
                                i as int,
                                target,
                            ));
                            assert(final(self)@ =~= spec_update_geometry(
                                old(self)@,
                                Some(note_id@),
                                width,
                                height,
                            ));
                        }
                    },
                    None => {
                        proof {
                            assert(final(self)@ =~= spec_update_geometry(
                                old(self)@,
                                Some(note_id@),
                                width,
                                height,
                            ));
                        }
                    },
                }
            },
        }
    }
}

/// What the caller still has to do after a successful deletion: close the
/// note's window, and remove the backing file exactly when `delete_file`.
#[derive(Debug)]
pub struct DeleteAction {
    pub removed: NoteRecord,
    pub delete_file: bool,
}

/// Removal of the record carrying `id` (meaningful when some record does).
pub open spec fn spec_delete(v: NotesIndexV, id: Seq<char>) -> NotesIndexV {
    NotesIndexV {
        notes: v.notes.remove(spec_id_index(v.notes, id)),
        main_window: v.main_window,
    }
}

/// The new aggregate after a geometry report.
pub open spec fn spec_update_geometry(
    v: NotesIndexV,
    id: Option<Seq<char>>,
    width: u32,
    height: u32,
) -> NotesIndexV {
    match id {
        None => NotesIndexV {
            notes: v.notes,
            main_window: Some(WindowSize { width, height }),
        },
        Some(id) => {
            if spec_has_id(v.notes, id) {
                let i = spec_id_index(v.notes, id);
                NotesIndexV {
                    notes: v.notes.update(
                        i,
                        NoteRecordV { width: Some(width), height: Some(height), ..v.notes[i] },
                    ),
                    main_window: v.main_window,
                }
            } else {
                v
            }
        },
    }
}

/// Removing a record preserves well-formedness.
pub proof fn lemma_delete_wf(v: NotesIndexV, id: Seq<char>)
    requires
        wf(v),
        spec_has_id(v.notes, id),
    ensures
        wf(spec_delete(v, id)),
{
    let i = spec_id_index(v.notes, id);
    let out = spec_delete(v, id).notes;
    assert(0 <= i < v.notes.len());
    assert forall|a: int, b: int| 0 <= a < b < out.len() implies #[trigger] out[a].id
        != #[trigger] out[b].id && out[a].file_path != out[b].file_path by {
        let a0 = if a < i {
            a
        } else {
            a + 1
        };
        let b0 = if b < i {
            b
        } else {
            b + 1
        };
        assert(out[a] == v.notes[a0] && out[b] == v.notes[b0]);
    }
}

/// A geometry update preserves well-formedness.
pub proof fn lemma_geometry_wf(v: NotesIndexV, id: Seq<char>, width: u32, height: u32)
    requires
        wf(v),
    ensures
        wf(spec_update_geometry(v, Some(id), width, height)),
{
    if spec_has_id(v.notes, id) {
        let i = spec_id_index(v.notes, id);
        let out = spec_update_geometry(v, Some(id), width, height).notes;
        assert forall|a: int, b: int| 0 <= a < b < out.len() implies #[trigger] out[a].id
            != #[trigger] out[b].id && out[a].file_path != out[b].file_path by {
            assert(out[a].id == v.notes[a].id && out[b].id == v.notes[b].id);
            assert(out[a].file_path == v.notes[a].file_path && out[b].file_path
                == v.notes[b].file_path);
        }
        assert forall|a: int| 0 <= a < out.len() implies #[trigger] out[a].updated_at
            >= out[a].created_at by {
            assert(out[a].updated_at == v.notes[a].updated_at && out[a].created_at
                == v.notes[a].created_at);
        }
    }
}

/// Law: `register` is idempotent. A second upsert with the same id, title
/// and path leaves the same number of records, exactly one record carries
/// the id, and its creation time is the one the first call fixed.
pub proof fn lemma_register_idempotent(
    v: NotesIndexV,
    id: Seq<char>,
    title: Seq<char>,
    path: Seq<char>,
    now1: u64,
    now2: u64,
)
    requires
        wf(v),
        path_free_for(v.notes, id, path),
    ensures
        ({
            let v1 = spec_register(v, id, title, path, now1);
            let v2 = spec_register(v1, id, title, path, now2);
            &&& wf(v1) && wf(v2)
            &&& v2.notes.len() == v1.notes.len()
            &&& spec_has_id(v2.notes, id)
            &&& forall|a: int, b: int|
                0 <= a < v2.notes.len() && 0 <= b < v2.notes.len() && #[trigger] v2.notes[a].id
                    == id && #[trigger] v2.notes[b].id == id ==> a == b
            &&& v2.notes[spec_id_index(v2.notes, id)].created_at == v1.notes[spec_id_index(
                v1.notes,
                id,
            )].created_at
        }),
{
    lemma_register_wf(v, id, title, path, now1);
    let v1 = spec_register(v, id, title, path, now1);
    let i1 = if spec_has_id(v.notes, id) {
        spec_id_index(v.notes, id)
    } else {
        v.notes.len() as int
    };
    assert(0 <= i1 < v1.notes.len() && v1.notes[i1].id == id);
    assert(path_free_for(v1.notes, id, path)) by {
        assert forall|k: int|
            0 <= k < v1.notes.len() && #[trigger] v1.notes[k].file_path == path implies v1.notes[k].id
            == id by {
            if k != i1 {
                assert(v1.notes[k] == v.notes[k]);
            }
        }
    }
    lemma_register_wf(v1, id, title, path, now2);
    let v2 = spec_register(v1, id, title, path, now2);
    lemma_id_index_unique(v1.notes, id, i1);
    assert(v2.notes == v1.notes.update(i1, spec_registered_record(v1.notes, id, title, path, now2)));
    lemma_id_index_unique(v2.notes, id, i1);
    assert forall|a: int, b: int|
        0 <= a < v2.notes.len() && 0 <= b < v2.notes.len() && #[trigger] v2.notes[a].id == id
            && #[trigger] v2.notes[b].id == id implies a == b by {
        if a < b {
            assert(v2.notes[a].id != v2.notes[b].id);
        } else if b < a {
            assert(v2.notes[b].id != v2.notes[a].id);
        }
    }
}

/// Law: `register_or_locate` never files one path twice. After a first call
/// has inserted a record for `path`, the path is present, and the record
/// carrying it still holds the first call's id — so a second call returns
/// that id and, by the contract of `register_or_locate`, changes nothing.
pub proof fn lemma_locate_dedup(
    v: NotesIndexV,
    id: Seq<char>,
    title: Seq<char>,
    path: Seq<char>,
    now: u64,
)
    requires
        wf(v),
        !spec_has_path(v.notes, path),
        !spec_has_id(v.notes, id),
    ensures
        ({
            let v1 = spec_insert_new(v, id, title, path, now);
            &&& wf(v1)
            &&& v1.notes.len() == v.notes.len() + 1
            &&& spec_has_path(v1.notes, path)
            &&& v1.notes[spec_path_index(v1.notes, path)].id == id
        }),
{
    lemma_insert_wf(v, id, title, path, now);
    let v1 = spec_insert_new(v, id, title, path, now);
    let n = v.notes.len() as int;
    assert(v1.notes[n].file_path == path);
    lemma_path_index_unique(v1.notes, path, n);
}

/// Law: deleting a note frees its path. After `delete(id)`, no record
/// carries the deleted note's former backing file path, so `find_by_path`
/// returns nothing for it.
pub proof fn lemma_delete_frees_path(v: NotesIndexV, id: Seq<char>)
    requires
        wf(v),
        spec_has_id(v.notes, id),
    ensures
        ({
            let path = v.notes[spec_id_index(v.notes, id)].file_path;
            let v1 = spec_delete(v, id);
            &&& wf(v1)
            &&& !spec_has_path(v1.notes, path)
            &&& !spec_has_id(v1.notes, id)
        }),
{
    lemma_delete_wf(v, id);
    let i = spec_id_index(v.notes, id);
    let path = v.notes[i].file_path;
    let v1 = spec_delete(v, id);
    assert forall|k: int| 0 <= k < v1.notes.len() implies #[trigger] v1.notes[k].file_path != path
        && v1.notes[k].id != id by {
        let k0 = if k < i {
            k
        } else {
            k + 1
        };
        assert(v1.notes[k] == v.notes[k0]);
        if k0 < i {
            assert(v.notes[k0].file_path != v.notes[i].file_path);
            assert(v.notes[k0].id != v.notes[i].id);
        } else {
            assert(v.notes[i].file_path != v.notes[k0].file_path);
            assert(v.notes[i].id != v.notes[k0].id);
        }
    }
}

} // verus!
