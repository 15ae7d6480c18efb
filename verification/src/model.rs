//! The persisted aggregate: note records with their backing file paths and
//! window geometry, plus the optional main-window size. Well-formedness says
//! that ids and file paths are unique across the index and that a record's
//! timestamps never run backwards.

use vstd::prelude::*;

verus! {

/// Fallback size of a freshly registered note window, in logical pixels.
pub const DEFAULT_NOTE_WIDTH: u32 = 400;

pub const DEFAULT_NOTE_HEIGHT: u32 = 400;

/// Fallback size of the main window, in logical pixels.
pub const DEFAULT_MAIN_WIDTH: u32 = 600;

pub const DEFAULT_MAIN_HEIGHT: u32 = 800;

/// Last known size of a window, in logical pixels.
#[derive(Clone, Copy, PartialEq, Eq, Structural, Debug)]
pub struct WindowSize {
    pub width: u32,
    pub height: u32,
}

#[derive(Debug)]
/// One note: a stable id, a display title, the absolute path of the backing
/// text file, timestamps in milliseconds, and the optional last window size.
pub struct NoteRecord {
    pub id: String,
    pub title: String,
    pub file_path: String,
    pub created_at: u64,
    pub updated_at: u64,
    pub width: Option<u32>,
    pub height: Option<u32>,
}

/// Mathematical image of a [`NoteRecord`].
#[verifier::ext_equal]
pub struct NoteRecordV {
    pub id: Seq<char>,
    pub title: Seq<char>,
    pub file_path: Seq<char>,
    pub created_at: u64,
    pub updated_at: u64,
    pub width: Option<u32>,
    pub height: Option<u32>,
}

impl View for NoteRecord {
    type V = NoteRecordV;

    open spec fn view(&self) -> NoteRecordV {
        NoteRecordV {
            id: self.id@,
            title: self.title@,
            file_path: self.file_path@,
            created_at: self.created_at,
            updated_at: self.updated_at,
            width: self.width,
            height: self.height,
        }
    }
}

impl Clone for NoteRecord {
    fn clone(&self) -> (r: Self)
        ensures
            r@ == self@,
    {
        NoteRecord {
            id: self.id.clone(),
            title: self.title.clone(),
            file_path: self.file_path.clone(),
            created_at: self.created_at,
            updated_at: self.updated_at,
            width: self.width,
            height: self.height,
        }
    }
}

impl NoteRecord {
    /// The size this note's window opens at: each saved component, with the
    /// default filling in for one never saved.
    pub fn open_size(&self) -> (r: WindowSize)
        ensures
            r.width == (match self@.width {
                Some(w) => w,
                None => DEFAULT_NOTE_WIDTH,
            }),
            r.height == (match self@.height {
                Some(h) => h,
                None => DEFAULT_NOTE_HEIGHT,
            }),
    {
        WindowSize {
            width: match self.width {
                Some(w) => w,
                None => DEFAULT_NOTE_WIDTH,
            },
            height: match self.height {
                Some(h) => h,
                None => DEFAULT_NOTE_HEIGHT,
            },
        }
    }
}

/// The whole persisted aggregate: every mutation loads it, changes it and
/// writes it back as one unit.
pub struct NotesIndex {
    pub notes: Vec<NoteRecord>,
    pub main_window: Option<WindowSize>,
}

/// Mathematical image of a [`NotesIndex`].
#[verifier::ext_equal]
pub struct NotesIndexV {
    pub notes: Seq<NoteRecordV>,
    pub main_window: Option<WindowSize>,
}

impl View for NotesIndex {
    type V = NotesIndexV;

    open spec fn view(&self) -> NotesIndexV {
        NotesIndexV {
            notes: self.notes@.map_values(|n: NoteRecord| n@),
            main_window: self.main_window,
        }
    }
}

/// Some record carries this id.
pub open spec fn spec_has_id(notes: Seq<NoteRecordV>, id: Seq<char>) -> bool {
    exists|i: int| 0 <= i < notes.len() && #[trigger] notes[i].id == id
}

/// The position of the record carrying this id (unique under [`wf`]).
pub open spec fn spec_id_index(notes: Seq<NoteRecordV>, id: Seq<char>) -> int {
    choose|i: int| 0 <= i < notes.len() && #[trigger] notes[i].id == id
}

/// Some record carries this backing file path.
pub open spec fn spec_has_path(notes: Seq<NoteRecordV>, path: Seq<char>) -> bool {
    exists|i: int| 0 <= i < notes.len() && #[trigger] notes[i].file_path == path
}

/// The position of the record carrying this path (unique under [`wf`]).
pub open spec fn spec_path_index(notes: Seq<NoteRecordV>, path: Seq<char>) -> int {
    choose|i: int| 0 <= i < notes.len() && #[trigger] notes[i].file_path == path
}

/// Invariant of the aggregate: ids unique, backing file paths unique, and
/// `updated_at` never before `created_at`.
pub open spec fn wf_notes(notes: Seq<NoteRecordV>) -> bool {
    &&& forall|i: int, j: int|
        0 <= i < j < notes.len() ==> #[trigger] notes[i].id != #[trigger] notes[j].id
    &&& forall|i: int, j: int|
        0 <= i < j < notes.len() ==> #[trigger] notes[i].file_path != #[trigger] notes[j].file_path
    &&& forall|i: int| 0 <= i < notes.len() ==> #[trigger] notes[i].updated_at >= notes[i].created_at
}

pub open spec fn wf(v: NotesIndexV) -> bool {
    wf_notes(v.notes)
}

impl NotesIndex {
    /// The aggregate as it exists before any note was ever registered.
    pub fn empty() -> (r: Self)
        ensures
            r@.notes.len() == 0,
            r@.main_window is None,
            wf(r@),
    {
        NotesIndex { notes: Vec::new(), main_window: None }
    }

    /// Position of the first record whose id equals `id`.
    pub fn index_of_id(&self, id: &str) -> (r: Option<usize>)
        ensures
            match r {
                Some(i) => {
                    &&& i < self@.notes.len()
                    &&& self@.notes[i as int].id == id@
                    &&& forall|k: int| 0 <= k < i ==> #[trigger] self@.notes[k].id != id@
                },
                None => !spec_has_id(self@.notes, id@),
            },
    {
        let mut i: usize = 0;
        while i < self.notes.len()
            invariant
                i <= self.notes.len(),
                self@.notes.len() == self.notes@.len(),
                forall|k: int| 0 <= k < i ==> #[trigger] self@.notes[k].id != id@,
            decreases self.notes.len() - i,
        {
            if crate::text::str_eq(self.notes[i].id.as_str(), id) {
                return Some(i);
            }
            i = i + 1;
        }
        None
    }

    /// Position of the first record whose backing file path equals `path`.
    pub fn index_of_path(&self, path: &str) -> (r: Option<usize>)
        ensures
            match r {
                Some(i) => {
                    &&& i < self@.notes.len()
                    &&& self@.notes[i as int].file_path == path@
                    &&& forall|k: int| 0 <= k < i ==> #[trigger] self@.notes[k].file_path != path@
                },
                None => !spec_has_path(self@.notes, path@),
            },
    {
        let mut i: usize = 0;
        while i < self.notes.len()
            invariant
                i <= self.notes.len(),
                self@.notes.len() == self.notes@.len(),
                forall|k: int| 0 <= k < i ==> #[trigger] self@.notes[k].file_path != path@,
            decreases self.notes.len() - i,
        {
            if crate::text::str_eq(self.notes[i].file_path.as_str(), path) {
                return Some(i);
            }
            i = i + 1;
        }
        None
    }

    /// First (and under [`wf`], only) record whose backing file is `path`.
    pub fn find_by_path(&self, path: &str) -> (r: Option<&NoteRecord>)
        ensures
            match r {
                Some(rec) => {
                    &&& spec_has_path(self@.notes, path@)
                    &&& rec@.file_path == path@
                    &&& exists|i: int|
                        0 <= i < self@.notes.len() && #[trigger] self@.notes[i] == rec@
                },
                None => !spec_has_path(self@.notes, path@),
            },
    {
        match self.index_of_path(path) {
            Some(i) => Some(&self.notes[i]),
            None => None,
        }
    }
}

/// Under [`wf`], an id occurs at one position only, so any two witnesses
/// agree; the same holds for paths.
pub proof fn lemma_id_index_unique(notes: Seq<NoteRecordV>, id: Seq<char>, i: int)
    requires
        wf_notes(notes),
        0 <= i < notes.len(),
        notes[i].id == id,
    ensures
        spec_has_id(notes, id),
        spec_id_index(notes, id) == i,
{
    let j = spec_id_index(notes, id);
    assert(0 <= j < notes.len() && notes[j].id == id);
    if i < j {
        assert(notes[i].id != notes[j].id);
    } else if j < i {
        assert(notes[j].id != notes[i].id);
    }
}

pub proof fn lemma_path_index_unique(notes: Seq<NoteRecordV>, path: Seq<char>, i: int)
    requires
        wf_notes(notes),
        0 <= i < notes.len(),
        notes[i].file_path == path,
    ensures
        spec_has_path(notes, path),
        spec_path_index(notes, path) == i,
{
    let j = spec_path_index(notes, path);
    assert(0 <= j < notes.len() && notes[j].file_path == path);
    if i < j {
        assert(notes[i].file_path != notes[j].file_path);
    } else if j < i {
        assert(notes[j].file_path != notes[i].file_path);
    }
}

} // verus!
