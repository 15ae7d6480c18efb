//! The window-identity map: which logical windows are live right now, keyed
//! by a stable label — `main` for the primary window, `note_<id>` for a
//! note's window. Opening is idempotent per label: a label that is already
//! live is focused, never created twice.

use crate::model::WindowSize;
use crate::text::str_eq;
use vstd::prelude::*;

verus! {

/// The label of the primary window.
pub fn main_label() -> (r: String)
    ensures
        r@ == "main"@,
{
    String::from_str("main")
}

/// The label of a note's window: `note_` followed by the note's id.
pub fn note_label(id: &str) -> (r: String)
    ensures
        r@ == "note_"@ + id@,
{
    let mut r = String::from_str("note_");
    r.append(id);
    r
}

/// Distinct notes get distinct window labels.
pub proof fn lemma_note_label_injective(a: Seq<char>, b: Seq<char>)
    requires
        "note_"@ + a == "note_"@ + b,
    ensures
        a == b,
{
    let p = "note_"@;
    assert(a =~= b) by {
        assert((p + a).len() == (p + b).len());
        assert(a.len() == b.len());
        assert forall|k: int| 0 <= k < a.len() implies a[k] == b[k] by {
            assert((p + a)[p.len() + k] == a[k]);
            assert((p + b)[p.len() + k] == b[k]);
        }
    }
}

/// A note's window label never collides with the main window's.
pub proof fn lemma_note_label_not_main(id: Seq<char>)
    ensures
        "note_"@ + id != "main"@,
{
    reveal_strlit("note_");
    reveal_strlit("main");
    assert(("note_"@ + id).len() == 5 + id.len());
    assert("main"@.len() == 4);
}

/// What the host is asked to do for an open request.
#[derive(Clone, Copy, PartialEq, Eq, Structural, Debug)]
pub enum OpenAction {
    /// The window exists: bring it to the foreground.
    Focus,
    /// No window yet: create one with this initial size.
    Create { width: u32, height: u32 },
}

/// The set of live window labels. Well-formed when no label repeats, which
/// every operation here preserves.
pub struct WindowSet {
    pub labels: Vec<String>,
}

impl View for WindowSet {
    type V = Seq<Seq<char>>;

    open spec fn view(&self) -> Seq<Seq<char>> {
        self.labels@.map_values(|s: String| s@)
    }
}

pub open spec fn wf_windows(s: Seq<Seq<char>>) -> bool {
    forall|a: int, b: int| 0 <= a < b < s.len() ==> #[trigger] s[a] != #[trigger] s[b]
}

pub open spec fn spec_has_label(s: Seq<Seq<char>>, label: Seq<char>) -> bool {
    exists|i: int| 0 <= i < s.len() && #[trigger] s[i] == label
}

/// The live set after an open request: unchanged when the label is live,
/// else extended by it.
pub open spec fn spec_open(s: Seq<Seq<char>>, label: Seq<char>) -> Seq<Seq<char>> {
    if spec_has_label(s, label) {
        s
    } else {
        s.push(label)
    }
}

/// The position of the label in the live set (unique under well-formedness).
pub open spec fn spec_label_index(s: Seq<Seq<char>>, label: Seq<char>) -> int {
    choose|i: int| 0 <= i < s.len() && #[trigger] s[i] == label
}

/// The live set after a window is destroyed: the label's entry is gone.
pub open spec fn spec_close(s: Seq<Seq<char>>, label: Seq<char>) -> Seq<Seq<char>> {
    if spec_has_label(s, label) {
        s.remove(spec_label_index(s, label))
    } else {
        s
    }
}

/// The initial size for a window: the saved one, or the fallback.
pub open spec fn spec_open_size(saved: Option<WindowSize>, fallback: WindowSize) -> WindowSize {
    match saved {
        Some(w) => w,
        None => fallback,
    }
}

impl WindowSet {
    /// No window is live at process start.
    pub fn new() -> (r: Self)
        ensures
            r@.len() == 0,
            wf_windows(r@),
    {
        WindowSet { labels: Vec::new() }
    }

    /// Whether a window with this label is live.
    pub fn contains(&self, label: &str) -> (r: bool)
        ensures
            r == spec_has_label(self@, label@),
    {
        let mut i: usize = 0;
        while i < self.labels.len()
            invariant
                i <= self.labels@.len(),
                self@.len() == self.labels@.len(),
                forall|k: int| 0 <= k < i ==> #[trigger] self@[k] != label@,
            decreases self.labels@.len() - i,
        {
            if str_eq(self.labels[i].as_str(), label) {
                proof {
                    assert(self@[i as int] == label@);
                }
                return true;
            }
            i = i + 1;
        }
        false
    }

    /// The open-or-focus decision: if a window with `label` is live, it is
    /// to be focused and nothing changes; otherwise the label becomes live
    /// and the host is to create the window, at the saved size if one is
    /// known, else at `fallback`. At most one window per label can ever
    /// result.
    pub fn open_or_focus(&mut self, label: &str, saved: Option<WindowSize>, fallback: WindowSize)
        -> (r: OpenAction)
        requires
            wf_windows(old(self)@),
        ensures
            wf_windows(final(self)@),
            final(self)@ == spec_open(old(self)@, label@),
            spec_has_label(final(self)@, label@),
            r == if spec_has_label(old(self)@, label@) {
                OpenAction::Focus
            } else {
                OpenAction::Create {
                    width: spec_open_size(saved, fallback).width,
                    height: spec_open_size(saved, fallback).height,
                }
            },
    {
        if self.contains(label) {
            OpenAction::Focus
        } else {
            let ghost prev = self.labels@;
            self.labels.push(label.to_owned());
            proof {
                assert(self@ =~= prev.map_values(|s: String| s@).push(label@));
                assert(self@[self@.len() - 1] == label@);
                assert forall|a: int, b: int| 0 <= a < b < self@.len() implies #[trigger] self@[a]
                    != #[trigger] self@[b] by {
                    if b == self@.len() - 1 {
                        if old(self)@[a] == label@ {
                            assert(spec_has_label(old(self)@, label@));
                        }
                    }
                }
            }
            let size = match saved {
                Some(w) => w,
                None => fallback,
            };
            OpenAction::Create { width: size.width, height: size.height }
        }
    }

    /// Position of the live window with this label, if any.
    fn index_of_label(&self, label: &str) -> (r: Option<usize>)
        ensures
            match r {
                Some(i) => {
                    &&& i < self@.len()
                    &&& self@[i as int] == label@
                },
                None => !spec_has_label(self@, label@),
            },
    {
        let mut i: usize = 0;
        while i < self.labels.len()
            invariant
                i <= self.labels@.len(),
                self@.len() == self.labels@.len(),
                forall|k: int| 0 <= k < i ==> #[trigger] self@[k] != label@,
            decreases self.labels@.len() - i,
        {
            if str_eq(self.labels[i].as_str(), label) {
                proof {
                    assert(self@[i as int] == label@);
                }
                return Some(i);
            }
            i = i + 1;
        }
        None
    }

    /// A window was closed (by the user, by a failed create, or because its
    /// note was deleted): its label is no longer live.
    pub fn closed(&mut self, label: &str)
        requires
            wf_windows(old(self)@),
        ensures
            wf_windows(final(self)@),
            final(self)@ == spec_close(old(self)@, label@),
            !spec_has_label(final(self)@, label@),
    {
        match self.index_of_label(label) {
            Some(i) => {
                proof {
                    lemma_label_index_unique(self@, label@, i as int);
                }
                let ghost prev = self.labels@;
                self.labels.remove(i);
                proof {
                    assert(self@ =~= prev.map_values(|s: String| s@).remove(i as int));
                    lemma_close_wf(old(self)@, label@, i as int);
                }
            },
            None => {},
        }
    }
}

/// Under well-formedness a label occurs at one position only.
proof fn lemma_label_index_unique(s: Seq<Seq<char>>, label: Seq<char>, i: int)
    requires
        wf_windows(s),
        0 <= i < s.len(),
        s[i] == label,
    ensures
        spec_has_label(s, label),
        spec_label_index(s, label) == i,
{
    let j = spec_label_index(s, label);
    assert(0 <= j < s.len() && s[j] == label);
    if i < j {
        assert(s[i] != s[j]);
    } else if j < i {
        assert(s[j] != s[i]);
    }
}

/// Removing a label keeps the rest distinct and frees the label.
proof fn lemma_close_wf(s: Seq<Seq<char>>, label: Seq<char>, i: int)
    requires
        wf_windows(s),
        0 <= i < s.len(),
        s[i] == label,
    ensures
        wf_windows(s.remove(i)),
        !spec_has_label(s.remove(i), label),
{
    let out = s.remove(i);
    assert forall|a: int, b: int| 0 <= a < b < out.len() implies #[trigger] out[a]
        != #[trigger] out[b] by {
        let a0 = if a < i {
            a
        } else {
            a + 1
        };
        let b0 = if b < i {
            b
        } else {
            b + 1
        };
        assert(out[a] == s[a0] && out[b] == s[b0]);
    }
    assert forall|k: int| 0 <= k < out.len() implies #[trigger] out[k] != label by {
        let k0 = if k < i {
            k
        } else {
            k + 1
        };
        assert(out[k] == s[k0]);
        if k0 < i {
            assert(s[k0] != s[i]);
        } else {
            assert(s[i] != s[k0]);
        }
    }
}

/// Law: one window per label. Two open requests for the same label yield
/// exactly one live window carrying it: the first opens it, the second finds
/// it live, changes nothing, and resolves to a focus.
pub proof fn lemma_open_twice_one_window(s: Seq<Seq<char>>, label: Seq<char>)
    requires
        wf_windows(s),
    ensures
        ({
            let s1 = spec_open(s, label);
            let s2 = spec_open(s1, label);
            &&& wf_windows(s1)
            &&& spec_has_label(s1, label)
            &&& s2 == s1
            &&& forall|a: int, b: int|
                0 <= a < s1.len() && 0 <= b < s1.len() && #[trigger] s1[a] == label
                    && #[trigger] s1[b] == label ==> a == b
        }),
{
    let s1 = spec_open(s, label);
    if spec_has_label(s, label) {
    } else {
        assert(s1[s1.len() - 1] == label);
        assert forall|a: int, b: int| 0 <= a < b < s1.len() implies #[trigger] s1[a]
            != #[trigger] s1[b] by {
            if b == s1.len() - 1 {
                if s[a] == label {
                    assert(spec_has_label(s, label));
                }
            }
        }
    }
    assert(spec_has_label(s1, label));
    assert forall|a: int, b: int|
        0 <= a < s1.len() && 0 <= b < s1.len() && #[trigger] s1[a] == label && #[trigger] s1[b]
            == label implies a == b by {
        if a < b {
            assert(s1[a] != s1[b]);
        } else if b < a {
            assert(s1[b] != s1[a]);
        }
    }
}

} // verus!
