//! The single-instance launch router. A second launch of the application
//! forwards its argument list to the one running process and terminates; the
//! running process scans a launch argument list (its own at startup, or a
//! forwarded one) for the first existing note file and opens exactly that
//! one, creating the main window first when none is live. Argument zero is
//! the executable path and never considered.

use crate::paths::spec_extension;
use crate::text::{str_eq, str_to_chars, chars_range_to_string};
use vstd::prelude::*;

verus! {

/// Whether the path carries a recognized note-file extension.
pub open spec fn spec_is_note_file(s: Seq<char>) -> bool {
    match spec_extension(s) {
        Some(e) => e == "md"@ || e == "markdown"@,
        None => false,
    }
}

/// Executable mirror of [`spec_is_note_file`].
pub fn is_note_file(path: &str) -> (r: bool)
    ensures
        r == spec_is_note_file(path@),
{
    let v = str_to_chars(path);
    match crate::paths::find_extension(&v) {
        Some(d) => {
            let n = v.len();
            assert(d < n);
            let ext = chars_range_to_string(&v, d + 1, n);
            str_eq(ext.as_str(), "md") || str_eq(ext.as_str(), "markdown")
        },
        None => false,
    }
}

/// An argument is worth opening when the file exists (the caller checks the
/// disk and reports it in `exists_flags`) and is a note file by name.
pub open spec fn spec_valid_arg(args: Seq<String>, exists_flags: Seq<bool>, k: int) -> bool {
    exists_flags[k] && spec_is_note_file(args[k]@)
}

/// The first argument worth opening, at or after position `from`.
pub open spec fn spec_first_valid_from(
    args: Seq<String>,
    exists_flags: Seq<bool>,
    from: int,
) -> Option<int>
    decreases args.len() - from when 0 <= from <= args.len()
{
    if from >= args.len() {
        None
    } else if spec_valid_arg(args, exists_flags, from) {
        Some(from)
    } else {
        spec_first_valid_from(args, exists_flags, from + 1)
    }
}

/// The first argument worth opening, argument zero excluded.
pub open spec fn spec_first_valid(args: Seq<String>, exists_flags: Seq<bool>) -> Option<int> {
    if args.len() == 0 {
        None
    } else {
        spec_first_valid_from(args, exists_flags, 1)
    }
}

/// Position of the first launch argument that names an existing note file.
/// `exists_flags[k]` reports whether the file named by `args[k]` exists.
pub fn first_note_path(args: &Vec<String>, exists_flags: &Vec<bool>) -> (r: Option<usize>)
    requires
        args@.len() == exists_flags@.len(),
    ensures
        match r {
            Some(i) => 1 <= i < args@.len() && spec_first_valid(args@, exists_flags@) == Some(
                i as int,
            ),
            None => spec_first_valid(args@, exists_flags@) is None,
        },
{
    if args.len() == 0 {
        return None;
    }
    let mut i: usize = 1;
    while i < args.len()
        invariant
            1 <= i <= args@.len(),
            args@.len() == exists_flags@.len(),
            spec_first_valid_from(args@, exists_flags@, 1) == spec_first_valid_from(
                args@,
                exists_flags@,
                i as int,
            ),
        decreases args@.len() - i,
    {
        if exists_flags[i] && is_note_file(args[i].as_str()) {
            proof {
                assert(spec_valid_arg(args@, exists_flags@, i as int));
            }
            return Some(i);
        }
        proof {
            assert(!spec_valid_arg(args@, exists_flags@, i as int));
        }
        i = i + 1;
    }
    None
}

/// Which side of the single-instance lock this process is on.
#[derive(Clone, Copy, PartialEq, Eq, Structural, Debug)]
pub enum InstanceRole {
    /// Holds the lock and runs the application.
    Primary,
    /// Found a running primary: forward the arguments and terminate.
    Secondary,
}

/// What the primary does with a launch argument list.
#[derive(Clone, Copy, PartialEq, Eq, Debug)]
pub struct LaunchPlan {
    /// Create the main window first (none is live).
    pub create_main: bool,
    /// Open the note file named by this argument, if any.
    pub open_index: Option<usize>,
}

#[derive(Clone, Copy, PartialEq, Eq, Debug)]
pub enum LaunchDecision {
    /// A secondary instance does nothing itself: the forwarding to the
    /// primary is the host's, and the process exits at once.
    Terminate,
    Handle(LaunchPlan),
}

/// The router's one transition: a secondary terminates unconditionally; the
/// primary ensures a main window and opens the first valid note argument.
pub fn plan_launch(
    role: InstanceRole,
    args: &Vec<String>,
    exists_flags: &Vec<bool>,
    main_live: bool,
) -> (r: LaunchDecision)
    requires
        args@.len() == exists_flags@.len(),
    ensures
        role is Secondary <==> r is Terminate,
        match r {
            LaunchDecision::Terminate => role is Secondary,
            LaunchDecision::Handle(plan) => {
                &&& plan.create_main == !main_live
                &&& match plan.open_index {
                    Some(i) => 1 <= i < args@.len() && spec_first_valid(args@, exists_flags@)
                        == Some(i as int),
                    None => spec_first_valid(args@, exists_flags@) is None,
                }
            },
        },
{
    match role {
        InstanceRole::Secondary => LaunchDecision::Terminate,
        InstanceRole::Primary => LaunchDecision::Handle(
            LaunchPlan {
                create_main: !main_live,
                open_index: first_note_path(args, exists_flags),
            },
        ),
    }
}

/// Law: exactly one action for exactly one valid argument. When one argument
/// names an existing note file and every other argument is invalid, the
/// router picks that one argument, whatever its position.
pub proof fn lemma_route_single_valid(args: Seq<String>, exists_flags: Seq<bool>, i: int)
    requires
        args.len() == exists_flags.len(),
        1 <= i < args.len(),
        spec_valid_arg(args, exists_flags, i),
        forall|k: int| 1 <= k < args.len() && k != i ==> !spec_valid_arg(args, exists_flags, k),
    ensures
        spec_first_valid(args, exists_flags) == Some(i),
{
    lemma_first_valid_reaches(args, exists_flags, 1, i);
}

proof fn lemma_first_valid_reaches(args: Seq<String>, exists_flags: Seq<bool>, from: int, i: int)
    requires
        args.len() == exists_flags.len(),
        0 <= from <= i < args.len(),
        spec_valid_arg(args, exists_flags, i),
        forall|k: int| from <= k < i ==> !spec_valid_arg(args, exists_flags, k),
    ensures
        spec_first_valid_from(args, exists_flags, from) == Some(i),
    decreases i - from,
{
    if from < i {
        lemma_first_valid_reaches(args, exists_flags, from + 1, i);
    }
}

} // verus!
