use stickermd::router::{
    first_note_path, is_note_file, plan_launch, InstanceRole, LaunchDecision,
};

fn strings(items: &[&str]) -> Vec<String> {
    items.iter().map(|s| s.to_string()).collect()
}

#[test]
fn note_files_by_extension() {
    assert!(is_note_file("/home/u/note.md"));
    assert!(is_note_file("notes.markdown"));
    assert!(is_note_file("C:\\docs\\memo.md"));
    assert!(!is_note_file("readme.txt"));
    assert!(!is_note_file("archive.md.bak"));
    assert!(!is_note_file(".md"));
    assert!(!is_note_file("noextension"));
    assert!(!is_note_file("dir.md/file"));
    assert!(!is_note_file("UPPER.MD"));
}

#[test]
fn one_valid_one_invalid_yields_exactly_the_valid_one() {
    let args = strings(&["/usr/bin/app", "/tmp/missing.md", "/tmp/real.md"]);
    // The first .md does not exist on disk; the second does.
    let exists = vec![true, false, true];
    assert_eq!(first_note_path(&args, &exists), Some(2));

    let args = strings(&["/usr/bin/app", "/tmp/notes.txt", "/tmp/real.md"]);
    let exists = vec![true, true, true];
    assert_eq!(first_note_path(&args, &exists), Some(2));
}

#[test]
fn the_first_valid_argument_wins() {
    let args = strings(&["app", "a.md", "b.md"]);
    let exists = vec![true, true, true];
    assert_eq!(first_note_path(&args, &exists), Some(1));
}

#[test]
fn argument_zero_is_never_opened() {
    let args = strings(&["self.md"]);
    let exists = vec![true];
    assert_eq!(first_note_path(&args, &exists), None);

    let args = strings(&["self.md", "other.txt"]);
    let exists = vec![true, true];
    assert_eq!(first_note_path(&args, &exists), None);
}

#[test]
fn no_valid_argument_means_nothing_to_open() {
    let args = strings(&[]);
    let exists: Vec<bool> = vec![];
    assert_eq!(first_note_path(&args, &exists), None);
}

#[test]
fn secondary_terminates_primary_handles() {
    let args = strings(&["app", "x.md"]);
    let exists = vec![true, true];

    let decision = plan_launch(InstanceRole::Secondary, &args, &exists, false);
    assert_eq!(decision, LaunchDecision::Terminate);

    match plan_launch(InstanceRole::Primary, &args, &exists, false) {
        LaunchDecision::Handle(plan) => {
            assert!(plan.create_main);
            assert_eq!(plan.open_index, Some(1));
        },
        LaunchDecision::Terminate => panic!("primary must handle"),
    }

    match plan_launch(InstanceRole::Primary, &args, &exists, true) {
        LaunchDecision::Handle(plan) => assert!(!plan.create_main),
        LaunchDecision::Terminate => panic!("primary must handle"),
    }
}
