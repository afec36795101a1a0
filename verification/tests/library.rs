use rnr::error::{Error, ErrorKind};
use rnr::interactive::{Editor, InterativeMode, RenameOperation};
use rnr::renamer::Renamer;
use rnr::solver::Operation;

fn op(s: &str, t: &str) -> Operation {
    Operation { source: s.as_bytes().to_vec(), target: t.as_bytes().to_vec() }
}

#[test]
fn descriptions_name_each_failure() {
    let mk = |kind: ErrorKind| Error { kind, value: None };
    assert_eq!(mk(ErrorKind::CreateBackup).description(), "Cannot create a backup of");
    assert_eq!(mk(ErrorKind::CreateFile).description(), "Cannot create file");
    assert_eq!(mk(ErrorKind::CreateSymlink).description(), "Cannot create symlink");
    assert_eq!(mk(ErrorKind::ExistingPath).description(), "Conflict with existing path");
    assert_eq!(mk(ErrorKind::JsonParse).description(), "Cannot parse JSON  file");
    assert_eq!(mk(ErrorKind::ReadFile).description(), "Cannot open/read file");
    assert_eq!(mk(ErrorKind::Rename).description(), "Cannot Rename");
    assert_eq!(mk(ErrorKind::SameFilename).description(), "Files will have the same name");
    assert_eq!(mk(ErrorKind::SolveOrder).description(), "Cannot solve sorting problem");
}

#[test]
fn editor_parses_names_case_insensitively() {
    assert!(matches!(Editor::from_str("vim"), Some(Editor::VIM)));
    assert!(matches!(Editor::from_str("VIM"), Some(Editor::VIM)));
    assert!(matches!(Editor::from_str("Notepad"), Some(Editor::NOTEPAD)));
    assert!(matches!(Editor::from_str("NOTEPAD"), Some(Editor::NOTEPAD)));
    assert!(Editor::from_str("emacs").is_none());
    assert!(Editor::from_str("").is_none());
}

#[test]
fn default_editor_is_vim() {
    assert!(matches!(Editor::get_editor(), Editor::VIM));
    assert!(matches!(InterativeMode::new().editor, Editor::VIM));
}

#[test]
fn rename_operation_carries_status() {
    let r = RenameOperation {
        old_name: "a.txt".to_string(),
        new_name: "b.txt".to_string(),
        status: false,
    };
    assert_eq!(r.old_name, "a.txt");
    assert_eq!(r.new_name, "b.txt");
    assert!(!r.status);
}

#[test]
fn renamer_modes() {
    let plain = Renamer::new().unwrap();
    assert!(plain.interactive.is_none());
    let interactive = Renamer::new_with_interactive_mode();
    assert!(interactive.interactive.is_some());
}

#[test]
fn rename_map_drops_unchanged_names() {
    let renamer = Renamer::new().unwrap();
    let candidates = vec![op("same", "same"), op("A", "B")];
    let map = renamer.get_rename_map(&candidates).unwrap();
    assert_eq!(map, vec![op("A", "B")]);
}

#[test]
fn rename_map_rejects_shared_target() {
    let renamer = Renamer::new().unwrap();
    let candidates = vec![op("a", "c"), op("b", "c")];
    let err = renamer.get_rename_map(&candidates).unwrap_err();
    assert!(matches!(err.kind, ErrorKind::SameFilename));
}

#[test]
fn process_solves_the_filtered_map() {
    let renamer = Renamer::new().unwrap();
    let candidates = vec![op("same", "same"), op("A", "B"), op("B", "C")];
    let ops = renamer.process(&candidates).unwrap();
    assert_eq!(ops, vec![op("B", "C"), op("A", "B")]);
}

#[test]
fn process_reports_shared_target() {
    let renamer = Renamer::new().unwrap();
    let candidates = vec![op("a", "c"), op("b", "c")];
    let err = renamer.process(&candidates).unwrap_err();
    assert!(matches!(err.kind, ErrorKind::SameFilename));
}
