use std::path::PathBuf;

use caj2pdf::gui::{App, FileEntry, Status};

#[test]
fn default_app_has_no_files() {
    let app = App::default();
    assert!(app.files.is_empty());
}

#[test]
fn file_entries_start_pending() {
    let mut app = App::default();
    app.files.push(FileEntry { input: PathBuf::from("a.caj"), status: Status::Pending });
    let copy = app.files[0].clone();
    assert_eq!(copy.input, PathBuf::from("a.caj"));
    assert_eq!(copy.status, Status::Pending);
}
