use int_vault::edit::{edit_text, EditError};

#[test]
fn edits_a_unique_fragment_in_place() {
    let (body, n) = edit_text("# A\n\nstatus: draft\n\nbody text\n", "status: draft", "status: live", false).unwrap();
    assert_eq!(n, 1);
    assert!(body.contains("status: live"));
    assert!(body.contains("body text"), "the rest of the note must survive");
}

#[test]
fn refuses_an_ambiguous_edit() {
    let err = edit_text("todo\ntodo\n", "todo", "done", false).unwrap_err();
    assert_eq!(err, EditError::Ambiguous(2));
    let (body, n) = edit_text("todo\ntodo\n", "todo", "done", true).unwrap();
    assert_eq!(n, 2);
    assert_eq!(body, "done\ndone\n");
}

#[test]
fn refuses_an_edit_that_does_not_match() {
    assert_eq!(edit_text("# A\n", "nowhere", "x", false), Err(EditError::NotFound));
}

#[test]
fn refuses_an_empty_find() {
    assert_eq!(edit_text("# A\n", "", "x", true), Err(EditError::EmptyFind));
}

#[test]
fn occurrences_do_not_overlap() {
    let (body, n) = edit_text("aaaa", "aa", "b", true).unwrap();
    assert_eq!((body.as_str(), n), ("bb", 2));
    assert_eq!(edit_text("aaa", "aa", "b", false), Ok(("ba".to_string(), 1)));
}
