use repeat_core::paths::{is_markdown, validate_file, PathError};

#[test]
fn markdown_extensions_any_ascii_case() {
    assert!(is_markdown("note.md"));
    assert!(is_markdown("note.MD"));
    assert!(is_markdown("note.Md"));
    assert!(is_markdown("note.mD"));
    assert!(is_markdown("dir/sub/note.md"));
}

#[test]
fn non_markdown_paths() {
    assert!(!is_markdown("note.txt"));
    assert!(!is_markdown("note.markdown"));
    assert!(!is_markdown("note"));
    assert!(!is_markdown("note."));
    assert!(!is_markdown(".md")); // a hidden file has no extension
    assert!(!is_markdown("dir.md/note.txt"));
    assert!(!is_markdown(""));
}

#[test]
fn validate_trims_and_accepts_markdown_file() {
    assert_eq!(validate_file("  cards/algebra.md \n", false), Ok(String::from("cards/algebra.md")));
    assert_eq!(validate_file("a.md", false), Ok(String::from("a.md")));
}

#[test]
fn validate_rejects_empty_path() {
    assert_eq!(validate_file("", false), Err(PathError::EmptyPath));
    assert_eq!(validate_file("   \t\n", false), Err(PathError::EmptyPath));
}

#[test]
fn validate_rejects_directory() {
    assert_eq!(validate_file("cards.md", true), Err(PathError::IsDirectory));
}

#[test]
fn validate_rejects_non_markdown() {
    assert_eq!(validate_file("cards/notes.txt", false), Err(PathError::NotMarkdown));
    assert_eq!(validate_file(" .md ", false), Err(PathError::NotMarkdown));
}
