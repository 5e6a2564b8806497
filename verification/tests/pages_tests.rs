use pdf_scrub::pages::{
    page_number, resolve_source_path, select_page_images, sort_page_paths, source_candidate,
    validate_filename,
};

#[test]
fn plain_filename_is_valid() {
    assert!(validate_filename("contract.pdf"));
}

#[test]
fn filename_with_spaces_is_valid() {
    assert!(validate_filename("my document.pdf"));
}

#[test]
fn filename_with_unicode_is_valid() {
    assert!(validate_filename("café.pdf"));
}

#[test]
fn empty_filename_is_rejected() {
    assert!(!validate_filename(""));
}

#[test]
fn forward_slash_is_rejected() {
    assert!(!validate_filename("subdir/file.pdf"));
}

#[test]
fn backslash_is_rejected() {
    assert!(!validate_filename("subdir\\file.pdf"));
}

#[test]
fn absolute_path_is_rejected() {
    assert!(!validate_filename("/etc/passwd"));
}

#[test]
fn double_dot_traversal_is_rejected() {
    assert!(!validate_filename("../secret.pdf"));
}

#[test]
fn double_dot_alone_is_rejected() {
    assert!(!validate_filename(".."));
}

#[test]
fn single_dot_is_rejected() {
    assert!(!validate_filename("."));
}

#[test]
fn null_byte_is_rejected() {
    assert!(!validate_filename("file\0.pdf"));
}

#[test]
fn double_dot_inside_a_name_is_rejected() {
    assert!(!validate_filename("a..b.pdf"));
    assert!(!validate_filename("..."));
    assert!(validate_filename("a.b.pdf"));
    assert!(validate_filename(".hidden.pdf"));
}

#[test]
fn candidate_path_is_the_name_in_the_source_dir() {
    assert_eq!(source_candidate("contract.pdf", "/srv/docs"), Some("/srv/docs/contract.pdf".to_string()));
    assert_eq!(source_candidate("../x.pdf", "/srv/docs"), None);
    assert_eq!(source_candidate("contract.pdf", "/srv/docs/"), Some("/srv/docs/contract.pdf".to_string()));
}

#[test]
fn valid_filename_resolves_to_source_dir() {
    let result = resolve_source_path(
        "contract.pdf",
        Some("/srv/docs".to_string()),
        Some("/srv/docs/contract.pdf".to_string()),
    );
    assert_eq!(result.unwrap(), "/srv/docs/contract.pdf");
}

#[test]
fn invalid_filename_returns_err() {
    let result = resolve_source_path(
        "../escape.pdf",
        Some("/srv/docs".to_string()),
        Some("/srv/escape.pdf".to_string()),
    );
    assert!(result.is_err());
}

#[test]
fn nonexistent_file_returns_err() {
    let result = resolve_source_path("missing.pdf", Some("/srv/docs".to_string()), None);
    assert!(result.is_err());
}

#[test]
fn symlink_out_of_source_dir_is_refused() {
    let result = resolve_source_path(
        "link.pdf",
        Some("/srv/docs".to_string()),
        Some("/etc/passwd".to_string()),
    );
    assert_eq!(result, Err("invalid document name".to_string()));
}

#[test]
fn sibling_directory_with_common_prefix_is_refused() {
    let result = resolve_source_path(
        "x.pdf",
        Some("/srv/docs".to_string()),
        Some("/srv/docs2/x.pdf".to_string()),
    );
    assert!(result.is_err());
}

#[test]
fn missing_source_dir_is_refused() {
    let result = resolve_source_path("x.pdf", None, Some("/srv/docs/x.pdf".to_string()));
    assert!(result.is_err());
}

#[test]
fn pages_are_sorted_numerically_not_lexicographically() {
    let paths = vec![
        "/tmp/page-10.png".to_string(),
        "/tmp/page-2.png".to_string(),
        "/tmp/page-1.png".to_string(),
    ];
    let sorted = sort_page_paths(paths);
    assert_eq!(
        sorted,
        vec![
            "/tmp/page-1.png".to_string(),
            "/tmp/page-2.png".to_string(),
            "/tmp/page-10.png".to_string(),
        ]
    );
}

#[test]
fn single_page_is_returned_unchanged() {
    let paths = vec!["/tmp/page-1.png".to_string()];
    let sorted = sort_page_paths(paths);
    assert_eq!(sorted, vec!["/tmp/page-1.png".to_string()]);
}

#[test]
fn unnumbered_pages_sort_first_and_keep_their_order() {
    let paths = vec![
        "/tmp/page-3.png".to_string(),
        "/tmp/cover.png".to_string(),
        "/tmp/page-1.png".to_string(),
        "/tmp/back.png".to_string(),
    ];
    assert_eq!(
        sort_page_paths(paths),
        vec![
            "/tmp/cover.png".to_string(),
            "/tmp/back.png".to_string(),
            "/tmp/page-1.png".to_string(),
            "/tmp/page-3.png".to_string(),
        ]
    );
}

#[test]
fn page_numbers_are_read_after_the_last_dash() {
    assert_eq!(page_number("/tmp/x/page-12.png"), Some(12));
    assert_eq!(page_number("/tmp/x/my-doc-007.png"), Some(7));
    assert_eq!(page_number("/tmp/x/+5.png"), Some(5));
    assert_eq!(page_number("/tmp/x/page--1.png"), Some(1));
    assert_eq!(page_number("/tmp/x/42"), Some(42));
    assert_eq!(page_number("/tmp/x/page-4294967295.png"), Some(4294967295));
}

#[test]
fn non_numbers_have_no_page_number() {
    assert_eq!(page_number("/tmp/x/page-.png"), None);
    assert_eq!(page_number("/tmp/x/page-1a.png"), None);
    assert_eq!(page_number("/tmp/x/page-+.png"), None);
    assert_eq!(page_number("/tmp/x/page-4294967296.png"), None);
    assert_eq!(page_number("/"), None);
}

#[test]
fn only_png_entries_are_pages() {
    let entries = vec![
        "/tmp/t/page-2.png".to_string(),
        "/tmp/t/notes.txt".to_string(),
        "/tmp/t/page-1.png".to_string(),
    ];
    assert_eq!(
        select_page_images(entries),
        Ok(vec!["/tmp/t/page-1.png".to_string(), "/tmp/t/page-2.png".to_string()])
    );
}

#[test]
fn no_png_entries_is_an_error() {
    let entries = vec!["/tmp/t/page-1.jpg".to_string()];
    assert_eq!(
        select_page_images(entries),
        Err("pdftoppm produced no pages".to_string())
    );
    assert!(select_page_images(Vec::new()).is_err());
}
