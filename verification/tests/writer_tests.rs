use pdf_scrub::writer::{output_file_name, OutputError};

#[test]
fn name_tag_in_content_returns_error() {
    let result = output_file_name("[NAME: John Doe] some text", "doc.pdf");
    assert!(result.is_err());
}

#[test]
fn partial_name_tag_without_closing_bracket_returns_error() {
    let result = output_file_name("text [NAME: John Doe without closing bracket", "doc.pdf");
    assert_eq!(result, Err(OutputError::AnonymizationIncomplete));
}

#[test]
fn output_filename_uses_pdf_stem() {
    assert_eq!(output_file_name("Content.", "contract.pdf"), Ok("contract.md".to_string()));
}

#[test]
fn clean_content_is_accepted() {
    assert_eq!(output_file_name("Clean content.", "doc.pdf"), Ok("doc.md".to_string()));
}

#[test]
fn name_tag_at_the_end_is_found() {
    assert!(output_file_name("abc [NAME:", "doc.pdf").is_err());
    assert!(output_file_name("abc [NAME", "doc.pdf").is_ok());
    assert!(output_file_name("[name: lower case is not a tag]", "doc.pdf").is_ok());
}

#[test]
fn stem_drops_only_the_last_extension() {
    assert_eq!(output_file_name("x", "report.final.pdf"), Ok("report.final.md".to_string()));
    assert_eq!(output_file_name("x", ".hidden"), Ok(".hidden.md".to_string()));
}

#[test]
fn name_without_stem_is_an_error() {
    assert_eq!(output_file_name("x", ""), Err(OutputError::InvalidFilename));
    assert_eq!(output_file_name("x", ".."), Err(OutputError::InvalidFilename));
}

#[test]
fn error_messages_hold_no_document_text() {
    assert_eq!(OutputError::AnonymizationIncomplete.message(), "anonymization incomplete");
    assert_eq!(OutputError::InvalidFilename.message(), "invalid filename");
}
