use pdf_scrub::secrets::{assemble, check_distinct_directories, SecretText, DEFAULT_MODEL};

fn z(s: &str) -> Option<SecretText> {
    Some(SecretText::new(s.to_string()))
}

#[test]
fn all_required_entries_present_returns_ok() {
    let result = assemble(z("/src"), z("/dst"), z("Matti Meikäläinen"), z("custom-model"));
    assert!(result.is_ok());
}

#[test]
fn missing_source_dir_returns_err() {
    let result = assemble(None, z("/dst"), z("Matti Meikäläinen"), None);
    assert!(result.is_err());
}

#[test]
fn missing_dest_dir_returns_err() {
    let result = assemble(z("/src"), None, z("Matti Meikäläinen"), None);
    assert!(result.is_err());
}

#[test]
fn missing_owner_name_returns_err() {
    let result = assemble(z("/src"), z("/dst"), None, None);
    assert!(result.is_err());
}

#[test]
fn missing_model_falls_back_to_default() {
    let result = assemble(z("/src"), z("/dst"), z("Matti Meikäläinen"), None).ok().unwrap();
    assert_eq!(result.model, DEFAULT_MODEL);
}

#[test]
fn provided_model_is_used() {
    let result = assemble(z("/src"), z("/dst"), z("Matti Meikäläinen"), z("custom-model"))
        .ok()
        .unwrap();
    assert_eq!(result.model, "custom-model");
}

#[test]
fn assembled_secrets_keep_their_values() {
    let s = assemble(z("/src"), z("/dst"), z("Matti Meikäläinen"), None).ok().unwrap();
    assert_eq!(s.source_dir.as_str(), "/src");
    assert_eq!(s.dest_dir.as_str(), "/dst");
    assert_eq!(s.owner_name.as_str(), "Matti Meikäläinen");
}

#[test]
fn missing_entry_message_is_generic() {
    match assemble(None, None, None, None) {
        Err(e) => assert_eq!(e, "error: configuration incomplete"),
        Ok(_) => panic!("expected an error"),
    }
}

#[test]
fn same_source_and_destination_is_accepted_by_assemble() {
    assert!(assemble(z("/data/docs"), z("/data/docs"), z("Matti Meikäläinen"), None).is_ok());
}

#[test]
fn same_source_and_destination_is_refused_by_the_directory_check() {
    let same = assemble(z("/data/docs"), z("/data/docs/"), z("Matti Meikäläinen"), None)
        .ok()
        .unwrap();
    match check_distinct_directories(&same) {
        Err(e) => assert_eq!(e, "error: source and destination directories are the same"),
        Ok(()) => panic!("expected an error"),
    }
    let distinct = assemble(z("/data/docs"), z("/data/docs-out"), z("Matti Meikäläinen"), None)
        .ok()
        .unwrap();
    assert!(check_distinct_directories(&distinct).is_ok());
}
