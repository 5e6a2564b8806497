use pdf_scrub::document::{
    anonymize_document, join_pages, reverse_owner_name, split_owner_name, AnonymizeError,
};

#[test]
fn pages_are_joined_with_a_rule() {
    let pages = vec!["one".to_string(), "two".to_string(), "three".to_string()];
    assert_eq!(join_pages(&pages), "one\n\n---\n\ntwo\n\n---\n\nthree");
    assert_eq!(join_pages(&vec!["only".to_string()]), "only");
    assert_eq!(join_pages(&Vec::new()), "");
}

#[test]
fn owner_name_splits_at_first_and_last_space() {
    assert_eq!(
        split_owner_name("Matti Meikäläinen"),
        ("Matti".to_string(), "Meikäläinen".to_string())
    );
    assert_eq!(
        split_owner_name("Anna Maria Virtanen"),
        ("Anna".to_string(), "Virtanen".to_string())
    );
    assert_eq!(split_owner_name("Matti"), ("Matti".to_string(), "Matti".to_string()));
}

#[test]
fn document_is_joined_then_anonymized() {
    let pages = vec![
        "Dear Matti Meikäläinen,".to_string(),
        "Signed, MEIKÄLÄINEN".to_string(),
    ];
    assert_eq!(
        anonymize_document(&pages, "Matti Meikäläinen"),
        Ok("Dear Omistaja,\n\n---\n\nSigned, Omistaja?".to_string())
    );
}

#[test]
fn document_without_owner_names_is_unchanged() {
    let pages = vec!["Nothing to see.".to_string(), "Still nothing.".to_string()];
    assert_eq!(
        anonymize_document(&pages, "Matti Meikäläinen"),
        Ok("Nothing to see.\n\n---\n\nStill nothing.".to_string())
    );
}

#[test]
fn single_name_owner_is_their_full_name() {
    let pages = vec!["Matti and matti.".to_string()];
    assert_eq!(
        anonymize_document(&pages, "Matti"),
        Ok("Omistaja and Omistaja.".to_string())
    );
}

#[test]
fn three_part_owner_name_is_replaced_whole() {
    let pages = vec!["Anna Maria Virtanen and Virtanen Anna Maria; Maria.".to_string()];
    assert_eq!(
        anonymize_document(&pages, "Anna Maria Virtanen"),
        Ok("Omistaja and Omistaja; Maria.".to_string())
    );
    assert_eq!(reverse_owner_name("Anna Maria Virtanen"), "Virtanen Anna Maria");
    assert_eq!(reverse_owner_name("Matti"), "Matti");
}

#[test]
fn tags_across_pages_are_numbered_once() {
    let pages = vec![
        "[NAME: John Doe] wrote to [NAME: Matti Meikäläinen].".to_string(),
        "[NAME: Jane Roe] replied; [NAME: john doe] agreed.".to_string(),
    ];
    assert_eq!(
        anonymize_document(&pages, "Matti Meikäläinen"),
        Ok("henkilö 1 wrote to Omistaja.\n\n---\n\nhenkilö 2 replied; henkilö 1 agreed.".to_string())
    );
}

#[test]
fn unclosed_tag_is_an_error() {
    let pages = vec!["text [NAME: John Doe without closing bracket".to_string()];
    assert_eq!(
        anonymize_document(&pages, "Matti Meikäläinen"),
        Err(AnonymizeError::UnclosedNameTag)
    );
}
