use pdf_scrub::anonymize::{anonymize, can_anonymize, replace_ci, try_anonymize};

#[test]
fn no_owner_name_in_text_returns_unchanged() {
    assert_eq!(
        anonymize("No names here.", "Matti", "Meikäläinen"),
        "No names here."
    );
}

#[test]
fn firstname_lastname_replaced_with_omistaja() {
    assert_eq!(
        anonymize("Matti Meikäläinen signed.", "Matti", "Meikäläinen"),
        "Omistaja signed."
    );
}

#[test]
fn lastname_firstname_replaced_with_omistaja() {
    assert_eq!(
        anonymize("Meikäläinen Matti signed.", "Matti", "Meikäläinen"),
        "Omistaja signed."
    );
}

#[test]
fn full_name_match_is_case_insensitive() {
    assert_eq!(
        anonymize("MATTI MEIKÄLÄINEN signed.", "Matti", "Meikäläinen"),
        "Omistaja signed."
    );
}

#[test]
fn firstname_alone_replaced_with_omistaja_question() {
    assert_eq!(
        anonymize("Signed by Matti.", "Matti", "Meikäläinen"),
        "Signed by Omistaja?."
    );
}

#[test]
fn lastname_alone_replaced_with_omistaja_question() {
    assert_eq!(
        anonymize("Signed by Meikäläinen.", "Matti", "Meikäläinen"),
        "Signed by Omistaja?."
    );
}

#[test]
fn partial_match_is_case_insensitive() {
    assert_eq!(
        anonymize("Signed by MATTI.", "Matti", "Meikäläinen"),
        "Signed by Omistaja?."
    );
}

#[test]
fn multiple_occurrences_all_replaced() {
    assert_eq!(
        anonymize("Matti met Matti again.", "Matti", "Meikäläinen"),
        "Omistaja? met Omistaja? again."
    );
}

#[test]
fn full_name_replaced_before_partials() {
    assert_eq!(
        anonymize(
            "Matti Meikäläinen said hello to Matti.",
            "Matti",
            "Meikäläinen"
        ),
        "Omistaja said hello to Omistaja?."
    );
}

#[test]
fn newlines_preserved() {
    assert_eq!(
        anonymize(
            "Dear Matti Meikäläinen,\nPlease sign.\nRegards",
            "Matti",
            "Meikäläinen"
        ),
        "Dear Omistaja,\nPlease sign.\nRegards"
    );
}

#[test]
fn empty_last_name_turns_full_name_patterns_into_name_and_space() {
    // With an empty last name the full-name patterns are "Matti " and
    // " Matti", and they take the adjacent space with them.
    assert_eq!(anonymize("Matti and matti.", "Matti", ""), "OmistajaandOmistaja.");
}

#[test]
fn name_inside_a_longer_word_is_replaced_too() {
    assert_eq!(anonymize("Mattila", "Matti", "Meikäläinen"), "Omistaja?la");
}

#[test]
fn mixed_case_umlauts_match() {
    assert_eq!(
        anonymize("mEIKÄläinen", "Matti", "Meikäläinen"),
        "Omistaja?"
    );
}

#[test]
fn plain_finnish_text_is_anonymizable() {
    assert!(can_anonymize("Hyvä Matti Meikäläinen, äöå ÄÖÅ.", "Matti", "Meikäläinen"));
}

#[test]
fn text_whose_lowercase_changes_width_is_anonymized() {
    // U+023A (2 bytes in UTF-8) lowercases to U+2C65 (3 bytes).
    assert_eq!(
        anonymize("\u{23A}\u{23A}\u{23A}\u{23A} Matti", "Matti", "Meikäläinen"),
        "\u{23A}\u{23A}\u{23A}\u{23A} Omistaja?"
    );
}

#[test]
fn dotted_capital_i_before_the_pattern_is_kept() {
    // U+0130 lowercases to two characters; the text after it is still matched.
    assert_eq!(replace_ci("\u{130}x", "x", "y"), "\u{130}y");
    assert_eq!(replace_ci("\u{130}X\u{130}", "x", "yz"), "\u{130}yz\u{130}");
}

#[test]
fn replacement_ignores_the_case_of_the_pattern() {
    assert_eq!(replace_ci("Hello WORLD and world", "World", "X"), "Hello X and X");
    assert_eq!(replace_ci("Hello WORLD and world", "wORLD", "X"), "Hello X and X");
}

#[test]
fn replacement_does_not_overlap() {
    assert_eq!(replace_ci("aaaa", "AA", "b"), "bb");
    assert_eq!(replace_ci("aaa", "aa", "b"), "ba");
}

#[test]
fn empty_pattern_leaves_the_text() {
    assert_eq!(replace_ci("abc", "", "X"), "abc");
}

#[test]
fn text_shorter_than_the_pattern_is_kept() {
    assert_eq!(replace_ci("ab", "abc", "X"), "ab");
}

#[test]
fn try_anonymize_reports_unclosed_tags() {
    assert_eq!(
        try_anonymize("Dear Matti Meikäläinen", "Matti", "Meikäläinen"),
        Some("Dear Omistaja".to_string())
    );
    assert_eq!(try_anonymize("text [NAME: John Doe", "Matti", "Meikäläinen"), None);
}

#[test]
fn no_name_tag_is_left_after_anonymization() {
    let out = anonymize(
        "[NAME: Matti Meikäläinen] [NAME: [NAME: X] and [NAME: Y] Matti",
        "Matti",
        "Meikäläinen",
    );
    assert!(!out.contains("[NAME:"));
}

#[test]
fn name_tags_are_replaced_by_role() {
    assert_eq!(
        anonymize(
            "[NAME: Matti Meikäläinen] met [NAME: Matti Virtanen], [NAME: Mattila Koski] and [NAME: John Doe], then [NAME: Mattila Koski].",
            "Matti",
            "Meikäläinen"
        ),
        "Omistaja met Omistaja?, henkilö 1 and henkilö 2, then henkilö 1."
    );
}

#[test]
fn tag_content_is_trimmed_and_compared_ignoring_case() {
    assert_eq!(
        anonymize("[NAME:  MATTI MEIKÄLÄINEN ] / [NAME:meikäläinen]", "Matti", "Meikäläinen"),
        "Omistaja / Omistaja?"
    );
}

#[test]
fn many_persons_get_growing_numbers() {
    let mut text = String::new();
    for i in 0..12 {
        text.push_str(&format!("[NAME: P{i}] "));
    }
    let out = anonymize(&text, "Matti", "Meikäläinen");
    assert!(out.starts_with("henkilö 1 henkilö 2 "));
    assert!(out.ends_with("henkilö 11 henkilö 12 "));
}

#[test]
fn unclosed_tag_cannot_be_anonymized() {
    assert!(!can_anonymize("text [NAME: John Doe", "Matti", "Meikäläinen"));
}
