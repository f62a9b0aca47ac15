use indent_stack::{IndentError, IndentStack};

#[test]
fn same_text_is_no_change_at_every_depth() {
    let mut is = IndentStack::default_inconsistent_indents();
    assert_eq!(is.accept(""), Ok(0));
    assert_eq!(is.accept(" "), Ok(1));
    assert_eq!(is.accept(" "), Ok(0));
    assert_eq!(is.accept(" \t"), Ok(1));
    assert_eq!(is.accept(" \t"), Ok(0));
    assert_eq!(is.accept(" \t"), Ok(0));
    assert_eq!(is.accept(""), Ok(-2));
}

#[test]
fn full_dedent_after_many_indents_resets() {
    let mut is = IndentStack::default_inconsistent_indents();
    assert_eq!(is.accept("  "), Ok(1));
    assert_eq!(is.accept("    "), Ok(1));
    assert_eq!(is.accept("    \t"), Ok(1));
    assert_eq!(is.accept("    \t "), Ok(1));
    assert_eq!(is.accept(""), Ok(-4));
    // Behaves as a new tracker: any first indent is accepted.
    assert_eq!(is.accept("\t"), Ok(1));
    assert_eq!(is.accept(""), Ok(-1));
}

#[test]
fn strict_unit_kept_after_full_dedent() {
    let mut is = IndentStack::default();
    assert_eq!(is.accept("  "), Ok(1));
    assert_eq!(is.accept(""), Ok(-1));
    assert_eq!(is.accept("\t"), Err(IndentError::InconsistentIndent));
    assert_eq!(is.accept("  "), Ok(1));
}

#[test]
fn error_leaves_state_untouched() {
    let mut is = IndentStack::default_inconsistent_indents();
    assert_eq!(is.accept("  "), Ok(1));
    assert_eq!(is.accept("  \t"), Ok(1));
    assert_eq!(is.accept(" "), Err(IndentError::MixedIndent));
    assert_eq!(is.accept("  \t"), Ok(0));
    assert_eq!(is.accept("\t"), Err(IndentError::MixedIndent));
    assert_eq!(is.accept(""), Ok(-2));

    let mut is = IndentStack::default();
    assert_eq!(is.accept("  "), Ok(1));
    assert_eq!(is.accept("  \t"), Err(IndentError::InconsistentIndent));
    assert_eq!(is.accept("  "), Ok(0));
    assert_eq!(is.accept("    "), Ok(1));
    assert_eq!(is.accept(""), Ok(-2));
}

#[test]
fn strict_mode_requires_the_first_unit() {
    let mut is = IndentStack::default();
    assert_eq!(is.accept("\t"), Ok(1));
    assert_eq!(is.accept("\t\t"), Ok(1));
    assert_eq!(is.accept("\t\t\t"), Ok(1));
    assert_eq!(is.accept("\t\t\t  "), Err(IndentError::InconsistentIndent));
    assert_eq!(is.accept("\t\t\t\t\t"), Err(IndentError::InconsistentIndent));
    assert_eq!(is.accept("\t"), Ok(-2));
}

#[test]
fn lenient_mode_takes_differing_units() {
    let mut is = IndentStack::default_inconsistent_indents();
    assert_eq!(is.accept("  "), Ok(1));
    assert_eq!(is.accept("  \t"), Ok(1));
    assert_eq!(is.accept("  \t    "), Ok(1));
    assert_eq!(is.accept("  \t"), Ok(-1));
}

#[test]
fn partial_level_is_mixed() {
    let mut is = IndentStack::default_inconsistent_indents();
    assert_eq!(is.accept("    "), Ok(1));
    assert_eq!(is.accept("  "), Err(IndentError::MixedIndent));
    assert_eq!(is.accept("      "), Ok(1));
    assert_eq!(is.accept("     "), Err(IndentError::MixedIndent));
}

#[test]
fn non_ascii_text_compared_by_character() {
    let mut is = IndentStack::default_inconsistent_indents();
    assert_eq!(is.accept("\u{3000}"), Ok(1));
    assert_eq!(is.accept("\u{3000}\u{a0}"), Ok(1));
    assert_eq!(is.accept("\u{3000}"), Ok(-1));
    assert_eq!(is.accept("\u{a0}"), Err(IndentError::MixedIndent));
    assert_eq!(is.accept(""), Ok(-1));
}

#[test]
fn error_messages() {
    assert_eq!(
        IndentError::InconsistentIndent.message(),
        "Not all indentations use the same character sequence."
    );
    assert_eq!(
        IndentError::MixedIndent.message(),
        "The current indentation is not a continuation nor substring of the previous indentation."
    );
}
