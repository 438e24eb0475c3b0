use curator::errors::{describe_error_chain, format_error_chain, log_errors};

#[test]
fn chain_of_one() {
    let e = anyhow::Error::msg("boom");
    assert_eq!(format_error_chain(&e), "boom\n");
}

#[test]
fn chain_with_causes() {
    let e = anyhow::Error::msg("root cause").context("middle").context("Failed while reading file");
    assert_eq!(
        format_error_chain(&e),
        "Failed while reading file\nCaused by: middle\nCaused by: root cause\n"
    );
    log_errors(&e);
}

#[test]
fn describe_messages() {
    let messages = vec!["a".to_string(), "b".to_string()];
    assert_eq!(describe_error_chain(&messages), "a\nCaused by: b\n");
    assert_eq!(describe_error_chain(&vec![]), "");
}

#[test]
fn log_errors_writes_the_description() {
    let e = anyhow::Error::msg("cause").context("outer");
    let _ = log_errors(&e);
    assert_eq!(format_error_chain(&e), "outer\nCaused by: cause\n");
}
