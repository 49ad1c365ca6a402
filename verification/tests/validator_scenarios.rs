use brackets::basic;
use brackets::{
    validate_brackets, validate_with_options, BracketError, BracketErrorKind, ErrorMode, Options,
    UnclosedPolicy,
};

#[test]
fn nested_pairs_validate_ok() {
    let opts = Options::default();
    assert_eq!(validate_with_options("([{}])", &opts), Ok(()));
    assert_eq!(validate_with_options("", &opts), Ok(()));
    assert_eq!(validate_with_options("()[]{}", &opts), Ok(()));
}

#[test]
fn non_bracket_characters_are_ignored() {
    assert!(validate_brackets("hello(world)123🚀").is_ok());
    assert!(validate_brackets("no brackets at all").is_ok());
}

#[test]
fn err_always_carries_a_nonempty_list() {
    let mut opts = Options::default();
    for input in ["(", ")", "([)]", ")](", "((("] {
        opts.error_mode = ErrorMode::StopAtFirst;
        let first = validate_with_options(input, &opts).unwrap_err();
        assert_eq!(first.len(), 1);
        opts.error_mode = ErrorMode::CollectAll;
        let all = validate_with_options(input, &opts).unwrap_err();
        assert!(!all.is_empty());
    }
}

#[test]
fn validation_is_idempotent() {
    let mut opts = Options::default();
    opts.error_mode = ErrorMode::CollectAll;
    let once = validate_with_options(")](", &opts);
    let twice = validate_with_options(")](", &opts);
    assert_eq!(once, twice);
    let ok_once = validate_with_options("([{}])", &opts);
    let ok_twice = validate_with_options("([{}])", &opts);
    assert_eq!(ok_once, ok_twice);
}

#[test]
fn mismatched_pair_reports_exact_error() {
    let opts = Options::default();
    let errs = validate_with_options("([)]", &opts).unwrap_err();
    assert_eq!(
        errs,
        vec![BracketError {
            index: 2,
            kind: BracketErrorKind::MismatchedPair {
                expected: ']',
                found: ')',
            },
        }]
    );
}

#[test]
fn collect_all_reports_every_error_in_order() {
    let mut opts = Options::default();
    opts.error_mode = ErrorMode::CollectAll;
    let errs = validate_with_options(")](", &opts).unwrap_err();
    assert_eq!(
        errs,
        vec![
            BracketError {
                index: 0,
                kind: BracketErrorKind::UnexpectedClosing { found: ')' },
            },
            BracketError {
                index: 1,
                kind: BracketErrorKind::UnexpectedClosing { found: ']' },
            },
            BracketError {
                index: 2,
                kind: BracketErrorKind::UnclosedOpenings {
                    expected: ')',
                    open_index: 2,
                },
            },
        ]
    );
}

#[test]
fn stop_at_first_agrees_with_collect_all() {
    for input in ["([)]", ")](", "(((", "]", "{[}"] {
        let mut opts = Options::default();
        opts.error_mode = ErrorMode::StopAtFirst;
        let first = validate_with_options(input, &opts).unwrap_err();
        opts.error_mode = ErrorMode::CollectAll;
        let all = validate_with_options(input, &opts).unwrap_err();
        assert_eq!(first[0], all[0]);
        assert_eq!(first.len(), 1);
    }
}

#[test]
fn unclosed_policy_selects_latest_or_earliest() {
    let mut opts = Options::default();
    opts.unclosed_policy = UnclosedPolicy::LatestOpen;
    let latest = validate_with_options("(((", &opts).unwrap_err();
    assert_eq!(
        latest[0].kind,
        BracketErrorKind::UnclosedOpenings {
            expected: ')',
            open_index: 2,
        }
    );

    opts.unclosed_policy = UnclosedPolicy::EarliestOpen;
    let earliest = validate_with_options("(((", &opts).unwrap_err();
    assert_eq!(
        earliest[0].kind,
        BracketErrorKind::UnclosedOpenings {
            expected: ')',
            open_index: 0,
        }
    );
}

#[test]
fn multibyte_positions_are_byte_offsets() {
    let opts = Options::default();
    let errs = validate_with_options("(é]", &opts).unwrap_err();
    // '(' is 1 byte and 'é' is 2, so the ']' sits at byte offset 3
    assert_eq!(errs[0].index, 3);
    assert_eq!(
        errs[0].kind,
        BracketErrorKind::MismatchedPair {
            expected: ')',
            found: ']',
        }
    );
}

#[test]
fn duplicate_opener_registration_last_wins() {
    let mut opts = Options::default();
    opts.alphabet = brackets::Alphabet::with_pairs(&[('(', ')'), ('(', ']')]);
    // the later registration decides the expected closer
    assert!(validate_with_options("(]", &opts).is_ok());
    let errs = validate_with_options("()", &opts).unwrap_err();
    assert_eq!(
        errs[0].kind,
        BracketErrorKind::MismatchedPair {
            expected: ']',
            found: ')',
        }
    );
}

#[test]
fn basic_validator_agrees_with_configurable_default() {
    for input in ["([{}])", "([)]", ")](", "(((", "", "hello(world)123🚀", "(é]"] {
        assert_eq!(basic::validate_brackets(input), validate_brackets(input));
    }
}

#[test]
fn alphabet_lookups_match_registration() {
    let a = brackets::Alphabet::with_pairs(&[('(', ')'), ('<', '>')]);
    assert!(a.is_opener('('));
    assert!(a.is_opener('<'));
    assert!(!a.is_opener(')'));
    assert!(!a.is_opener('x'));
    assert!(a.is_closer(')'));
    assert!(a.is_closer('>'));
    assert!(!a.is_closer('('));
    assert_eq!(a.expected_for('('), Some(')'));
    assert_eq!(a.expected_for('<'), Some('>'));
    assert_eq!(a.expected_for('x'), None);

    let d = brackets::Alphabet::default_ascii();
    assert!(d.is_opener('(') && d.is_opener('[') && d.is_opener('{'));
    assert!(d.is_closer(')') && d.is_closer(']') && d.is_closer('}'));
    assert!(!d.is_opener('<'));
    assert_eq!(d.expected_for('{'), Some('}'));
}
