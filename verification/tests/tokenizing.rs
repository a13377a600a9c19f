use change_case::tokenizer::tokenize;
use change_case::tokenizer::normalize;
use change_case::tokenizer::TokenizeError;
use change_case::chars::is_terminator;
use change_case::chars::should_split;

fn toks(input: &[u8]) -> Vec<Vec<u8>> {
    tokenize(input).expect("ascii input must tokenize")
}

#[test]
fn camel_boundaries() {
    assert_eq!(toks(b"myVariableName"), vec![b"my".to_vec(), b"variable".to_vec(), b"name".to_vec()]);
}

#[test]
fn terminator_boundaries() {
    assert_eq!(
        toks(b"my_variable-name value"),
        vec![b"my".to_vec(), b"variable".to_vec(), b"name".to_vec(), b"value".to_vec()]
    );
}

#[test]
fn acronym_runs_stay_grouped() {
    // Only a lowercase-to-uppercase transition splits; consecutive
    // uppercase letters stay in one token.
    assert_eq!(toks(b"parseJSONValue"), vec![b"parse".to_vec(), b"jsonvalue".to_vec()]);
}

#[test]
fn empty_line_gives_one_empty_token() {
    assert_eq!(toks(b""), vec![b"".to_vec()]);
}

#[test]
fn all_terminator_line_gives_one_empty_token() {
    assert_eq!(toks(b"___"), vec![b"".to_vec()]);
    assert_eq!(toks(b"   "), vec![b"".to_vec()]);
}

#[test]
fn trailing_terminator_gives_trailing_empty_token() {
    assert_eq!(toks(b"a_"), vec![b"a".to_vec(), b"".to_vec()]);
}

#[test]
fn leading_terminators_fold_into_first_token() {
    assert_eq!(toks(b"_a"), vec![b"a".to_vec()]);
    assert_eq!(toks(b"__a_b"), vec![b"a".to_vec(), b"b".to_vec()]);
}

#[test]
fn uniform_line_is_one_lowercased_token() {
    assert_eq!(toks(b"hello9"), vec![b"hello9".to_vec()]);
    assert_eq!(toks(b"HELLO"), vec![b"hello".to_vec()]);
}

#[test]
fn non_ascii_is_rejected() {
    assert_eq!(tokenize("caf\u{e9}".as_bytes()), Err(TokenizeError::NonAsciiInput));
    assert_eq!(tokenize(&[0x80u8]), Err(TokenizeError::NonAsciiInput));
}

#[test]
fn ascii_is_accepted() {
    assert!(tokenize(b"anything goes: 123!").is_ok());
}

#[test]
fn normalize_trims_strips_and_lowercases() {
    assert_eq!(normalize(b"  A_B-C "), b"abc".to_vec());
    assert_eq!(normalize(b"\tWord\t"), b"word".to_vec());
    assert_eq!(normalize(b""), b"".to_vec());
}

#[test]
fn terminator_classification() {
    assert!(is_terminator(b'_'));
    assert!(is_terminator(b'-'));
    assert!(is_terminator(b' '));
    assert!(!is_terminator(b'a'));
    assert!(!is_terminator(b'\t'));
}

#[test]
fn split_rule_is_pairwise() {
    assert!(should_split(b'a', b'B'));
    assert!(!should_split(b'A', b'B'));
    assert!(should_split(b'a', b'_'));
    assert!(!should_split(b'_', b'_'));
    assert!(!should_split(b'_', b'a'));
}
