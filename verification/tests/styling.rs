use change_case::recombiner::capitalize_first;
use change_case::recombiner::recombine;
use change_case::recombiner::Case;
use change_case::tokenizer::tokenize;

fn words() -> Vec<Vec<u8>> {
    vec![b"my".to_vec(), b"variable".to_vec(), b"name".to_vec()]
}

#[test]
fn lower_camel_output() {
    assert_eq!(recombine(&words(), Case::LowerCamel), b"myVariableName".to_vec());
}

#[test]
fn upper_camel_output() {
    assert_eq!(recombine(&words(), Case::UpperCamel), b"MyVariableName".to_vec());
}

#[test]
fn snake_output() {
    assert_eq!(recombine(&words(), Case::Snake), b"my_variable_name".to_vec());
}

#[test]
fn screaming_snake_output() {
    assert_eq!(recombine(&words(), Case::ScreamingSnake), b"MY_VARIABLE_NAME".to_vec());
}

#[test]
fn kebab_output() {
    assert_eq!(recombine(&words(), Case::Kebab), b"my-variable-name".to_vec());
}

#[test]
fn screaming_kebab_output() {
    assert_eq!(recombine(&words(), Case::ScreamingKebab), b"MY-VARIABLE-NAME".to_vec());
}

#[test]
fn words_output() {
    assert_eq!(recombine(&words(), Case::Words), b"my variable name".to_vec());
}

#[test]
fn empty_sequence_renders_empty_in_every_style() {
    let none: Vec<Vec<u8>> = Vec::new();
    for style in [
        Case::LowerCamel,
        Case::UpperCamel,
        Case::Snake,
        Case::ScreamingSnake,
        Case::Kebab,
        Case::ScreamingKebab,
        Case::Words,
    ] {
        assert_eq!(recombine(&none, style), b"".to_vec());
    }
}

#[test]
fn empty_tokens_render_as_bare_separators() {
    let ts = vec![b"a".to_vec(), b"".to_vec()];
    assert_eq!(recombine(&ts, Case::Snake), b"a_".to_vec());
    assert_eq!(recombine(&vec![b"".to_vec()], Case::Snake), b"".to_vec());
}

#[test]
fn capitalize_first_uppercases_only_the_first_byte() {
    assert_eq!(capitalize_first(b"word"), b"Word".to_vec());
    assert_eq!(capitalize_first(b"wOrD"), b"WOrD".to_vec());
    assert_eq!(capitalize_first(b""), b"".to_vec());
    assert_eq!(capitalize_first(b"9lives"), b"9lives".to_vec());
}

#[test]
fn snake_conversion_is_idempotent() {
    for line in [&b"myVariableName"[..], b"my_variable-name value", b"a_", b"___", b"", b"_a"] {
        let once = recombine(&tokenize(line).unwrap(), Case::Snake);
        let twice = recombine(&tokenize(&once).unwrap(), Case::Snake);
        assert_eq!(twice, once);
    }
}

#[test]
fn snake_rendering_round_trips_nonempty_tokens() {
    let ts = words();
    let rendered = recombine(&ts, Case::Snake);
    assert_eq!(tokenize(&rendered).unwrap(), ts);
}

#[test]
fn end_to_end_conversion() {
    let tokens = tokenize(b"some-mixedCase_input").unwrap();
    assert_eq!(recombine(&tokens, Case::LowerCamel), b"someMixedCaseInput".to_vec());
    assert_eq!(recombine(&tokens, Case::ScreamingKebab), b"SOME-MIXED-CASE-INPUT".to_vec());
}
