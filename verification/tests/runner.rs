use padd::runner::SpecRunner;

const SEPARATING_SPEC: &str = "
alphabet 'ab'

cdfa {
    start
        'a' -> ^A
        'b' -> ^B;
}

grammar {
    s `{} {}`
        | s A
        | s B
        | `SEPARATED:`;
}
    ";

#[test]
fn runner_formats_readme_example() {
    let runner = SpecRunner::build(SEPARATING_SPEC).unwrap();
    assert_eq!(runner.format_text("abbaba").unwrap(), "SEPARATED: a b b a b a");
}

#[test]
fn runner_reports_lex_error() {
    let runner = SpecRunner::build(SEPARATING_SPEC).unwrap();
    let err = runner.format_text("abc").unwrap_err();
    assert!(err.starts_with("Failed to lex input: "));
}

#[test]
fn runner_reports_spec_error() {
    let err = SpecRunner::build("alphabet 'ab'").err().unwrap();
    assert_eq!(err, "Region error: Missing required region: 'CDFA'");
}
