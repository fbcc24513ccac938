use prompt_extractor::classify_tokens;
use prompt_extractor::BrokenPipeMock;
use prompt_extractor::PromptBuilder;
use prompt_extractor::PromptError;
use prompt_extractor::StdinServiceMock;

fn tokens(input: &[&str]) -> Vec<String> {
    input.iter().map(|t| String::from(*t)).collect::<Vec<String>>()
}

#[test]
fn classify_program_name_alone() {
    let prompt = classify_tokens(tokens(&["program.exe"]), None).expect("one token suffices");

    assert_eq!(prompt.program_name, "program.exe");
    assert!(prompt.content_piped.is_none());
    assert!(prompt.arguments.is_none());
    assert!(prompt.parameters.is_none());
}

#[test]
fn classify_empty_sequence_is_missing_program_name() {
    let result = classify_tokens(Vec::new(), None);

    assert_eq!(result.err(), Some(PromptError::MissingProgramName));
}

#[test]
fn classify_arguments_keep_their_order() {
    let prompt =
        classify_tokens(tokens(&["program.exe", "arg1", "arg2"]), None).expect("classifies");

    assert_eq!(prompt.program_name, "program.exe");
    assert_eq!(
        prompt.arguments,
        Some(vec![String::from("arg1"), String::from("arg2")])
    );
    assert!(prompt.parameters.is_none());
}

#[test]
fn classify_lone_parameter_has_no_values() {
    let prompt = classify_tokens(tokens(&["program.exe", "-h"]), None).expect("classifies");

    assert!(prompt.arguments.is_none());
    let params = prompt.parameters.expect("one parameter was found");
    assert_eq!(params.len(), 1);
    assert_eq!(params.get("-h"), Some(&Vec::new()));
}

#[test]
fn classify_consecutive_parameters_each_get_empty_values() {
    let prompt =
        classify_tokens(tokens(&["program.exe", "-h", "--test"]), None).expect("classifies");

    assert!(prompt.arguments.is_none());
    let params = prompt.parameters.expect("two parameters were found");
    assert_eq!(params.len(), 2);
    assert_eq!(params.get("-h"), Some(&Vec::new()));
    assert_eq!(params.get("--test"), Some(&Vec::new()));
}

#[test]
fn classify_argument_before_parameters_is_positional() {
    let prompt = classify_tokens(tokens(&["program.exe", "test", "-h", "--test"]), None)
        .expect("classifies");

    assert_eq!(prompt.arguments, Some(vec![String::from("test")]));
    let params = prompt.parameters.expect("two parameters were found");
    assert_eq!(params.len(), 2);
    assert_eq!(params.get("-h"), Some(&Vec::new()));
    assert_eq!(params.get("--test"), Some(&Vec::new()));
}

#[test]
fn classify_value_after_parameter_attaches_to_it() {
    let prompt = classify_tokens(tokens(&["program.exe", "-h", "--test", "1"]), None)
        .expect("classifies");

    assert!(prompt.arguments.is_none());
    let params = prompt.parameters.expect("two parameters were found");
    assert_eq!(params.len(), 2);
    assert_eq!(params.get("-h"), Some(&Vec::new()));
    assert_eq!(params.get("--test"), Some(&vec![String::from("1")]));
}

#[test]
fn classify_values_keep_their_order_until_next_parameter() {
    let prompt = classify_tokens(
        tokens(&["program.exe", "-f", "one", "two", "-g", "three"]),
        None,
    )
    .expect("classifies");

    assert!(prompt.arguments.is_none());
    let params = prompt.parameters.expect("two parameters were found");
    assert_eq!(
        params.get("-f"),
        Some(&vec![String::from("one"), String::from("two")])
    );
    assert_eq!(params.get("-g"), Some(&vec![String::from("three")]));
}

#[test]
fn classify_duplicate_parameter_keeps_only_last_values() {
    let prompt = classify_tokens(
        tokens(&["program.exe", "-x", "old1", "old2", "-x", "new"]),
        None,
    )
    .expect("classifies");

    let params = prompt.parameters.expect("one parameter name was found");
    assert_eq!(params.len(), 1);
    assert_eq!(params.get("-x"), Some(&vec![String::from("new")]));
}

#[test]
fn classify_bare_dash_opens_a_parameter() {
    let prompt =
        classify_tokens(tokens(&["program.exe", "-", "value"]), None).expect("classifies");

    assert!(prompt.arguments.is_none());
    let params = prompt.parameters.expect("the bare dash is a parameter");
    assert_eq!(params.len(), 1);
    assert_eq!(params.get("-"), Some(&vec![String::from("value")]));
}

#[test]
fn classify_carries_piped_content_unchanged() {
    let content = Some(String::from("line one\nline two\n"));
    let prompt =
        classify_tokens(tokens(&["program.exe", "arg"]), content.clone()).expect("classifies");

    assert_eq!(prompt.content_piped, content);
    assert_eq!(prompt.arguments, Some(vec![String::from("arg")]));
}

#[test]
fn build_with_terminal_reads_no_piped_content() {
    let prompt = PromptBuilder::new(StdinServiceMock { is_terminal: true })
        .build(tokens(&["program.exe"]))
        .expect("classifies");

    assert!(prompt.content_piped.is_none());
}

#[test]
fn build_with_redirected_empty_stream_keeps_empty_content() {
    let prompt = PromptBuilder::new(StdinServiceMock { is_terminal: false })
        .build(tokens(&["program.exe"]))
        .expect("classifies");

    assert_eq!(prompt.content_piped, Some(String::new()));
}

#[test]
fn build_with_unreadable_pipe_fails() {
    let result = PromptBuilder::new(BrokenPipeMock {}).build(tokens(&["program.exe"]));

    assert_eq!(result.err(), Some(PromptError::PipedReadFailure));
}

#[test]
fn build_reports_missing_program_name_before_probing() {
    let result = PromptBuilder::new(BrokenPipeMock {}).build(Vec::new());

    assert_eq!(result.err(), Some(PromptError::MissingProgramName));
}

#[test]
fn classify_same_tokens_twice_gives_identical_results() {
    let first = classify_tokens(tokens(&["program.exe", "a", "-p", "v"]), None)
        .expect("classifies");
    let second = classify_tokens(tokens(&["program.exe", "a", "-p", "v"]), None)
        .expect("classifies");

    assert_eq!(first.program_name, second.program_name);
    assert_eq!(first.arguments, second.arguments);
    assert_eq!(
        first.parameters.as_ref().map(|p| p.len()),
        second.parameters.as_ref().map(|p| p.len())
    );
    assert_eq!(
        first.parameters.as_ref().and_then(|p| p.get("-p")),
        second.parameters.as_ref().and_then(|p| p.get("-p"))
    );
}
