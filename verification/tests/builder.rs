use prompt_extractor::PromptBuilder;
use prompt_extractor::StdinServiceMock;

fn query_tokens(input: &str) -> Vec<String> {
    input.split_whitespace().map(String::from).collect::<Vec<String>>()
}

#[test]
fn builder_check_no_arguments() {
    let args = query_tokens("");
    let prompt = PromptBuilder::new(StdinServiceMock { is_terminal: true }).build(args);

    assert!(prompt.is_err());
}

#[test]
fn builder_check_arguments() {
    let args = query_tokens("program.exe arg1 arg2");
    let prompt = PromptBuilder::new(StdinServiceMock { is_terminal: true }).build(args);

    assert!(prompt.is_ok());
    let prompt = prompt.expect("Cannot be None");

    assert_eq!(prompt.program_name, "program.exe");
    assert_eq!(prompt.arguments.is_some_and(|args| args.len() == 2), true);
    assert!(prompt.parameters.is_none());
}

#[test]
fn builder_check_parameter() {
    let args = query_tokens("program.exe -h");
    let prompt = PromptBuilder::new(StdinServiceMock { is_terminal: true }).build(args);

    assert!(prompt.is_ok());
    let prompt = prompt.expect("Cannot be None");

    assert_eq!(prompt.program_name, "program.exe");
    assert!(prompt.arguments.is_none());
    assert_eq!(
        prompt.parameters.is_some_and(|params| params.contains_key("-h")),
        true
    );
}

#[test]
fn builder_check_two_parameters() {
    let args = query_tokens("program.exe -h --test");
    let prompt = PromptBuilder::new(StdinServiceMock { is_terminal: true }).build(args);

    assert!(prompt.is_ok());
    let prompt = prompt.expect("Cannot be None");

    assert_eq!(prompt.program_name, "program.exe");
    assert!(prompt.arguments.is_none());
    assert_eq!(
        prompt
            .parameters
            .is_some_and(|params| params.len() == 2 && params.contains_key("--test")),
        true
    );
}

#[test]
fn builder_check_argument_parameters() {
    let args = query_tokens("program.exe test -h --test");
    let prompt = PromptBuilder::new(StdinServiceMock { is_terminal: true }).build(args);

    assert!(prompt.is_ok());
    let prompt = prompt.expect("Cannot be None");

    assert_eq!(prompt.program_name, "program.exe");
    assert_eq!(prompt.arguments.is_some_and(|args| args.len() == 1), true);
    assert_eq!(
        prompt
            .parameters
            .is_some_and(|params| params.len() == 2 && params.contains_key("--test")),
        true
    );
}

#[test]
fn builder_check_parameter_with_arguments() {
    let args = query_tokens("program.exe -h --test 1");
    let prompt = PromptBuilder::new(StdinServiceMock { is_terminal: true }).build(args);

    assert!(prompt.is_ok());
    let prompt = prompt.expect("Cannot be None");

    assert_eq!(prompt.program_name, "program.exe");
    assert!(prompt.arguments.is_none());
    assert_eq!(
        prompt.parameters.is_some_and(|params| params.len() == 2
            && params.get("--test").is_some_and(|param| param.len() == 1)),
        true
    );
}
