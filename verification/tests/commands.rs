//! Checks of variable substitution, command-line building, output
//! rendering, and the pipeline state machine.

use syncdir::pipeline::{
    build_command_line, dec_bytes, dec_bytes_i32, first_error_index, render_output, tokenize,
    PipelineError, PipelineRun, PriorStep, StepFailure,
};
use syncdir::vars::VariableReplace;

fn to_strings(tokens: &Vec<Vec<u8>>) -> Vec<String> {
    tokens.iter().map(|t| String::from_utf8(t.clone()).unwrap()).collect()
}

#[test]
fn substitution_expands_known_names_only() {
    let mut vars = VariableReplace::new();
    vars.add(b"path", b"dir/file.txt");
    let r = vars.apply(b"upload $path to $target");
    assert_eq!(r, b"upload dir/file.txt to $target".to_vec());
}

#[test]
fn substitution_is_maximal_munch() {
    let mut vars = VariableReplace::new();
    vars.add(b"path", b"P");
    vars.add(b"path_", b"Q");
    assert_eq!(vars.apply(b"$path_"), b"Q".to_vec());
    assert_eq!(vars.apply(b"$path/x"), b"P/x".to_vec());
    assert_eq!(vars.apply(b"$ alone"), b"$ alone".to_vec());
}

#[test]
fn clones_do_not_touch_the_base() {
    let mut base = VariableReplace::new();
    base.add(b"source", b"/src");
    let mut per_op = base.duplicate();
    per_op.add(b"path", b"a.txt");
    assert!(base.get(b"path").is_none());
    assert_eq!(per_op.apply(b"$source/$path"), b"/src/a.txt".to_vec());
}

#[test]
fn tokenizer_splits_on_whitespace_and_quotes() {
    let r = tokenize(b"scp  \"my file.txt\" 'x y'\tz");
    assert_eq!(
        to_strings(&r),
        vec!["scp".to_string(), "my file.txt".to_string(), "x y".to_string(), "z".to_string()]
    );
}

#[test]
fn empty_and_quoted_empty_tokens() {
    assert!(tokenize(b"").is_empty());
    assert!(tokenize(b" \t ").is_empty());
    // A quote pair alone still makes a token, an empty one.
    let quoted_empty = tokenize(b"x \"\" y");
    assert_eq!(
        to_strings(&quoted_empty),
        vec!["x".to_string(), "".to_string(), "y".to_string()]
    );
}

#[test]
fn single_token_templates_are_retokenized() {
    let mut vars = VariableReplace::new();
    vars.add(b"path", b"a.txt");
    let template = vec![b"curl -T $path http://host/up".to_vec()];
    let cmd = build_command_line(&vars, &template);
    assert_eq!(
        to_strings(&cmd),
        vec!["curl".to_string(), "-T".to_string(), "a.txt".to_string(), "http://host/up".to_string()]
    );
}

#[test]
fn multi_token_templates_are_used_verbatim() {
    let mut vars = VariableReplace::new();
    vars.add(b"path", b"my file.txt");
    let template = vec![b"rm".to_vec(), b"$path".to_vec()];
    let cmd = build_command_line(&vars, &template);
    assert_eq!(to_strings(&cmd), vec!["rm".to_string(), "my file.txt".to_string()]);
}

#[test]
fn escape_marker_skips_retokenization() {
    let vars = VariableReplace::new();
    let template = vec![b"@echo one two".to_vec()];
    let cmd = build_command_line(&vars, &template);
    assert_eq!(to_strings(&cmd), vec!["echo one two".to_string()]);
}

#[test]
fn output_rendering_normalizes_and_marks_lines() {
    let r = render_output(b"  first\r\nsecond\rthird\n");
    assert_eq!(r, b"first\n|second\n|third".to_vec());
    assert_eq!(render_output(b""), Vec::<u8>::new());
    assert_eq!(render_output(b" \t \r\n"), Vec::<u8>::new());
}

#[test]
fn output_decoding_is_real_utf8_decoding() {
    // A leading byte-order mark is removed and a malformed byte is
    // replaced: the raw bytes are not handed back unchanged.
    let r = render_output(&[0xEF, 0xBB, 0xBF, b'h', b'i', 0xFF]);
    assert_eq!(r, "hi\u{FFFD}".as_bytes().to_vec());
}

#[test]
fn decimal_rendering() {
    assert_eq!(dec_bytes(0), b"0".to_vec());
    assert_eq!(dec_bytes(12345), b"12345".to_vec());
    assert_eq!(dec_bytes_i32(-42), b"-42".to_vec());
    assert_eq!(dec_bytes_i32(7), b"7".to_vec());
}

#[test]
fn pipeline_stops_at_first_failure_with_the_code() {
    // A configured step exits with code 2: the run reports the error with
    // that code and no later step is attempted.
    let steps = vec![
        vec![b"rm $path".to_vec()],
        vec![b"echo done".to_vec()],
    ];
    let mut run = PipelineRun::new(steps, false);
    let base = VariableReplace::new();
    let cmd = run.current_command(&base);
    run.record_step_result(Some(2), b"boom".to_vec(), Vec::new(), cmd);
    assert!(run.is_finished());
    match &run.failed {
        Some(e) => match e.failure {
            StepFailure::NonZeroExit(code) => assert_eq!(code, 2),
            StepFailure::SignalTerminated => panic!("an exit code was expected"),
        },
        None => panic!("the failure was not recorded"),
    }
    assert_eq!(run.index, 0);
}

#[test]
fn pipeline_threads_prior_output_into_the_next_step() {
    let steps = vec![
        vec![b"stat $path".to_vec()],
        vec![b"log $output code=$exitcode".to_vec()],
    ];
    let mut run = PipelineRun::new(steps, false);
    let base = VariableReplace::new();
    let first = run.current_command(&base);
    run.record_step_result(Some(0), b"42-bytes".to_vec(), Vec::new(), first);
    assert!(!run.is_finished());
    match &run.prior {
        PriorStep::Done(res) => assert_eq!(res.exit_code, 0),
        PriorStep::First => panic!("the first step's result was lost"),
    }
    let second = run.current_command(&base);
    assert_eq!(
        to_strings(&second),
        vec!["log".to_string(), "42-bytes".to_string(), "code=0".to_string()]
    );
}

#[test]
fn signal_termination_is_its_own_failure() {
    let steps = vec![vec![b"sleep 100".to_vec()]];
    let mut run = PipelineRun::new(steps, false);
    let base = VariableReplace::new();
    let cmd = run.current_command(&base);
    run.record_step_result(None, Vec::new(), Vec::new(), cmd);
    match &run.failed {
        Some(e) => match e.failure {
            StepFailure::SignalTerminated => {}
            StepFailure::NonZeroExit(_) => panic!("no exit code exists for a signal"),
        },
        None => panic!("the failure was not recorded"),
    }
}

#[test]
fn pool_reports_the_first_failure() {
    let ok: Option<PipelineError> = None;
    let failing = |code: i32| {
        Some(PipelineError {
            failure: StepFailure::NonZeroExit(code),
            command_line: Vec::new(),
            stdout: Vec::new(),
            stderr: Vec::new(),
        })
    };
    let results = vec![ok, failing(3), failing(4)];
    assert_eq!(first_error_index(&results), Some(1));
    let all_ok: Vec<Option<PipelineError>> = vec![None, None];
    assert_eq!(first_error_index(&all_ok), None);
}
