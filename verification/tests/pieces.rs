use corg::checksum::{digest, same, stamp_or_verify, to_hex};
use corg::executor::{ExecutionResult, Invocation};
use corg::options::{parse_markers, Cli};
use corg::state::{Evaluation, Parser};
use corg::{Corg, CorgError, CorgRunner};
use std::path::PathBuf;

fn chars(text: &str) -> Vec<char> {
    text.chars().collect()
}

fn owned(items: &[&str]) -> Vec<String> {
    items.iter().map(|s| s.to_string()).collect()
}

fn fixed(invocation: &Invocation) -> Result<ExecutionResult, std::io::Error> {
    let stdout = format!("{}:{}", invocation.program, invocation.args.len()).into_bytes();
    Ok(ExecutionResult { success: true, stdout, stderr: Vec::new() })
}

#[test]
fn digests_are_md5_in_lower_case_hex() {
    assert_eq!(digest(""), chars("d41d8cd98f00b204e9800998ecf8427e"));
    assert_eq!(digest("a"), chars("0cc175b9c0f1b6a831c399e269772661"));
    assert_eq!(digest("abcdefghijklmnopqrstuvwxyz"), chars("c3fcd3d76192e4007dfb496cca67e13b"));
    for sample in ["1\n", "hello\n", "é\u{1f600}", "\u{0}"] {
        assert_eq!(digest(sample), chars(&format!("{:x}", md5::compute(sample))));
    }
}

#[test]
fn sixteen_bytes_in_hex() {
    let bytes = [0, 1, 9, 10, 15, 16, 31, 127, 128, 160, 171, 205, 239, 240, 254, 255];
    assert_eq!(to_hex(&bytes), chars("0001090a0f101f7f80a0abcdeff0feff"));
    assert_eq!(to_hex(&[0; 16]), chars(&"0".repeat(32)));
}

#[test]
fn texts_are_compared_character_by_character() {
    assert!(same(&chars("abc"), &chars("abc")));
    assert!(same(&chars(""), &chars("")));
    assert!(!same(&chars("abc"), &chars("abd")));
    assert!(!same(&chars("abc"), &chars("ab")));
    assert!(!same(&chars(""), &chars("a")));
}

#[test]
fn stamping_and_verifying() {
    let one = chars("b026324c6904b2a9cb4b88d6d61c81d1");
    let note = chars(" (checksum: b026324c6904b2a9cb4b88d6d61c81d1) ");
    assert_eq!(stamp_or_verify(false, "1\n", None).unwrap(), chars(""));
    assert_eq!(stamp_or_verify(false, "1\n", Some(&chars("junk"))).unwrap(), chars(""));
    assert_eq!(stamp_or_verify(true, "1\n", None).unwrap(), note);
    assert_eq!(stamp_or_verify(true, "1\n", Some(&one)).unwrap(), note);
    match stamp_or_verify(true, "2\n", Some(&one)) {
        Err(CorgError::ChecksumMismatch((old, new))) => {
            assert_eq!(old, "b026324c6904b2a9cb4b88d6d61c81d1");
            assert_eq!(new, "26ab0db90d72e28ad0ba1e22ee510510");
        }
        other => panic!("{other:?}"),
    }
}

#[test]
fn commands_follow_shell_quoting() {
    let invocation = Invocation::new("bash -c 'echo 1'", "body".to_string());
    assert_eq!(invocation.program, "bash");
    assert_eq!(invocation.args, owned(&["-c", "echo 1"]));
    assert_eq!(invocation.input, "body");

    let invocation = Invocation::new("python3", String::new());
    assert_eq!(invocation.program, "python3");
    assert!(invocation.args.is_empty());
    assert_eq!(invocation.input, "");
}

#[test]
fn commands_fall_back_to_single_spaces() {
    let invocation = Invocation::new("sh 'a  b", String::new());
    assert_eq!(invocation.program, "sh");
    assert_eq!(invocation.args, owned(&["'a", "", "b"]));

    let invocation = Invocation::new("", String::new());
    assert_eq!(invocation.program, "");
    assert!(invocation.args.is_empty());

    let invocation = Invocation::from_words("x y", None, "in".to_string());
    assert_eq!((invocation.program.as_str(), invocation.args), ("x", owned(&["y"])));
    let invocation = Invocation::from_words("x y", Some(Vec::new()), "in".to_string());
    assert_eq!((invocation.program.as_str(), invocation.args), ("x", owned(&["y"])));
    let invocation = Invocation::from_words("x y", Some(owned(&["p", "q r"])), "in".to_string());
    assert_eq!((invocation.program.as_str(), invocation.args), ("p", owned(&["q r"])));
    assert_eq!(invocation.input, "in");
}

#[test]
fn outcomes_are_decoded_permissively() {
    let ok = ExecutionResult { success: true, stdout: b"a\xffb".to_vec(), stderr: b"noise".to_vec() };
    assert_eq!(ok.into_output().unwrap(), "a\u{fffd}b");
    let ok = ExecutionResult { success: true, stdout: "é\n".as_bytes().to_vec(), stderr: Vec::new() };
    assert_eq!(ok.into_output().unwrap(), "é\n");
    let bad = ExecutionResult { success: false, stdout: b"out".to_vec(), stderr: b"err\xc3".to_vec() };
    match bad.into_output() {
        Err(CorgError::BlockExecutionError(text)) => assert_eq!(text, "err\u{fffd}"),
        other => panic!("{other:?}"),
    }
}

#[test]
fn marker_triples() {
    assert_eq!(parse_markers("a b c").unwrap(), ("a".to_string(), "b".to_string(), "c".to_string()));
    assert_eq!(
        parse_markers("<< >> -- end --").unwrap(),
        ("<<".to_string(), ">>".to_string(), "-- end --".to_string())
    );
    assert_eq!(parse_markers("a  b").unwrap(), ("a".to_string(), String::new(), "b".to_string()));
    assert_eq!(parse_markers("  ").unwrap(), (String::new(), String::new(), String::new()));
    assert_eq!(parse_markers("a b").unwrap_err(), "Invalid marker: a b");
    assert_eq!(parse_markers("").unwrap_err(), "Invalid marker: ");
    assert_eq!(parse_markers("one").unwrap_err(), "Invalid marker: one");
}

#[test]
fn exit_codes() {
    let io = std::io::Error::new(std::io::ErrorKind::Other, "disk");
    assert_eq!(CorgError::NoBlocksDetected.exit_code(), 0);
    assert_eq!(CorgError::IOError(io).exit_code(), 1);
    assert_eq!(CorgError::BlockExecutionError("x".to_string()).exit_code(), 3);
    assert_eq!(CorgError::CheckFailed(("a".to_string(), "b".to_string())).exit_code(), 5);
    assert_eq!(CorgError::ChecksumMismatch(("a".to_string(), "b".to_string())).exit_code(), 7);
}

#[test]
fn runner_chooses_the_destination() {
    let runner = CorgRunner::default();
    assert_eq!(runner.origin(), &PathBuf::new());
    assert_eq!(runner.destination(), None);
    let runner = runner.input(PathBuf::from("in.md")).output(Some(PathBuf::from("out.md")));
    assert_eq!(runner.origin(), &PathBuf::from("in.md"));
    assert_eq!(runner.destination(), Some(&PathBuf::from("out.md")));
    let runner = runner.replace_input(true);
    assert_eq!(runner.destination(), Some(&PathBuf::from("in.md")));
    let runner = runner.output(None);
    assert_eq!(runner.destination(), Some(&PathBuf::from("in.md")));
    let runner = runner.replace_input(false);
    assert_eq!(runner.destination(), None);
}

#[test]
fn options_configure_processor_and_runner() {
    let cli = Cli {
        input: PathBuf::from("doc.md"),
        output: Some(PathBuf::from("out.md")),
        replace: false,
        delete_blocks: true,
        warn_if_no_blocks: false,
        omit_output: false,
        check: false,
        checksum: true,
        markers: Some(("<<".to_string(), ">>".to_string(), "--".to_string())),
    };
    let (corg, runner) = cli.configure();
    assert_eq!(runner.origin(), &PathBuf::from("doc.md"));
    assert_eq!(runner.destination(), Some(&PathBuf::from("out.md")));
    assert_eq!(corg.execute("a\n<<x\n>>\n--\nb\n", fixed).unwrap(), "a\nx:0b\n");
    assert!(corg.deletes_blocks());
    assert!(corg.uses_checksum());
    assert!(!corg.omits_output());

    let cli = Cli {
        input: PathBuf::from("-"),
        output: None,
        replace: true,
        delete_blocks: false,
        warn_if_no_blocks: true,
        omit_output: true,
        check: true,
        checksum: false,
        markers: None,
    };
    let (corg, runner) = cli.configure();
    assert_eq!(runner.destination(), Some(&PathBuf::from("-")));
    assert!(corg.omits_output());
    match corg.execute("nothing", fixed) {
        Err(CorgError::NoBlocksDetected) => {}
        other => panic!("{other:?}"),
    }
    match corg.execute("[[[#!x\n]]]\nold\n[[[end]]]\n", fixed) {
        Err(CorgError::CheckFailed((_, output))) => assert_eq!(output, "[[[#!x\n]]]\n[[[end]]]\n"),
        other => panic!("{other:?}"),
    }
}

#[test]
fn verdict_on_a_finished_parse() {
    let parsed = |text: &str| match Parser::evaluate(text, &Corg::default(), &Vec::new()) {
        Evaluation::Finished(Ok(state)) => state,
        other => panic!("{other:?}"),
    };
    let corg = Corg::default();
    assert_eq!(corg.conclude("anything", parsed("a\n")).unwrap(), "a\n");
    let corg = Corg::default().check_only(true);
    assert_eq!(corg.conclude("a\n", parsed("a\n")).unwrap(), "a\n");
    match corg.conclude("a", parsed("a")) {
        Err(CorgError::CheckFailed((content, output))) => {
            assert_eq!((content.as_str(), output.as_str()), ("a", "a\n"));
        }
        other => panic!("{other:?}"),
    }
    let corg = Corg::default().check_only(true).warn_if_no_blocks(true);
    match corg.conclude("a", parsed("a")) {
        Err(CorgError::NoBlocksDetected) => {}
        other => panic!("{other:?}"),
    }
    assert_eq!(corg.conclude("[[[#!\n", parsed("[[[#!")).unwrap(), "[[[#!\n");
}

#[test]
fn check_only_is_a_dry_run() {
    assert!(Corg::default().keeps_result());
    assert!(!Corg::default().check_only(true).keeps_result());
    assert!(Corg::default().check_only(true).check_only(false).keeps_result());
}

#[test]
fn default_markers() {
    let set = Corg::default().markers();
    assert!(set.is_start_of_block(&chars("[[[#!sh")));
    assert!(set.is_end_of_block(&chars("]]]")));
    assert!(set.end_of_output(&chars("[[[end]]]")).is_some());
    assert!(!Corg::default().deletes_blocks());
    assert!(!Corg::default().omits_output());
    assert!(!Corg::default().uses_checksum());
}
