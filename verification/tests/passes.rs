use corg::executor::{ExecutionResult, Invocation};
use corg::state::{Evaluation, Parser};
use corg::{Corg, CorgError};
use std::cell::RefCell;

/// Stands in for the programs that the documents below name: `bash` runs
/// `echo` lines, `cat` copies its input, `fail` ends unsuccessfully.
fn shell(invocation: &Invocation) -> Result<ExecutionResult, std::io::Error> {
    let done = |stdout: String| {
        Ok(ExecutionResult { success: true, stdout: stdout.into_bytes(), stderr: Vec::new() })
    };
    match invocation.program.as_str() {
        "bash" => {
            let mut stdout = String::new();
            for line in invocation.input.lines() {
                stdout.push_str(line.strip_prefix("echo ").unwrap_or(""));
                stdout.push('\n');
            }
            done(stdout)
        }
        "cat" => done(invocation.input.clone()),
        "say" => done(invocation.args.join("|")),
        "fail" => Ok(ExecutionResult {
            success: false,
            stdout: b"discarded".to_vec(),
            stderr: b"it went wrong\n".to_vec(),
        }),
        _ => Err(std::io::Error::new(std::io::ErrorKind::NotFound, "no such program")),
    }
}

const ONE: &str = "b026324c6904b2a9cb4b88d6d61c81d1";

const BLOCK: &str = "
[[[#!bash
echo 1
]]]
[[[end]]]";

fn owned(items: &[&str]) -> Vec<String> {
    items.iter().map(|s| s.to_string()).collect()
}

#[test]
fn no_blocks_is_told_only_on_request() {
    match Corg::default().warn_if_no_blocks(true).execute("", shell) {
        Err(CorgError::NoBlocksDetected) => {}
        other => panic!("{other:?}"),
    }
    match Corg::default().warn_if_no_blocks(true).execute("just text\n", shell) {
        Err(CorgError::NoBlocksDetected) => {}
        other => panic!("{other:?}"),
    }
    assert_eq!(Corg::default().warn_if_no_blocks(false).execute("", shell).unwrap(), "");
    assert_eq!(
        Corg::default().warn_if_no_blocks(true).execute(BLOCK, shell).unwrap(),
        "\n[[[#!bash\necho 1\n]]]\n1\n[[[end]]]\n"
    );
}

#[test]
fn text_without_blocks_is_copied_line_by_line() {
    assert_eq!(Corg::default().execute("a\nb", shell).unwrap(), "a\nb\n");
    assert_eq!(Corg::default().execute("a\r\nb\r\n", shell).unwrap(), "a\nb\n");
    assert_eq!(Corg::default().execute("\n\n", shell).unwrap(), "\n\n");
}

#[test]
fn blocks_run_in_document_order() {
    let log: RefCell<Vec<String>> = RefCell::new(Vec::new());
    let run = |invocation: &Invocation| {
        log.borrow_mut().push(invocation.input.clone());
        shell(invocation)
    };
    let input = "[[[#!bash\necho 1\n]]]\n[[[end]]]\n+\n[[[#!bash\necho 2\n]]]\n[[[end]]]\n";
    let result = Corg::default().delete_blocks(true).execute(input, run).unwrap();
    assert_eq!(result, "1\n+\n2\n");
    assert_eq!(*log.borrow(), owned(&["echo 1\n", "echo 2\n"]));
}

#[test]
fn stale_output_is_replaced() {
    let input = "[[[#!bash\necho new\n]]]\nold\nolder\n[[[end]]]\nafter\n";
    let result = Corg::default().execute(input, shell).unwrap();
    assert_eq!(result, "[[[#!bash\necho new\n]]]\nnew\n[[[end]]]\nafter\n");
}

#[test]
fn end_of_output_line_is_written_as_it_stands() {
    let input = "// [[[#!bash\n// echo 1\n// ]]]\n<!-- [[[end]]]    -->\n";
    let result = Corg::default().execute(input, shell).unwrap();
    assert_eq!(result, "// [[[#!bash\n// echo 1\n// ]]]\n\n<!-- [[[end]]]    -->\n");

    let input = "[[[#!bash\necho 1\n]]]\n<!-- [[[end]]] -->";
    let result = Corg::default().delete_blocks(false).execute(input, shell).unwrap();
    assert_eq!(result, "[[[#!bash\necho 1\n]]]\n1\n<!-- [[[end]]] -->\n");

    let input = "[[[#!bash\necho 1\n]]]\n[[[end]]]\t \u{a0}tail \n";
    let result = Corg::default().execute(input, shell).unwrap();
    assert_eq!(result, "[[[#!bash\necho 1\n]]]\n1\n[[[end]]]\t \u{a0}tail \n");
}

#[test]
fn written_digest_takes_the_place_of_the_gap() {
    let input = "[[[#!bash\necho 1\n]]]\n<!-- [[[end]]]    -->\n";
    let result = Corg::default().checksum(true).execute(input, shell).unwrap();
    assert_eq!(result, format!("[[[#!bash\necho 1\n]]]\n1\n<!-- [[[end]]] (checksum: {ONE}) -->\n"));
    let again = Corg::default().checksum(true).execute(&result, shell).unwrap();
    assert_eq!(again, result);
}

#[test]
fn checksum_is_stamped() {
    let result = Corg::default().checksum(true).execute(BLOCK, shell).unwrap();
    let expected = format!("\n[[[#!bash\necho 1\n]]]\n1\n[[[end]]] (checksum: {ONE}) \n");
    assert_eq!(result, expected);
    assert_eq!(ONE, format!("{:x}", md5::compute("1\n")));
}

#[test]
fn checksum_round_trip() {
    let corg = Corg::default().checksum(true);
    let once = corg.execute(BLOCK, shell).unwrap();
    let twice = corg.execute(&once, shell).unwrap();
    assert_eq!(once, twice);
    let thrice = corg.check_only(true).execute(&twice, shell).unwrap();
    assert_eq!(twice, thrice);
}

#[test]
fn checksum_mismatch_reports_both_digests() {
    let stamped = format!("[[[#!bash\necho 1\n]]]\n1\n[[[end]]] (checksum: {}) \n", "0".repeat(32));
    match Corg::default().checksum(true).execute(&stamped, shell) {
        Err(CorgError::ChecksumMismatch((old, new))) => {
            assert_eq!(old, "0".repeat(32));
            assert_eq!(new, ONE);
        }
        other => panic!("{other:?}"),
    }
    let changed = format!("[[[#!bash\necho 2\n]]]\n1\n[[[end]]] (checksum: {ONE}) \n");
    match Corg::default().checksum(true).execute(&changed, shell) {
        Err(e @ CorgError::ChecksumMismatch(_)) => assert_eq!(e.exit_code(), 7),
        other => panic!("{other:?}"),
    }
}

#[test]
fn checksum_guards_the_digest_not_the_stale_lines() {
    let edited = format!("[[[#!bash\necho 1\n]]]\nedited by hand\n[[[end]]] (checksum: {ONE}) \n");
    let result = Corg::default().checksum(true).execute(&edited, shell).unwrap();
    assert_eq!(result, format!("[[[#!bash\necho 1\n]]]\n1\n[[[end]]] (checksum: {ONE}) \n"));
}

#[test]
fn digest_is_dropped_and_not_verified_when_checksums_are_off() {
    let stamped = format!("[[[#!bash\necho 1\n]]]\n[[[end]]] (checksum: {}) tail\n", "0".repeat(32));
    let plain = Corg::default().execute(&stamped, shell).unwrap();
    assert_eq!(plain, "[[[#!bash\necho 1\n]]]\n1\n[[[end]]] tail\n");
    assert_eq!(Corg::default().execute(&plain, shell).unwrap(), plain);
}

#[test]
fn digest_is_verified_when_markers_are_deleted() {
    let wrong = format!("[[[#!bash\necho 1\n]]]\n[[[end]]] (checksum: {}) tail\n", "0".repeat(32));
    match Corg::default().checksum(true).delete_blocks(true).execute(&wrong, shell) {
        Err(CorgError::ChecksumMismatch((old, new))) => {
            assert_eq!(old, "0".repeat(32));
            assert_eq!(new, ONE);
        }
        other => panic!("{other:?}"),
    }
    let right = format!("[[[#!bash\necho 1\n]]]\n[[[end]]] (checksum: {ONE}) tail\n");
    let deleted = Corg::default().checksum(true).delete_blocks(true).execute(&right, shell);
    assert_eq!(deleted.unwrap(), "1\n");
    let unchecked = Corg::default().delete_blocks(true).execute(&wrong, shell);
    assert_eq!(unchecked.unwrap(), "1\n");
}

#[test]
fn processing_twice_changes_nothing() {
    let documents = [
        BLOCK.to_string(),
        "a\n[[[#!bash\necho 1\necho 2\n]]]\nstale\n[[[end]]]\nb\n[[[#!cat\nx\n]]]\n[[[end]]]\n".to_string(),
        "[[[#!bash\necho 1\n]]]\n".to_string(),
        "[[[#!bash\necho 1\n".to_string(),
        "no blocks at all".to_string(),
    ];
    for corg in [
        Corg::default(),
        Corg::default().checksum(true),
        Corg::default().delete_blocks(true),
        Corg::default().omit_output(true),
    ] {
        for document in &documents {
            let once = corg.execute(document, shell).unwrap();
            let twice = corg.execute(&once, shell).unwrap();
            assert_eq!(once, twice, "{document:?}");
        }
    }
}

#[test]
fn output_without_a_line_feed_is_not_stable() {
    let input = "[[[#!say a\n]]]\n[[[end]]]\n";
    let once = Corg::default().execute(input, shell).unwrap();
    assert_eq!(once, "[[[#!say a\n]]]\na[[[end]]]\n");
    let twice = Corg::default().execute(&once, shell).unwrap();
    assert_eq!(twice, "[[[#!say a\n]]]\naa[[[end]]]\n");
}

#[test]
fn check_only_reflects_drift() {
    let checking = Corg::default().check_only(true);
    match checking.execute(BLOCK, shell) {
        Err(CorgError::CheckFailed((content, output))) => {
            assert_eq!(content, BLOCK);
            assert_eq!(output, "\n[[[#!bash\necho 1\n]]]\n1\n[[[end]]]\n");
        }
        other => panic!("{other:?}"),
    }
    let settled = Corg::default().execute(BLOCK, shell).unwrap();
    assert_eq!(checking.execute(&settled, shell).unwrap(), settled);
    assert!(checking.execute("no final line feed", shell).is_err());
    assert_eq!(checking.execute("a final line feed\n", shell).unwrap(), "a final line feed\n");
}

#[test]
fn omitted_output_runs_nothing() {
    let calls = RefCell::new(0);
    let run = |invocation: &Invocation| {
        *calls.borrow_mut() += 1;
        shell(invocation)
    };
    let input = "[[[#!bash\necho 1\n]]]\nstale\n[[[end]]]\nafter\n";
    let result = Corg::default().omit_output(true).execute(input, run).unwrap();
    assert_eq!(result, "[[[#!bash\necho 1\n]]]\n[[[end]]]\nafter\n");
    assert_eq!(*calls.borrow(), 0);
    let kept = "x\n[[[#!nothing here\nbody\n]]]\n[[[end]]]\ny\n";
    assert_eq!(Corg::default().omit_output(true).execute(kept, shell).unwrap(), kept);
}

#[test]
fn omitted_output_with_checksum_leaves_the_line_alone() {
    let corg = Corg::default().omit_output(true).checksum(true);
    let input = "[[[#!bash\necho 1\n]]]\n1\n[[[end]]]\n";
    assert_eq!(corg.execute(input, shell).unwrap(), "[[[#!bash\necho 1\n]]]\n[[[end]]]\n");
    let stamped = format!("[[[#!bash\necho 1\n]]]\n1\n[[[end]]] (checksum: {ONE}) \n");
    let expected = format!("[[[#!bash\necho 1\n]]]\n[[[end]]] (checksum: {ONE}) \n");
    assert_eq!(corg.execute(&stamped, shell).unwrap(), expected);
    let wrong = format!("[[[#!fail\n]]]\n[[[end]]]  (checksum: {})  x\n", "0".repeat(32));
    assert_eq!(corg.execute(&wrong, shell).unwrap(), wrong);
    assert_eq!(corg.delete_blocks(true).execute(&wrong, shell).unwrap(), "");
}

#[test]
fn block_without_end_is_echoed_and_not_run() {
    let calls = RefCell::new(0);
    let run = |invocation: &Invocation| {
        *calls.borrow_mut() += 1;
        shell(invocation)
    };
    let input = "before\n[[[#!bash\necho 1\necho 2";
    assert_eq!(Corg::default().execute(input, &run).unwrap(), "before\n[[[#!bash\necho 1\necho 2\n");
    assert_eq!(Corg::default().delete_blocks(true).execute(input, &run).unwrap(), "before\n");
    assert_eq!(*calls.borrow(), 0);
}

#[test]
fn output_region_without_end_takes_the_output_last() {
    let input = "[[[#!bash\necho 1\n]]]\nstale\n";
    assert_eq!(Corg::default().execute(input, shell).unwrap(), "[[[#!bash\necho 1\n]]]\n1\n");
    assert_eq!(Corg::default().omit_output(true).execute(input, shell).unwrap(), "[[[#!bash\necho 1\n]]]\n1\n");
    assert_eq!(Corg::default().delete_blocks(true).execute(input, shell).unwrap(), "1\n");
}

#[test]
fn one_line_may_close_block_and_output() {
    let input = "[[[#!bash\necho 1\n[[[end]]]\nafter\n";
    let result = Corg::default().execute(input, shell).unwrap();
    assert_eq!(result, "[[[#!bash\necho 1\n[[[end]]]\n1\n[[[end]]]\nafter\n");
}

#[test]
fn failing_command_ends_the_pass() {
    let calls = RefCell::new(0);
    let run = |invocation: &Invocation| {
        *calls.borrow_mut() += 1;
        shell(invocation)
    };
    let input = "[[[#!fail\n]]]\n[[[end]]]\n[[[#!bash\necho 2\n]]]\n[[[end]]]\n";
    match Corg::default().execute(input, run) {
        Err(CorgError::BlockExecutionError(text)) => assert_eq!(text, "it went wrong\n"),
        other => panic!("{other:?}"),
    }
    assert_eq!(*calls.borrow(), 1);
}

#[test]
fn command_that_cannot_start_is_an_io_error() {
    let input = "[[[#!missing --flag\n]]]\n[[[end]]]\n";
    match Corg::default().execute(input, shell) {
        Err(CorgError::IOError(e)) => assert_eq!(e.kind(), std::io::ErrorKind::NotFound),
        other => panic!("{other:?}"),
    }
}

#[test]
fn command_specification_is_tokenized() {
    let input = "# [[[#!  say 'a b' \"c d\" e\\ f  \n]]]\n[[[end]]]\n";
    let result = Corg::default().delete_blocks(true).execute(input, shell).unwrap();
    assert_eq!(result, "a b|c d|e f");
}

#[test]
fn block_source_is_the_input_of_the_command() {
    let input = "[[[#!cat\nfirst\r\n  second\n]]]\n[[[end]]]\n";
    let result = Corg::default().delete_blocks(true).execute(input, shell).unwrap();
    assert_eq!(result, "first\n  second\n");
}

#[test]
fn markers_can_be_overridden() {
    let corg = Corg::default().override_markers("<<".to_string(), ">>".to_string(), "--".to_string());
    let input = "[[[#!bash\n<< bash\necho 1\n>>\nold\n-- end\n";
    assert_eq!(corg.execute(input, shell).unwrap(), "[[[#!bash\n<< bash\necho 1\n>>\n1\n-- end\n");
}

#[test]
fn evaluation_names_the_command_it_waits_for() {
    let input = "[[[#!bash -e\necho 1\n]]]\n[[[end]]]\n[[[#!cat\nx\n]]]\n[[[end]]]\n";
    let corg = Corg::default();
    match Parser::evaluate(input, &corg, &Vec::new()) {
        Evaluation::Pending(invocation) => {
            assert_eq!(invocation.program, "bash");
            assert_eq!(invocation.args, owned(&["-e"]));
            assert_eq!(invocation.input, "echo 1\n");
        }
        other => panic!("{other:?}"),
    }
    match Parser::evaluate(input, &corg, &owned(&["1\n"])) {
        Evaluation::Pending(invocation) => {
            assert_eq!(invocation.program, "cat");
            assert!(invocation.args.is_empty());
            assert_eq!(invocation.input, "x\n");
        }
        other => panic!("{other:?}"),
    }
    match Parser::evaluate(input, &corg, &owned(&["1\n", "x\n", "never used"])) {
        Evaluation::Finished(Ok(state)) => {
            assert!(state.found_blocks());
            assert_eq!(
                state.get_output(),
                "[[[#!bash -e\necho 1\n]]]\n1\n[[[end]]]\n[[[#!cat\nx\n]]]\nx\n[[[end]]]\n"
            );
        }
        other => panic!("{other:?}"),
    }
}

#[test]
fn evaluation_without_blocks_finds_none() {
    match Parser::evaluate("a\nb\n", &Corg::default(), &Vec::new()) {
        Evaluation::Finished(Ok(state)) => {
            assert!(!state.found_blocks());
            assert_eq!(state.get_output(), "a\nb\n");
        }
        other => panic!("{other:?}"),
    }
    match Parser::evaluate("a\n[[[#!x", &Corg::default(), &Vec::new()) {
        Evaluation::Finished(Ok(state)) => {
            assert!(state.found_blocks());
            assert_eq!(state.get_output(), "a\n[[[#!x\n");
        }
        other => panic!("{other:?}"),
    }
}
