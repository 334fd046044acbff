use corg::executor::{ExecutionResult, Invocation};
use corg::{Corg, CorgError};

/// Stands in for a shell: runs the `echo` lines of a script.
fn shell(invocation: &Invocation) -> Result<ExecutionResult, std::io::Error> {
    if invocation.program != "bash" {
        return Err(std::io::Error::new(std::io::ErrorKind::NotFound, "no such program"));
    }
    let mut stdout = String::new();
    for line in invocation.input.lines() {
        match line.strip_prefix("echo ") {
            Some(words) => {
                stdout.push_str(words);
                stdout.push('\n');
            }
            None => {
                return Ok(ExecutionResult {
                    success: false,
                    stdout: Vec::new(),
                    stderr: format!("bash: {line}: command not found\n").into_bytes(),
                });
            }
        }
    }
    Ok(ExecutionResult { success: true, stdout: stdout.into_bytes(), stderr: Vec::new() })
}

#[test]
fn default() -> Result<(), CorgError> {
    let result = Corg::default().execute("", shell)?;
    assert_eq!(result, "");
    Ok(())
}

#[test]
fn warn_if_no_blocks() {
    let result = Corg::default().warn_if_no_blocks(true).execute("", shell).is_err();
    assert!(result);
}

#[test]
fn basic_output() -> Result<(), CorgError> {
    let input = "
[[[#!bash
echo 1
]]]
[[[end]]]";
    let result = Corg::default().execute(input, shell)?;

    let expected = "
[[[#!bash
echo 1
]]]
1
[[[end]]]
";

    assert_eq!(expected, result);
    Ok(())
}

#[test]
fn delete_blocks() -> Result<(), CorgError> {
    let input = "
[[[#!bash
echo 1
]]]
[[[end]]]";
    let result = Corg::default().delete_blocks(true).execute(input, shell)?;
    let expected = "\n1\n";

    assert_eq!(expected, result);
    Ok(())
}

#[test]
fn two_blocks() -> Result<(), CorgError> {
    let input = "
[[[#!bash
echo 1
]]]
[[[end]]]
+
[[[#!bash
echo 2
]]]
[[[end]]]
";
    let result = Corg::default().delete_blocks(true).execute(input, shell)?;
    let expected = "\n1\n+\n2\n";

    assert_eq!(expected, result);
    Ok(())
}

#[test]
fn omit_output() -> Result<(), CorgError> {
    let input = "
[[[#!bash
echo 1
]]]
[[[end]]]";
    let result = Corg::default().omit_output(true).execute(input, shell)?;
    let expected = "
[[[#!bash
echo 1
]]]
[[[end]]]
";

    assert_eq!(expected, result);
    Ok(())
}

#[test]
fn check_only() {
    let input = "
[[[#!bash
echo 1
]]]
[[[end]]]";
    let result = Corg::default().check_only(true).execute(input, shell).is_err();
    assert!(result);
}
