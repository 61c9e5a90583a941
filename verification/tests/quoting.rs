use port_manager::quote::{apple_script_quote, quote_windows_arg, quote_windows_args, shell_quote};

#[test]
fn windows_empty_argument_is_two_quotes() {
    assert_eq!(quote_windows_arg(""), "\"\"");
}

#[test]
fn windows_plain_argument_is_unchanged() {
    assert_eq!(quote_windows_arg("C:\\Program Files"), "\"C:\\Program Files\"");
    assert_eq!(quote_windows_arg("--flag"), "--flag");
    assert_eq!(quote_windows_arg("a\\b"), "a\\b");
}

#[test]
fn windows_argument_with_space_is_quoted() {
    assert_eq!(quote_windows_arg("a b"), "\"a b\"");
}

#[test]
fn windows_inner_quote_is_escaped() {
    assert_eq!(quote_windows_arg("a\"b"), "\"a\\\"b\"");
    assert_eq!(quote_windows_arg("a\\\"b"), "\"a\\\\\\\"b\"");
}

#[test]
fn windows_trailing_backslashes_are_doubled() {
    assert_eq!(quote_windows_arg("a b\\"), "\"a b\\\\\"");
    assert_eq!(quote_windows_arg("a\\b c"), "\"a\\b c\"");
}

#[test]
fn windows_arguments_are_joined_by_spaces() {
    let args = vec!["one".to_string(), "two words".to_string(), "".to_string()];
    assert_eq!(quote_windows_args(&args), "one \"two words\" \"\"");
    assert_eq!(quote_windows_args(&Vec::new()), "");
}

#[test]
fn shell_quote_wraps_in_single_quotes() {
    assert_eq!(shell_quote("/usr/bin/app"), "'/usr/bin/app'");
    assert_eq!(shell_quote("it's"), "'it'\\''s'");
    assert_eq!(shell_quote(""), "''");
}

#[test]
fn apple_script_quote_escapes_backslash_and_quote() {
    assert_eq!(apple_script_quote("a\"b\\c"), "\"a\\\"b\\\\c\"");
    assert_eq!(apple_script_quote("plain"), "\"plain\"");
}

/// Reads back one Windows argument with the `CommandLineToArgvW` rules for backslashes and quotes.
fn read_windows_arg(s: &str) -> String {
    let mut out = String::new();
    let mut pending = 0usize;
    let mut in_quotes = false;
    for c in s.chars() {
        match c {
            '\\' => pending += 1,
            '"' => {
                out.push_str(&"\\".repeat(pending / 2));
                if pending % 2 == 1 {
                    out.push('"');
                } else {
                    in_quotes = !in_quotes;
                }
                pending = 0;
            }
            _ => {
                out.push_str(&"\\".repeat(pending));
                pending = 0;
                assert!(in_quotes || (c != ' ' && c != '\t'));
                out.push(c);
            }
        }
    }
    assert!(!in_quotes);
    out.push_str(&"\\".repeat(pending));
    out
}

#[test]
fn windows_quoting_round_trips_on_samples() {
    for s in ["", "x", "a b", "a\"b", "a\\\"b", "tail\\", "sp ace\\\\", "\"", "\\\\server\\share x"] {
        assert_eq!(read_windows_arg(&quote_windows_arg(s)), s);
    }
}

/// Reads back a Windows command line (after the program name) into arguments.
fn read_windows_line(s: &str) -> Vec<String> {
    let mut args = Vec::new();
    let mut current = String::new();
    let mut started = false;
    let mut pending = 0usize;
    let mut in_quotes = false;
    for c in s.chars() {
        if (c == ' ' || c == '\t') && !in_quotes {
            current.push_str(&"\\".repeat(pending));
            pending = 0;
            if started {
                args.push(std::mem::take(&mut current));
                started = false;
            }
            continue;
        }
        started = true;
        match c {
            '\\' => pending += 1,
            '"' => {
                current.push_str(&"\\".repeat(pending / 2));
                if pending % 2 == 1 {
                    current.push('"');
                } else {
                    in_quotes = !in_quotes;
                }
                pending = 0;
            }
            _ => {
                current.push_str(&"\\".repeat(pending));
                pending = 0;
                current.push(c);
            }
        }
    }
    if started {
        current.push_str(&"\\".repeat(pending));
        args.push(current);
    }
    args
}

#[test]
fn windows_argument_lists_round_trip() {
    let lists: Vec<Vec<String>> = vec![
        vec![],
        vec!["".to_string()],
        vec!["a b".to_string(), "".to_string(), "c\"d".to_string()],
        vec!["tail\\".to_string(), "x y\\".to_string(), "\\\\server\\share".to_string()],
    ];
    for args in lists {
        assert_eq!(read_windows_line(&quote_windows_args(&args)), args);
    }
}

/// Reads back words separated by spaces, with single quotes and backslash escapes.
fn read_shell_words(s: &str) -> Vec<String> {
    let mut words = Vec::new();
    let mut current = String::new();
    let mut started = false;
    let mut quoted = false;
    let mut escaped = false;
    for c in s.chars() {
        if escaped {
            current.push(c);
            escaped = false;
        } else if quoted {
            if c == '\'' {
                quoted = false;
            } else {
                current.push(c);
            }
        } else if c == ' ' {
            if started {
                words.push(std::mem::take(&mut current));
                started = false;
            }
            continue;
        } else if c == '\'' {
            quoted = true;
        } else if c == '\\' {
            escaped = true;
        } else {
            panic!("unexpected character outside quotes");
        }
        started = true;
    }
    if started {
        words.push(current);
    }
    words
}

#[test]
fn shell_quoted_words_round_trip() {
    let words = ["/Applications/Port Manager.app/x", "it's", "", "a b"];
    let line: Vec<String> = words.iter().map(|w| shell_quote(w)).collect();
    assert_eq!(read_shell_words(&line.join(" ")), words.to_vec());
}
