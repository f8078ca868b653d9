use typecast::script::{
    effective_shell, parse_line, parse_script, session_settings, Command, CompileError, Decimal, Line,
};

fn command_of(line: &str) -> Command {
    match parse_line(line.as_bytes()) {
        Line::Cmd(c) => c,
        _ => panic!("Expected a command"),
    }
}

fn typed(line: &str) -> Vec<u8> {
    match command_of(line) {
        Command::Type(text) => text,
        _ => panic!("Expected Type command"),
    }
}

#[test]
fn test_parse_speed() {
    let result = parse_line("@ speed:0.2".as_bytes());
    assert!(matches!(result, Line::Cmd(_)));
    assert_eq!(command_of("@ speed:0.2"), Command::SetSpeed(Decimal { billionths: 200_000_000 }));
}

#[test]
fn test_parse_jitter() {
    let result = parse_line("@ jitter:0.02".as_bytes());
    assert!(matches!(result, Line::Cmd(_)));
    assert_eq!(command_of("@ jitter:0.02"), Command::SetJitter(Decimal { billionths: 20_000_000 }));
}

#[test]
fn test_parse_wait() {
    let result = parse_line("@ wait:2.0".as_bytes());
    assert!(matches!(result, Line::Cmd(_)));
    assert_eq!(command_of("@ wait:2.0"), Command::Wait(Decimal { billionths: 2_000_000_000 }));
}

#[test]
fn test_parse_shell() {
    let result = parse_line("@ shell:/bin/zsh".as_bytes());
    assert!(matches!(result, Line::Cmd(_)));
    assert_eq!(command_of("@ shell:/bin/zsh"), Command::SetShell(b"/bin/zsh".to_vec()));
}

#[test]
fn test_parse_type() {
    let result = parse_line("$ echo hello".as_bytes());
    assert!(matches!(result, Line::Cmd(_)));
    assert_eq!(command_of("$ echo hello"), Command::Type(b"echo hello".to_vec()));
}

#[test]
fn test_parse_type_with_special_keys() {
    assert!(matches!(parse_line("$ echo hello<ret>".as_bytes()), Line::Cmd(_)));
    assert_eq!(typed("$ echo hello<ret>"), b"echo hello\r".to_vec());
}

#[test]
fn test_parse_type_with_ctrl() {
    assert!(matches!(parse_line("$ <C-c>".as_bytes()), Line::Cmd(_)));
    assert_eq!(typed("$ <C-c>"), b"\x03".to_vec());
}

#[test]
fn test_parse_type_with_escaped() {
    assert!(matches!(parse_line(r"$ \<not a key\>".as_bytes()), Line::Cmd(_)));
    assert_eq!(typed(r"$ \<not a key\>"), b"<not a key>".to_vec());
}

#[test]
fn test_parse_script() {
    let input = "@ speed:0.2\n@ jitter:0.02\n# This is a comment\n$ echo hello\n@ wait:1.0\n$ ls -la\n";
    let result = parse_script(input);
    if let Err(e) = &result {
        println!("Parse error: {:?}", e);
    }
    assert!(result.is_ok());
    let script = result.unwrap();
    assert_eq!(script.commands.len(), 5);
}

#[test]
fn test_parse_alt_with_special_keys() {
    assert!(matches!(parse_line("$ <A-ret>".as_bytes()), Line::Cmd(_)));
    assert_eq!(typed("$ <A-ret>"), b"\x1b\r".to_vec());
    assert!(matches!(parse_line("$ <A-space>".as_bytes()), Line::Cmd(_)));
    assert_eq!(typed("$ <A-space>"), b"\x1b ".to_vec());
}

#[test]
fn test_parse_ctrl_with_special_keys() {
    assert!(matches!(parse_line("$ <C-space>".as_bytes()), Line::Cmd(_)));
    assert_eq!(typed("$ <C-space>"), b"\x00".to_vec());
}

#[test]
fn compiles_example_script_in_order() {
    let script = parse_script("@ speed:0.2\n@ jitter:0.02\n# c\n$ echo hi\n@ wait:1.0\n$ ls -la\n").unwrap();
    assert_eq!(
        script.commands,
        vec![
            Command::SetSpeed(Decimal { billionths: 200_000_000 }),
            Command::SetJitter(Decimal { billionths: 20_000_000 }),
            Command::Type(b"echo hi".to_vec()),
            Command::Wait(Decimal { billionths: 1_000_000_000 }),
            Command::Type(b"ls -la".to_vec()),
        ]
    );
}

#[test]
fn comments_and_blank_lines_compile_to_nothing() {
    let script = parse_script("# one\n\n   \n\t# two\r\n#\n").unwrap();
    assert!(script.commands.is_empty());
    assert!(parse_script("").unwrap().commands.is_empty());
}

#[test]
fn escaped_brackets_stay_literal() {
    assert_eq!(typed(r"$ \<literal\>"), b"<literal>".to_vec());
    assert_eq!(typed(r"$ \<C-c\>"), b"<C-c>".to_vec());
}

#[test]
fn unclosed_bracket_is_literal() {
    assert_eq!(typed("$ a < b"), b"a < b".to_vec());
    assert_eq!(typed("$ <nokey>x"), b"<nokey>x".to_vec());
}

#[test]
fn multibyte_text_is_copied() {
    assert_eq!(typed("$ héllo ✓"), "héllo ✓".as_bytes().to_vec());
}

#[test]
fn unknown_line_is_an_error_with_its_number() {
    assert_eq!(parse_script("# ok\nhello\n").unwrap_err(), CompileError::Syntax { line: 2 });
    assert_eq!(parse_script("@ volume:3").unwrap_err(), CompileError::Syntax { line: 1 });
    assert_eq!(parse_script("@ speed:").unwrap_err(), CompileError::Syntax { line: 1 });
}

#[test]
fn trailing_text_is_an_error() {
    assert_eq!(
        parse_script("$ a\n@ speed:0.5 fast\n").unwrap_err(),
        CompileError::Trailing { line: 2, rest: b" fast".to_vec() }
    );
    assert_eq!(
        parse_script("@ size:80:24x").unwrap_err(),
        CompileError::Trailing { line: 1, rest: b"x".to_vec() }
    );
}

#[test]
fn size_directive() {
    assert_eq!(command_of("@ size:120:40"), Command::SetSize(120, 40));
    assert_eq!(command_of("@size:65535:1"), Command::SetSize(65535, 1));
    assert!(matches!(parse_line(b"@ size:65536:1"), Line::Syntax));
    assert!(matches!(parse_line(b"@ size:80"), Line::Syntax));
    assert!(matches!(parse_line(b"@ size::24"), Line::Syntax));
}

#[test]
fn decimal_forms() {
    assert_eq!(command_of("@ speed:.5"), Command::SetSpeed(Decimal { billionths: 500_000_000 }));
    assert_eq!(command_of("@ speed:3."), Command::SetSpeed(Decimal { billionths: 3_000_000_000 }));
    assert_eq!(command_of("@ wait:0.1234567891"), Command::Wait(Decimal { billionths: 123_456_789 }));
    assert_eq!(
        command_of("@ wait:18446744073.709551615"),
        Command::Wait(Decimal { billionths: u64::MAX })
    );
    assert!(matches!(parse_line(b"@ wait:18446744073.709551616"), Line::Syntax));
    assert!(matches!(parse_line(b"@ wait:99999999999"), Line::Syntax));
    assert!(matches!(parse_line(b"@ speed:."), Line::Syntax));
}

#[test]
fn shell_path_is_trimmed() {
    assert_eq!(command_of("  @\t shell:   /usr/bin/fish  "), Command::SetShell(b"/usr/bin/fish".to_vec()));
}

#[test]
fn type_line_keeps_inner_spaces() {
    assert_eq!(typed("$   two  words   "), b"two  words".to_vec());
}

#[test]
fn session_settings_stop_at_first_type_line() {
    let script = parse_script("@ shell:/bin/zsh\n@ size:100:30\n$ ls\n@ size:1:1\n@ shell:/bin/sh\n").unwrap();
    let s = session_settings(&script);
    assert_eq!(s.shell, Some(b"/bin/zsh".to_vec()));
    assert_eq!((s.cols, s.rows), (100, 30));
    let plain = session_settings(&parse_script("$ ls\n").unwrap());
    assert_eq!(plain.shell, None);
    assert_eq!((plain.cols, plain.rows), (80, 24));
}

#[test]
fn shell_precedence() {
    let e = Some(b"/bin/a".to_vec());
    let s = Some(b"/bin/b".to_vec());
    let v = Some(b"/bin/c".to_vec());
    assert_eq!(effective_shell(e.clone(), s.clone(), v.clone()), b"/bin/a".to_vec());
    assert_eq!(effective_shell(None, s.clone(), v.clone()), b"/bin/b".to_vec());
    assert_eq!(effective_shell(None, None, v), b"/bin/c".to_vec());
    assert_eq!(effective_shell(None, None, None), b"bash".to_vec());
}

#[test]
fn unicode_whitespace_is_trimmed() {
    assert_eq!(typed("\u{a0}\u{3000}$ x\u{2003}\u{85}"), b"x".to_vec());
    assert_eq!(command_of("\u{2028}@ speed:1\u{202f}"), Command::SetSpeed(Decimal { billionths: 1_000_000_000 }));
    assert!(parse_script("\u{205f}\n\u{1680}# note\n").unwrap().commands.is_empty());
}

#[test]
fn decimal_sign_and_grammar_limits() {
    assert_eq!(command_of("@ speed:+0.25"), Command::SetSpeed(Decimal { billionths: 250_000_000 }));
    assert_eq!(command_of("@ jitter:+.5"), Command::SetJitter(Decimal { billionths: 500_000_000 }));
    assert!(matches!(parse_line(b"@ speed:+"), Line::Syntax));
    assert!(matches!(parse_line(b"@ speed:-0.1"), Line::Syntax));
    assert_eq!(
        parse_script("@ speed:1e-1").unwrap_err(),
        CompileError::Trailing { line: 1, rest: b"e-1".to_vec() }
    );
}
