use typecast::keys::{parse_modifier_combo, resolve_key, special_key};
use typecast::script::{parse_special_key, parse_type_content};

#[test]
fn bare_keys_resolve_to_fixed_sequences() {
    assert_eq!(resolve_key(b"ret"), b"\r".to_vec());
    assert_eq!(resolve_key(b"esc"), b"\x1b".to_vec());
    assert_eq!(resolve_key(b"F5"), b"\x1b[15~".to_vec());
    assert_eq!(resolve_key(b"F1"), b"\x1bOP".to_vec());
    assert_eq!(resolve_key(b"up"), b"\x1b[A".to_vec());
    assert_eq!(resolve_key(b"pgdn"), b"\x1b[6~".to_vec());
    assert_eq!(resolve_key(b"del"), b"\x1b[3~".to_vec());
    assert_eq!(resolve_key(b"bs"), b"\x7f".to_vec());
    assert_eq!(special_key(b"tab"), Some(b"\t".to_vec()));
    assert_eq!(special_key(b"F13"), None);
}

#[test]
fn unknown_keys_pass_through() {
    assert_eq!(resolve_key(b"foo"), b"<foo>".to_vec());
    assert_eq!(resolve_key(b""), b"<>".to_vec());
}

#[test]
fn ctrl_letters_are_control_codes() {
    for x in b'a'..=b'z' {
        assert_eq!(parse_modifier_combo(&[b'C', b'-', x]), vec![x - b'a' + 1]);
    }
    assert_eq!(parse_modifier_combo(b"C-A"), vec![1]);
    assert_eq!(parse_modifier_combo(b"C-space"), vec![0]);
    assert_eq!(parse_modifier_combo(b"C-["), vec![0x1b]);
    assert_eq!(parse_modifier_combo(b"C-]"), vec![0x1d]);
    assert_eq!(parse_modifier_combo(b"C-\\"), vec![0x1c]);
    assert_eq!(parse_modifier_combo(b"ctrl-c"), vec![3]);
    assert_eq!(parse_modifier_combo(b"CTRL-a"), vec![1]);
    assert_eq!(parse_modifier_combo(b"cTrL-z"), vec![26]);
}

#[test]
fn alt_prefixes_escape() {
    assert_eq!(parse_modifier_combo(b"A-ret"), b"\x1b\r".to_vec());
    assert_eq!(parse_modifier_combo(b"A-space"), b"\x1b ".to_vec());
    assert_eq!(parse_modifier_combo(b"M-x"), b"\x1bx".to_vec());
    assert_eq!(parse_modifier_combo(b"Meta-up"), b"\x1b\x1b[A".to_vec());
    assert_eq!(parse_modifier_combo(b"S-A-x"), b"\x1bx".to_vec());
    assert_eq!(parse_modifier_combo(b"ALT-x"), b"\x1bx".to_vec());
    assert_eq!(parse_modifier_combo(b"META-F1"), b"\x1b\x1bOP".to_vec());
}

#[test]
fn shift_and_combined_modifiers() {
    assert_eq!(parse_modifier_combo(b"S-a"), b"A".to_vec());
    assert_eq!(parse_modifier_combo(b"SHIFT-b"), b"B".to_vec());
    assert_eq!(parse_modifier_combo(b"S-1"), b"1".to_vec());
    assert_eq!(parse_modifier_combo(b"C-S-a"), vec![1]);
    assert_eq!(parse_modifier_combo(b"C-A-b"), vec![0x1b, 2]);
    assert_eq!(parse_modifier_combo(b"C-A-tab"), b"\x1b\t".to_vec());
}

#[test]
fn unsupported_combinations_pass_through() {
    assert_eq!(parse_modifier_combo(b"C-esc"), b"<C-esc>".to_vec());
    assert_eq!(parse_modifier_combo(b"S-tab"), b"<S-tab>".to_vec());
    assert_eq!(parse_modifier_combo(b"C-1"), b"<C-1>".to_vec());
    assert_eq!(parse_modifier_combo(b"X-a"), b"<X-a>".to_vec());
    assert_eq!(parse_modifier_combo(b"C-foo"), b"<C-foo>".to_vec());
    assert_eq!(parse_modifier_combo(b"C-"), b"<C->".to_vec());
    assert_eq!(parse_modifier_combo(b"abc"), b"<abc>".to_vec());
}

#[test]
fn type_content_mixes_keys_and_text() {
    assert_eq!(parse_type_content(b"ls<ret><C-d>"), b"ls\r\x04".to_vec());
    assert_eq!(parse_type_content(b"\\<x"), b"<x".to_vec());
    assert_eq!(parse_type_content(b"a\\b"), b"a\\b".to_vec());
}

#[test]
fn special_key_parse_reports_its_length() {
    assert_eq!(parse_special_key(b"<ret>rest"), Some((b"\r".to_vec(), 5)));
    assert_eq!(parse_special_key(b"<C-a><b>"), Some((vec![1], 5)));
    assert_eq!(parse_special_key(b"<open"), None);
}
