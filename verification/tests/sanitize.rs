use sg_patch::bytes::{remove_all, replace_first, u32_dec};
use sg_patch::sanitize::sanitize_diagnostic;

fn b(s: &str) -> Vec<u8> {
    s.as_bytes().to_vec()
}

#[test]
fn takes_last_nonempty_line() {
    let stderr = b("first warning\nsecond warning\nfatal: it broke\n\n");
    assert_eq!(sanitize_diagnostic(&stderr), b("fatal: it broke"));
}

#[test]
fn strips_ansi_escapes() {
    let stderr = b("note\n\x1b[31mbad thing\x1b[0m\n");
    assert_eq!(sanitize_diagnostic(&stderr), b("bad thing"));
}

#[test]
fn removes_decorative_glyph() {
    let mut stderr = b("oops ");
    stderr.extend_from_slice(&[0xe2, 0x95, 0xb0, 0xe2, 0x96, 0xbb]);
    stderr.extend_from_slice(b" here".as_slice());
    assert_eq!(sanitize_diagnostic(&stderr), b("oops  here"));
}

#[test]
fn empty_lines_fall_back_to_whole_text() {
    let stderr = b("\n\n");
    assert_eq!(sanitize_diagnostic(&stderr), b("\n\n"));
}

#[test]
fn trailing_carriage_return_is_trimmed() {
    let stderr = b("warning\r\nfatal error\r\n");
    assert_eq!(sanitize_diagnostic(&stderr), b("fatal error"));
}

#[test]
fn decimal_formatting() {
    assert_eq!(u32_dec(0), b("0"));
    assert_eq!(u32_dec(7), b("7"));
    assert_eq!(u32_dec(1234), b("1234"));
    assert_eq!(u32_dec(4294967295), b("4294967295"));
}

#[test]
fn replace_first_hits_only_first_occurrence() {
    assert_eq!(replace_first(&b("foofoo"), &b("foo"), &b("X")), b("Xfoo"));
    assert_eq!(replace_first(&b("abc"), &b("zz"), &b("X")), b("abc"));
    assert_eq!(replace_first(&b("call(foo)"), &b("foo"), &b("bar")), b("call(bar)"));
}

#[test]
fn remove_all_removes_every_occurrence() {
    assert_eq!(remove_all(b("xayaxa").as_slice(), b("a").as_slice()), b("xyx"));
    assert_eq!(remove_all(b("abab").as_slice(), b("ab").as_slice()), b(""));
}
