use crawl::digest::{file_digest, fnv1a_hash, hex_of, is_header_file, is_unit_file};
use crawl::parse::{parse_directive, parse_include_path, scan_directives, IncludeKind};
use crawl::relevant::{contains_sub, keeps_file, parse_exts};
use crawl::resolve::{normalize, parent_of};
use crawl::strip::strip_comments;

fn bv(s: &str) -> Vec<u8> {
    s.as_bytes().to_vec()
}

/// A directive line: `#` + the keyword + the token in quotes or angles.
fn dir_line(prefix: &str, tok: &str, angled: bool) -> Vec<u8> {
    let mut v = bv(prefix);
    v.push(b'#');
    v.extend_from_slice(b"includ");
    v.push(b'e');
    v.push(b' ');
    if angled {
        v.push(b'<');
        v.extend_from_slice(tok.as_bytes());
        v.push(b'>');
    } else {
        v.push(b'"');
        v.extend_from_slice(tok.as_bytes());
        v.push(b'"');
    }
    v
}

#[test]
fn strip_block_comment() {
    let s = bv("int a; /* note */ int b;");
    assert_eq!(strip_comments(&s), bv("int a;  int b;"));
}

#[test]
fn strip_line_comment_keeps_newline() {
    let s = bv("int a; // note\nint b;");
    assert_eq!(strip_comments(&s), bv("int a; \nint b;"));
}

#[test]
fn strip_unterminated_block_runs_to_end() {
    let s = bv("int a; /* open");
    assert_eq!(strip_comments(&s), bv("int a; "));
}

#[test]
fn strip_is_not_string_aware() {
    // a deliberate lexical limitation: an opener inside a string literal
    // still starts a comment
    let s = bv("char* p = \"//\"; int b;");
    assert_eq!(strip_comments(&s), bv("char* p = \""));
}

#[test]
fn strip_nested_stars() {
    let s = bv("a/*x**/b");
    assert_eq!(strip_comments(&s), bv("ab"));
}

#[test]
fn fnv_known_values() {
    // FNV-1a 64-bit test vectors
    assert_eq!(fnv1a_hash(&bv("")), 0xcbf29ce484222325);
    assert_eq!(fnv1a_hash(&bv("a")), 0xaf63dc4c8601ec8c);
}

#[test]
fn hex_renders_lowercase() {
    assert_eq!(hex_of(0xcbf29ce484222325), bv("cbf29ce484222325"));
    assert_eq!(hex_of(0), bv("0000000000000000"));
}

#[test]
fn digest_ignores_header_comments() {
    let p = bv("/r/a.h");
    let before = bv("int x;\n");
    let after = bv("int x;\n/* a new comment */");
    assert_eq!(file_digest(&p, &before), file_digest(&p, &after));
}

#[test]
fn digest_sees_header_code_edits() {
    let p = bv("/r/a.h");
    assert_ne!(file_digest(&p, &bv("int x;\n")), file_digest(&p, &bv("int y;\n")));
}

#[test]
fn digest_of_unit_is_raw() {
    // a translation unit is hashed unmodified, comments count
    let p = bv("/r/a.c");
    assert_ne!(
        file_digest(&p, &bv("int x;\n")),
        file_digest(&p, &bv("int x;\n/* c */"))
    );
}

#[test]
fn classify_extensions() {
    assert!(is_header_file(&bv("/r/a.h")));
    assert!(is_header_file(&bv("/r/a.hpp")));
    assert!(is_header_file(&bv("/r/a.inc")));
    assert!(!is_header_file(&bv("/r/a.c")));
    assert!(is_unit_file(&bv("/r/a.c")));
    assert!(!is_unit_file(&bv("/r/a.h")));
    assert!(!is_unit_file(&bv("/r/noext")));
    assert!(!is_header_file(&bv("/r/.hidden")));
}

#[test]
fn parse_quoted_token() {
    let line = dir_line("", "a.h", false);
    assert_eq!(parse_include_path(&line), Some(bv("a.h")));
}

#[test]
fn parse_quoted_with_leading_blanks() {
    let line = dir_line("  \t ", "../x/y.h", false);
    assert_eq!(parse_include_path(&line), Some(bv("../x/y.h")));
}

#[test]
fn parse_angled_is_dropped_by_quoted_extraction() {
    let line = dir_line("", "stdio.h", true);
    assert_eq!(parse_include_path(&line), None);
    match parse_directive(&line) {
        Some((IncludeKind::Angled, t)) => assert_eq!(t, bv("stdio.h")),
        other => panic!("expected an angled token, got {:?}", other.is_some()),
    }
}

#[test]
fn parse_rejects_other_lines() {
    assert_eq!(parse_include_path(&bv("int a;")), None);
    assert_eq!(parse_include_path(&bv("#define X 1")), None);
    // keyword with extra identifier bytes is no directive
    let mut v = bv("#");
    v.extend_from_slice(b"includ");
    v.extend_from_slice(b"ex \"a.h\"");
    assert_eq!(parse_include_path(&v), None);
    // an unterminated token is no token
    let mut u = bv("#");
    u.extend_from_slice(b"includ");
    u.extend_from_slice(b"e \"a.h");
    assert_eq!(parse_include_path(&u), None);
}

#[test]
fn scan_text_in_order() {
    let mut text = dir_line("", "a.h", false);
    text.push(b'\n');
    text.extend_from_slice(&bv("int x;\n"));
    text.extend_from_slice(&dir_line("", "b.h", true));
    text.push(b'\n');
    text.extend_from_slice(&dir_line(" ", "c.h", false));
    let ds = scan_directives(&text);
    assert_eq!(ds.len(), 3);
    assert_eq!(ds[0], (IncludeKind::Quoted, bv("a.h")));
    assert_eq!(ds[1], (IncludeKind::Angled, bv("b.h")));
    assert_eq!(ds[2], (IncludeKind::Quoted, bv("c.h")));
}

#[test]
fn normalize_paths() {
    assert_eq!(normalize(&bv("/a/b/../c")), bv("/a/c"));
    assert_eq!(normalize(&bv("/a/./b//c")), bv("/a/b/c"));
    assert_eq!(normalize(&bv("/a/../../b")), bv("/b"));
    assert_eq!(normalize(&bv("/..")), bv("/"));
}

#[test]
fn parent_of_paths() {
    assert_eq!(parent_of(&bv("/r/sub/a.h")), bv("/r/sub"));
    assert_eq!(parent_of(&bv("noslash")), bv(""));
}

#[test]
fn parse_exts_default() {
    let r = parse_exts(&None);
    let want: Vec<Vec<u8>> = vec![bv("c"), bv("h"), bv("hh"), bv("hpp"), bv("hxx"), bv("inc")];
    assert_eq!(r, want);
}

#[test]
fn parse_exts_custom() {
    let r = parse_exts(&Some(bv(" .cc , ,h,")));
    let want: Vec<Vec<u8>> = vec![bv("cc"), bv("h")];
    assert_eq!(r, want);
}

#[test]
fn keeps_file_filters() {
    let exts = parse_exts(&None);
    let no_ign: Vec<Vec<u8>> = vec![];
    let ign = vec![bv("build/")];
    assert!(keeps_file(&bv("/r/a.c"), &no_ign, &exts));
    assert!(!keeps_file(&bv("/r/a.o"), &no_ign, &exts));
    assert!(!keeps_file(&bv("/r/noext"), &no_ign, &exts));
    assert!(!keeps_file(&bv("/r/build/a.c"), &ign, &exts));
    assert!(keeps_file(&bv("/r/src/a.c"), &ign, &exts));
}

#[test]
fn substring_search() {
    assert!(contains_sub(&bv("abcdef"), &bv("cde")));
    assert!(!contains_sub(&bv("abcdef"), &bv("cdf")));
    assert!(contains_sub(&bv("abc"), &bv("")));
    assert!(!contains_sub(&bv("ab"), &bv("abc")));
}

#[test]
fn digest_ignores_appended_line_comment() {
    let p = bv("/r/a.h");
    let c = bv("int x;\n");
    let mut d = c.clone();
    d.extend_from_slice(b"// trailing note");
    assert_eq!(file_digest(&p, &c), file_digest(&p, &d));
}

#[test]
fn comment_append_merges_at_a_trailing_slash() {
    // content ending in a bare slash merges with an appended opener into
    // a line comment, so such an append is not comment-only
    let p = bv("/r/a.h");
    let c = bv("int a = b /");
    let mut d = c.clone();
    d.extend_from_slice(b"/* note */ int k;");
    assert_ne!(file_digest(&p, &c), file_digest(&p, &d));
}
