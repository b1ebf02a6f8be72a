use crawl::dot::write_dot_left_right;
use crawl::graph::{HashTable, IncludeMapping, Index};
use crawl::impact::{dirty_set, expand_paths, impact_from_contents, reverse_reachable, ImpactReport};
use crawl::parse::map_quoted_tokens;
use crawl::scan::build_index;
use crawl::serial::{parse_index, serialize_index};

fn bv(s: &str) -> Vec<u8> {
    s.as_bytes().to_vec()
}

/// A file body holding one quoted directive per listed token.
fn body(tokens: &[&str]) -> Vec<u8> {
    let mut v = Vec::new();
    for t in tokens {
        v.push(b'#');
        v.extend_from_slice(b"includ");
        v.extend_from_slice(b"e \"");
        v.extend_from_slice(t.as_bytes());
        v.extend_from_slice(b"\"\n");
    }
    v
}

/// The example tree: a.c names a.h, a.h names b.h, b.h is empty.
fn tree() -> (Vec<Vec<u8>>, Vec<(Vec<u8>, Vec<u8>)>) {
    let roots = vec![bv("/r")];
    let files = vec![
        (bv("/r/a.c"), body(&["a.h"])),
        (bv("/r/a.h"), body(&["b.h"])),
        (bv("/r/b.h"), Vec::new()),
    ];
    (roots, files)
}

fn affected(r: ImpactReport) -> Vec<Vec<u8>> {
    match r {
        ImpactReport::Affected(v) => v,
        ImpactReport::NoChanges => panic!("expected affected units, saw no content changes"),
        ImpactReport::NoneAffected => panic!("expected affected units, saw none downstream"),
    }
}

#[test]
fn scan_builds_mirrored_edges() {
    let (roots, files) = tree();
    let idx = build_index(&roots, &files);
    let fwd_a = idx.fwd.get(&bv("/r/a.c")).expect("a.c has an edge");
    assert_eq!(fwd_a, &vec![bv("/r/a.h")]);
    let rev_ah = idx.rev.get(&bv("/r/a.h")).expect("a.h has an includer");
    assert_eq!(rev_ah, &vec![bv("/r/a.c")]);
    let rev_bh = idx.rev.get(&bv("/r/b.h")).expect("b.h has an includer");
    assert_eq!(rev_bh, &vec![bv("/r/a.h")]);
    assert!(idx.fwd.get(&bv("/r/b.h")).is_none());
}

#[test]
fn edit_of_leaf_header_reaches_unit() {
    // the example tree; after editing b.h the impact of b.h is exactly a.c
    let (roots, files) = tree();
    let idx = build_index(&roots, &files);
    let cands = vec![(bv("/r/b.h"), Some(bv("int changed;\n")))];
    let got = affected(impact_from_contents(&idx, &cands));
    assert_eq!(got, vec![bv("/r/a.c")]);
}

#[test]
fn comment_edit_is_no_change() {
    // the same tree; a comment-only edit of a.h is no content change
    let (roots, files) = tree();
    let idx = build_index(&roots, &files);
    let mut edited = body(&["b.h"]);
    edited.extend_from_slice(&bv("/* only a comment */"));
    let cands = vec![(bv("/r/a.h"), Some(edited))];
    match impact_from_contents(&idx, &cands) {
        ImpactReport::NoChanges => {},
        _ => panic!("a comment-only edit must report no content changes"),
    }
}

#[test]
fn unchanged_content_is_no_change() {
    let (roots, files) = tree();
    let idx = build_index(&roots, &files);
    let cands: Vec<(Vec<u8>, Option<Vec<u8>>)> =
        files.iter().map(|(p, c)| (p.clone(), Some(c.clone()))).collect();
    match impact_from_contents(&idx, &cands) {
        ImpactReport::NoChanges => {},
        _ => panic!("unchanged content must report no content changes"),
    }
}

#[test]
fn missing_file_counts_as_dirty() {
    let (roots, files) = tree();
    let idx = build_index(&roots, &files);
    let cands = vec![(bv("/r/b.h"), None)];
    let got = affected(impact_from_contents(&idx, &cands));
    assert_eq!(got, vec![bv("/r/a.c")]);
}

#[test]
fn cyclic_headers_terminate() {
    // a.h and b.h name each other; main.c names a.h
    let roots = vec![bv("/r")];
    let files = vec![
        (bv("/r/main.c"), body(&["a.h"])),
        (bv("/r/a.h"), body(&["b.h"])),
        (bv("/r/b.h"), body(&["a.h"])),
    ];
    let idx = build_index(&roots, &files);
    let cands = vec![(bv("/r/a.h"), Some(bv("int changed;\n")))];
    let got = affected(impact_from_contents(&idx, &cands));
    assert_eq!(got, vec![bv("/r/main.c")]);
    // the walk itself reports each node once
    let reach = reverse_reachable(&idx.rev, &vec![bv("/r/a.h")]);
    assert_eq!(reach, vec![bv("/r/a.h"), bv("/r/b.h"), bv("/r/main.c")]);
}

#[test]
fn minimal_impact_and_orphan_header() {
    let roots = vec![bv("/r")];
    let files = vec![
        (bv("/r/main.c"), body(&["x.h"])),
        (bv("/r/x.h"), Vec::new()),
        (bv("/r/y.h"), Vec::new()),
    ];
    let idx = build_index(&roots, &files);
    // changing x.h must report exactly main.c
    let got = affected(impact_from_contents(
        &idx,
        &vec![(bv("/r/x.h"), Some(bv("int changed;\n")))],
    ));
    assert_eq!(got, vec![bv("/r/main.c")]);
    // changing the unrelated y.h must report no unit downstream
    match impact_from_contents(&idx, &vec![(bv("/r/y.h"), Some(bv("int changed;\n")))]) {
        ImpactReport::NoneAffected => {},
        _ => panic!("an orphan header must report no units downstream"),
    }
}

#[test]
fn directory_inputs_expand_to_tracked_files() {
    let (roots, files) = tree();
    let idx = build_index(&roots, &files);
    let inputs = vec![(bv("/r"), true)];
    let got = expand_paths(&idx.hashes, &inputs);
    assert_eq!(got, vec![bv("/r/a.c"), bv("/r/a.h"), bv("/r/b.h")]);
    // a file input stands for itself even when untracked
    let got2 = expand_paths(&idx.hashes, &vec![(bv("/r/new.c"), false)]);
    assert_eq!(got2, vec![bv("/r/new.c")]);
}

#[test]
fn dirty_set_compares_digests() {
    let (roots, files) = tree();
    let idx = build_index(&roots, &files);
    let cands = vec![
        (bv("/r/a.c"), Some(files[0].1.clone())),
        (bv("/r/b.h"), Some(bv("int changed;\n"))),
        (bv("/r/new.h"), Some(bv("int n;\n"))),
    ];
    let got = dirty_set(&idx.hashes, &cands);
    assert_eq!(got, vec![bv("/r/b.h"), bv("/r/new.h")]);
}

#[test]
fn subdirectory_resolution_prefers_sibling() {
    let roots = vec![bv("/r")];
    let files = vec![
        (bv("/r/sub/u.c"), body(&["u.h"])),
        (bv("/r/sub/u.h"), Vec::new()),
        (bv("/r/u.h"), body(&["v.h"])),
        (bv("/r/v.h"), Vec::new()),
    ];
    let idx = build_index(&roots, &files);
    // the sibling of the including file wins over the root's copy
    let rev = idx.rev.get(&bv("/r/sub/u.h")).expect("the sibling is the target");
    assert_eq!(rev, &vec![bv("/r/sub/u.c")]);
    assert!(idx.rev.get(&bv("/r/v.h")).is_some());
}

#[test]
fn relative_tokens_resolve_lexically() {
    let roots = vec![bv("/r")];
    let files = vec![
        (bv("/r/sub/u.c"), body(&["../w.h"])),
        (bv("/r/w.h"), Vec::new()),
    ];
    let idx = build_index(&roots, &files);
    let rev = idx.rev.get(&bv("/r/w.h")).expect("the parent path resolves");
    assert_eq!(rev, &vec![bv("/r/sub/u.c")]);
}

#[test]
fn unresolved_tokens_are_dropped() {
    let roots = vec![bv("/r")];
    let files = vec![(bv("/r/a.c"), body(&["missing.h"]))];
    let idx = build_index(&roots, &files);
    assert!(idx.fwd.get(&bv("/r/a.c")).is_none());
}

#[test]
fn scan_is_idempotent_and_canonical() {
    let (roots, files) = tree();
    let one = serialize_index(&build_index(&roots, &files));
    let two = serialize_index(&build_index(&roots, &files));
    assert_eq!(one, two);
    // root order does not matter: the artifact is canonical
    let roots_a = vec![bv("/r"), bv("/q")];
    let roots_b = vec![bv("/q"), bv("/r"), bv("/q")];
    let a = serialize_index(&build_index(&roots_a, &files));
    let b = serialize_index(&build_index(&roots_b, &files));
    assert_eq!(a, b);
}

#[test]
fn artifact_round_trips() {
    let (roots, files) = tree();
    let idx = build_index(&roots, &files);
    let bytes = serialize_index(&idx);
    let back = parse_index(&bytes).expect("our own artifact loads");
    assert_eq!(serialize_index(&back), bytes);
    assert_eq!(back.hashes.keys, idx.hashes.keys);
    assert_eq!(back.hashes.vals, idx.hashes.vals);
    assert_eq!(back.roots, idx.roots);
}

#[test]
fn corrupt_artifact_is_rejected() {
    let (roots, files) = tree();
    let idx = build_index(&roots, &files);
    let mut bytes = serialize_index(&idx);
    assert!(parse_index(&bv("garbage")).is_none());
    bytes.pop();
    assert!(parse_index(&bytes).is_none());
}

#[test]
fn empty_artifact_is_empty_index() {
    let empty = Vec::new();
    let idx = parse_index(&empty).expect("an empty artifact is an empty index");
    assert_eq!(idx.roots.len(), 0);
    assert_eq!(idx.hashes.keys.len(), 0);
}

#[test]
fn mapping_collects_quoted_tokens() {
    let mut m = IncludeMapping::new();
    let mut text = body(&["a.h", "b.h"]);
    text.extend_from_slice(&body(&["a.h"]));
    map_quoted_tokens(&mut m, &text, &bv("/r/z.c"));
    map_quoted_tokens(&mut m, &body(&["a.h"]), &bv("/r/y.c"));
    let a = m.get(&bv("a.h")).expect("a.h was recorded");
    assert_eq!(a, &vec![bv("/r/y.c"), bv("/r/z.c")]);
    let b = m.get(&bv("b.h")).expect("b.h was recorded");
    assert_eq!(b, &vec![bv("/r/z.c")]);
}

#[test]
fn dot_output_is_exact() {
    let mut m = IncludeMapping::new();
    m.insert(bv("/r/a.h"), bv("/r/a.c"));
    m.insert(bv("/r/a.h"), bv("/r/b.c"));
    let out = write_dot_left_right(&m, &bv("/r"));
    let text = String::from_utf8(out).expect("dot output is text");
    let want = "digraph Includes {\n  rankdir=LR;\n  graph [splines=true, concentrate=true];\n  node  [fontname=\"Helvetica\", fontsize=10, style=filled];\n  edge  [arrowhead=vee];\n  { rank=source;\n    \"a.h\" [shape=box, fillcolor=\"#fff7e6\"];\n  }\n  { rank=sink;\n    \"a.c\" [shape=ellipse, fillcolor=\"#e8f0fe\"];\n    \"b.c\" [shape=ellipse, fillcolor=\"#e8f0fe\"];\n  }\n  \"a.h\" -> \"a.c\";\n  \"a.h\" -> \"b.c\";\n}\n";
    assert_eq!(text, want);
}

#[test]
fn dot_escapes_labels() {
    let mut m = IncludeMapping::new();
    m.insert(bv("/q/a\"b.h"), bv("/q/c\\d.c"));
    let out = write_dot_left_right(&m, &bv("/r"));
    let text = String::from_utf8(out).expect("dot output is text");
    assert!(text.contains("\"/q/a\\\"b.h\""));
    assert!(text.contains("\"/q/c\\\\d.c\""));
}

#[test]
fn hash_table_overwrites() {
    let mut t = HashTable::new();
    t.set_hash(bv("/r/a.h"), 1);
    t.set_hash(bv("/r/a.h"), 2);
    assert_eq!(t.get(&bv("/r/a.h")), Some(2));
    assert_eq!(t.get(&bv("/r/b.h")), None);
    assert_eq!(t.keys.len(), 1);
}

#[test]
fn empty_index_has_no_impact_targets() {
    let idx = Index::new();
    let cands = vec![(bv("/r/a.h"), Some(bv("int x;\n")))];
    match impact_from_contents(&idx, &cands) {
        ImpactReport::NoneAffected => {},
        _ => panic!("an untracked dirty header reaches no units"),
    }
}
