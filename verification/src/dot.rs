//! Rendering a mapping as a dot graph, includees on the left and
//! includers on the right.
//!
//! Node labels are paths made relative to a project root and escaped for
//! dot's double-quoted strings; translation units are drawn as filled
//! ellipses, headers and everything else as filled boxes. Tables are
//! sorted, so the same mapping always renders to the same bytes.

use vstd::prelude::*;
use crate::digest::is_unit_file;
use crate::digest::is_unit_name;
use crate::graph::IncludeMapping;
use crate::graph::key_at;
use crate::order::insert_sorted;
use crate::order::lemma_sorted_no_duplicates;
use crate::order::lemma_sorted_same_set;
use crate::order::sorted_strict;
use crate::resolve::under_dir;
use crate::resolve::is_under_dir;
use crate::serial::bytes_eq;
use vstd::string::StringSliceAdditionalSpecFns;

verus! {

/// The bytes of a literal.
pub open spec fn lit(s: &str) -> Seq<u8> {
    s.spec_bytes()
}

/// Appends the bytes of a literal.
fn push_lit(out: &mut Vec<u8>, s: &str)
    ensures
        final(out)@ == old(out)@ + lit(s),
{
    let b = s.as_bytes();
    let ghost start = out@;
    let mut i: usize = 0;
    while i < b.len()
        invariant
            0 <= i <= b@.len(),
            b@ == lit(s),
            out@ =~= start + b@.subrange(0, i as int),
        decreases b@.len() - i,
    {
        out.push(b[i]);
        i = i + 1;
    }
    proof {
        assert(out@ =~= start + lit(s));
    }
}

/// A path label escaped for a dot double-quoted string: backslashes and
/// double quotes get a backslash.
pub open spec fn esc_spec(s: Seq<u8>) -> Seq<u8>
    decreases s.len(),
{
    if s.len() == 0 {
        Seq::empty()
    } else {
        let h = if s[0] == 92 {
            seq![92u8, 92u8]
        } else if s[0] == 34 {
            seq![92u8, 34u8]
        } else {
            seq![s[0]]
        };
        h + esc_spec(s.skip(1))
    }
}

/// A path shown relative to the project root when it lies under it.
pub open spec fn rel_spec(p: Seq<u8>, root: Seq<u8>) -> Seq<u8> {
    if p == root {
        Seq::empty()
    } else if under_dir(p, root) {
        p.skip(root.len() as int + 1)
    } else {
        p
    }
}

/// The escaped relative label of a node.
pub open spec fn label_spec(p: Seq<u8>, root: Seq<u8>) -> Seq<u8> {
    esc_spec(rel_spec(p, root))
}

/// Appends the escaped relative label of `p`.
fn push_label(out: &mut Vec<u8>, p: &Vec<u8>, root: &Vec<u8>)
    ensures
        final(out)@ == old(out)@ + label_spec(p@, root@),
{
    let n: usize = p.len();
    let mut relv: Vec<u8> = Vec::new();
    let mut start: usize = 0;
    if bytes_eq(p, root) {
        start = n;
    } else if is_under_dir(p, root) {
        proof {
            assert(root@.len() < p@.len());
        }
        start = root.len() + 1;
    }
    let mut i: usize = start;
    while i < p.len()
        invariant
            start <= i <= p@.len(),
            relv@ =~= p@.subrange(start as int, i as int),
        decreases p@.len() - i,
    {
        relv.push(p[i]);
        i = i + 1;
    }
    proof {
        assert(relv@ =~= rel_spec(p@, root@));
    }
    let ghost base = out@;
    let ghost rv = relv@;
    let mut j: usize = 0;
    proof {
        assert(rv.skip(0) =~= rv);
    }
    while j < relv.len()
        invariant
            0 <= j <= rv.len(),
            rv == relv@,
            base + esc_spec(rv) == out@ + esc_spec(rv.skip(j as int)),
        decreases rv.len() - j,
    {
        proof {
            assert(rv.skip(j as int)[0] == rv[j as int]);
            assert(rv.skip(j as int).skip(1) =~= rv.skip(j + 1));
        }
        let c = relv[j];
        if c == 92 {
            out.push(92);
            out.push(92);
        } else if c == 34 {
            out.push(92);
            out.push(34);
        } else {
            out.push(c);
        }
        j = j + 1;
    }
    proof {
        assert(esc_spec(rv.skip(rv.len() as int)) =~= Seq::<u8>::empty());
        assert(out@ =~= base + esc_spec(rv));
    }
}

/// One node declaration line.
pub open spec fn node_line(p: Seq<u8>, root: Seq<u8>) -> Seq<u8> {
    lit("    \"") + label_spec(p, root) + (if is_unit_name(p) {
        lit("\" [shape=ellipse, fillcolor=\"#e8f0fe\"];\n")
    } else {
        lit("\" [shape=box, fillcolor=\"#fff7e6\"];\n")
    })
}

/// The node declarations of a list of paths.
pub open spec fn node_lines(ps: Seq<Seq<u8>>, root: Seq<u8>) -> Seq<u8>
    decreases ps.len(),
{
    if ps.len() == 0 {
        Seq::empty()
    } else {
        node_line(ps[0], root) + node_lines(ps.skip(1), root)
    }
}

/// Appends the node declarations of every path in `ps`.
fn push_node_lines(out: &mut Vec<u8>, ps: &Vec<Vec<u8>>, root: &Vec<u8>)
    ensures
        final(out)@ == old(out)@ + node_lines(ps.deep_view(), root@),
{
    let ghost pv = ps.deep_view();
    let ghost base = out@;
    let mut i: usize = 0;
    proof {
        assert(pv.skip(0) =~= pv);
    }
    while i < ps.len()
        invariant
            0 <= i <= pv.len(),
            pv == ps.deep_view(),
            base + node_lines(pv, root@) == out@ + node_lines(pv.skip(i as int), root@),
        decreases pv.len() - i,
    {
        proof {
            assert(pv.skip(i as int)[0] == pv[i as int]);
            assert(pv.skip(i as int).skip(1) =~= pv.skip(i + 1));
            assert(pv[i as int] == ps@[i as int]@);
        }
        push_lit(out, "    \"");
        push_label(out, &ps[i], root);
        if is_unit_file(&ps[i]) {
            push_lit(out, "\" [shape=ellipse, fillcolor=\"#e8f0fe\"];\n");
        } else {
            push_lit(out, "\" [shape=box, fillcolor=\"#fff7e6\"];\n");
        }
        i = i + 1;
    }
    proof {
        assert(node_lines(pv.skip(pv.len() as int), root@) =~= Seq::<u8>::empty());
        assert(out@ =~= base + node_lines(pv, root@));
    }
}

/// The edge lines of one row: the includee on the left, each includer on
/// the right.
pub open spec fn edge_row(k: Seq<u8>, vs: Seq<Seq<u8>>, root: Seq<u8>) -> Seq<u8>
    decreases vs.len(),
{
    if vs.len() == 0 {
        Seq::empty()
    } else {
        lit("  \"") + label_spec(k, root) + lit("\" -> \"") + label_spec(vs[0], root) + lit(
            "\";\n",
        ) + edge_row(k, vs.skip(1), root)
    }
}

/// The edge lines of a whole table.
pub open spec fn edge_lines(keys: Seq<Seq<u8>>, vals: Seq<Seq<Seq<u8>>>, root: Seq<u8>) -> Seq<u8>
    decreases keys.len(),
{
    if keys.len() == 0 || vals.len() == 0 {
        Seq::empty()
    } else {
        edge_row(keys[0], vals[0], root) + edge_lines(keys.skip(1), vals.skip(1), root)
    }
}

/// The set of includers: every path recorded in some value set.
pub open spec fn includers_set(m: IncludeMapping) -> Set<Seq<u8>> {
    Set::new(|x: Seq<u8>| exists|k: Seq<u8>| #[trigger] m@.dom().contains(k) && m@[k].contains(x))
}

/// The strictly sorted listing of a set of byte strings (meaningful when
/// one exists; sorting makes it unique).
pub open spec fn sorted_of(s: Set<Seq<u8>>) -> Seq<Seq<u8>> {
    choose|q: Seq<Seq<u8>>| sorted_strict(q) && q.to_set() == s
}

/// Collects the includers of a mapping, sorted.
fn includers_list(m: &IncludeMapping) -> (r: Vec<Vec<u8>>)
    requires
        m.wf(),
    ensures
        sorted_strict(r.deep_view()),
        r.deep_view().to_set() == includers_set(*m),
{
    let mut out: Vec<Vec<u8>> = Vec::new();
    let mut i: usize = 0;
    proof {
        lemma_sorted_no_duplicates(m.keys.deep_view());
        assert(out.deep_view().to_set() =~= Set::<Seq<u8>>::empty());
    }
    while i < m.vals.len()
        invariant
            0 <= i <= m.vals@.len(),
            m.wf(),
            sorted_strict(out.deep_view()),
            out.deep_view().to_set() =~= Set::new(
                |x: Seq<u8>|
                    exists|k: int, j: int|
                        0 <= k < i && 0 <= j < m.vals.deep_view()[k].len()
                            && #[trigger] m.vals.deep_view()[k][j] == x,
            ),
        decreases m.vals@.len() - i,
    {
        let row = &m.vals[i];
        let mut j: usize = 0;
        proof {
            assert(row.deep_view() == m.vals.deep_view()[i as int]);
        }
        while j < row.len()
            invariant
                0 <= j <= row@.len(),
                m.wf(),
                0 <= i < m.vals@.len(),
                row.deep_view() == m.vals.deep_view()[i as int],
                sorted_strict(out.deep_view()),
                out.deep_view().to_set() =~= Set::new(
                    |x: Seq<u8>|
                        exists|k: int, j2: int|
                            ((0 <= k < i && 0 <= j2 < m.vals.deep_view()[k].len()) || (k
                                == i as int && 0 <= j2 < j)) && #[trigger] m.vals.deep_view(
                            )[k][j2] == x,
                ),
            decreases row@.len() - j,
        {
            proof {
                assert(row.deep_view()[j as int] == row@[j as int]@);
            }
            let c = row[j].clone();
            proof {
                assert(c@ == row.deep_view()[j as int]);
            }
            let ghost before = out.deep_view().to_set();
            insert_sorted(&mut out, c);
            proof {
                let e = m.vals.deep_view()[i as int][j as int];
                assert(out.deep_view().to_set() =~= Set::new(
                    |x: Seq<u8>|
                        exists|k: int, j2: int|
                            ((0 <= k < i && 0 <= j2 < m.vals.deep_view()[k].len()) || (k
                                == i as int && 0 <= j2 < j + 1)) && #[trigger] m.vals.deep_view(
                            )[k][j2] == x,
                )) by {
                    assert forall|x: Seq<u8>| out.deep_view().to_set().contains(x) implies
                        (exists|k: int, j2: int|
                            ((0 <= k < i && 0 <= j2 < m.vals.deep_view()[k].len()) || (k
                                == i as int && 0 <= j2 < j + 1)) && #[trigger] m.vals.deep_view(
                            )[k][j2] == x) by {
                        if x == e {
                            assert(m.vals.deep_view()[i as int][j as int] == x);
                        } else {
                            assert(before.contains(x));
                            let (k, j2) = choose|k: int, j2: int|
                                ((0 <= k < i && 0 <= j2 < m.vals.deep_view()[k].len()) || (k
                                    == i as int && 0 <= j2 < j)) && #[trigger] m.vals.deep_view(
                                )[k][j2] == x;
                            assert(m.vals.deep_view()[k][j2] == x);
                        }
                    }
                    assert forall|x: Seq<u8>|
                        (exists|k: int, j2: int|
                            ((0 <= k < i && 0 <= j2 < m.vals.deep_view()[k].len()) || (k
                                == i as int && 0 <= j2 < j + 1)) && #[trigger] m.vals.deep_view(
                            )[k][j2] == x) implies out.deep_view().to_set().contains(x) by {
                        let (k, j2) = choose|k: int, j2: int|
                            ((0 <= k < i && 0 <= j2 < m.vals.deep_view()[k].len()) || (k
                                == i as int && 0 <= j2 < j + 1)) && #[trigger] m.vals.deep_view(
                            )[k][j2] == x;
                        if k == i as int && j2 == j as int {
                            assert(x == e);
                        } else {
                            assert(before.contains(x));
                        }
                    }
                }
            }
            j = j + 1;
        }
        i = i + 1;
    }
    proof {
        let keys = m.keys.deep_view();
        assert(out.deep_view().to_set() =~= includers_set(*m)) by {
            assert forall|x: Seq<u8>| out.deep_view().to_set().contains(x) implies
                includers_set(*m).contains(x) by {
                let (k, j2) = choose|k: int, j2: int|
                    ((0 <= k < m.vals@.len() as int && 0 <= j2 < m.vals.deep_view()[k].len()))
                        && #[trigger] m.vals.deep_view()[k][j2] == x;
                let key = keys[k];
                assert(keys.contains(key)) by {
                    assert(keys[k] == key);
                }
                assert(key_at(keys, key) == k);
                assert(m@.dom().contains(key));
                assert(m@[key].contains(x)) by {
                    assert(m.vals.deep_view()[k].to_set().contains(x));
                }
            }
            assert forall|x: Seq<u8>| includers_set(*m).contains(x) implies
                out.deep_view().to_set().contains(x) by {
                let k = choose|k: Seq<u8>| #[trigger] m@.dom().contains(k) && m@[k].contains(x);
                let ki = key_at(keys, k);
                assert(0 <= ki < keys.len() && keys[ki] == k);
                assert(m@[k] == m.vals.deep_view()[ki].to_set());
                let j2 = choose|j2: int|
                    0 <= j2 < m.vals.deep_view()[ki].len() && m.vals.deep_view()[ki][j2] == x;
                assert(m.vals.deep_view()[ki][j2] == x);
            }
        }
    }
    out
}

/// The whole dot rendering of a mapping.
pub open spec fn dot_spec(m: IncludeMapping, root: Seq<u8>) -> Seq<u8> {
    lit("digraph Includes {\n") + lit("  rankdir=LR;\n") + lit(
        "  graph [splines=true, concentrate=true];\n",
    ) + lit("  node  [fontname=\"Helvetica\", fontsize=10, style=filled];\n") + lit(
        "  edge  [arrowhead=vee];\n",
    ) + lit("  { rank=source;\n") + node_lines(m.keys.deep_view(), root) + lit("  }\n") + lit(
        "  { rank=sink;\n",
    ) + node_lines(sorted_of(includers_set(m)), root) + lit("  }\n") + edge_lines(
        m.keys.deep_view(),
        m.vals.deep_view(),
        root,
    ) + lit("}\n")
}

/// Renders a mapping (includee to includers) as a dot graph, includees
/// in the left rank and includers in the right rank, labels relative to
/// `project_root`.
pub fn write_dot_left_right(mapping: &IncludeMapping, project_root: &Vec<u8>) -> (r: Vec<u8>)
    requires
        mapping.wf(),
    ensures
        r@ == dot_spec(*mapping, project_root@),
{
    let mut out: Vec<u8> = Vec::new();
    push_lit(&mut out, "digraph Includes {\n");
    push_lit(&mut out, "  rankdir=LR;\n");
    push_lit(&mut out, "  graph [splines=true, concentrate=true];\n");
    push_lit(&mut out, "  node  [fontname=\"Helvetica\", fontsize=10, style=filled];\n");
    push_lit(&mut out, "  edge  [arrowhead=vee];\n");
    push_lit(&mut out, "  { rank=source;\n");
    push_node_lines(&mut out, &mapping.keys, project_root);
    push_lit(&mut out, "  }\n");
    push_lit(&mut out, "  { rank=sink;\n");
    let incs = includers_list(mapping);
    proof {
        let q = sorted_of(includers_set(*mapping));
        assert(sorted_strict(incs.deep_view()) && incs.deep_view().to_set() == includers_set(
            *mapping,
        ));
        assert(sorted_strict(q) && q.to_set() == includers_set(*mapping));
        lemma_sorted_same_set(q, incs.deep_view());
    }
    push_node_lines(&mut out, &incs, project_root);
    push_lit(&mut out, "  }\n");
    push_edge_lines(&mut out, &mapping.keys, &mapping.vals, project_root);
    push_lit(&mut out, "}\n");
    out
}

/// Appends the edge lines of a table.
fn push_edge_lines(out: &mut Vec<u8>, keys: &Vec<Vec<u8>>, vals: &Vec<Vec<Vec<u8>>>, root: &Vec<
    u8,
>)
    ensures
        final(out)@ == old(out)@ + edge_lines(keys.deep_view(), vals.deep_view(), root@),
{
    let ghost kv = keys.deep_view();
    let ghost vv = vals.deep_view();
    let ghost base = out@;
    let mut i: usize = 0;
    proof {
        assert(kv.skip(0) =~= kv);
        assert(vv.skip(0) =~= vv);
    }
    while i < keys.len() && i < vals.len()
        invariant
            0 <= i <= kv.len(),
            0 <= i <= vv.len(),
            kv == keys.deep_view(),
            vv == vals.deep_view(),
            base + edge_lines(kv, vv, root@) == out@ + edge_lines(
                kv.skip(i as int),
                vv.skip(i as int),
                root@,
            ),
        decreases kv.len() - i,
    {
        proof {
            assert(kv.skip(i as int)[0] == kv[i as int]);
            assert(kv.skip(i as int).skip(1) =~= kv.skip(i + 1));
            assert(vv.skip(i as int)[0] == vv[i as int]);
            assert(vv.skip(i as int).skip(1) =~= vv.skip(i + 1));
            assert(kv[i as int] == keys@[i as int]@);
            assert(vv[i as int] == vals@[i as int].deep_view());
        }
        let row = &vals[i];
        let key = &keys[i];
        let ghost rv = row.deep_view();
        let ghost rowbase = out@;
        let mut j: usize = 0;
        proof {
            assert(rv.skip(0) =~= rv);
        }
        while j < row.len()
            invariant
                0 <= j <= rv.len(),
                rv == row.deep_view(),
                key@ == kv[i as int],
                rowbase + edge_row(kv[i as int], rv, root@) == out@ + edge_row(
                    kv[i as int],
                    rv.skip(j as int),
                    root@,
                ),
            decreases rv.len() - j,
        {
            proof {
                assert(rv.skip(j as int)[0] == rv[j as int]);
                assert(rv.skip(j as int).skip(1) =~= rv.skip(j + 1));
                assert(rv[j as int] == row@[j as int]@);
            }
            push_lit(out, "  \"");
            push_label(out, key, root);
            push_lit(out, "\" -> \"");
            push_label(out, &row[j], root);
            push_lit(out, "\";\n");
            j = j + 1;
        }
        proof {
            assert(edge_row(kv[i as int], rv.skip(rv.len() as int), root@) =~= Seq::<u8>::empty());
            assert(out@ =~= rowbase + edge_row(kv[i as int], rv, root@));
        }
        i = i + 1;
    }
    proof {
        assert(edge_lines(kv.skip(i as int), vv.skip(i as int), root@) =~= Seq::<u8>::empty());
        assert(out@ =~= base + edge_lines(kv, vv, root@));
    }
}


/// The rendering repeats nothing: the includee rank lists each key once,
/// and every row yields one edge line per distinct includer, so each
/// (includee, includer) pair is drawn exactly once. (The includer rank
/// is the strictly sorted listing of a set, so it repeats nothing
/// either.)
pub proof fn lemma_dot_lines_unique(m: IncludeMapping)
    requires
        m.wf(),
    ensures
        m.keys.deep_view().no_duplicates(),
        forall|i: int|
            0 <= i < m.vals@.len() ==> (#[trigger] m.vals.deep_view()[i]).no_duplicates(),
{
    lemma_sorted_no_duplicates(m.keys.deep_view());
    assert forall|i: int| 0 <= i < m.vals@.len() implies (
    #[trigger] m.vals.deep_view()[i]).no_duplicates() by {
        lemma_sorted_no_duplicates(m.vals.deep_view()[i]);
    }
}

} // verus!
