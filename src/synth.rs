//! Emits the declarations of a built tree: one module per node, holding its
//! kind and path metadata and, for a directory, its children's modules.
use crate::entry_kind::kind_tag;
use crate::text::{chars_of, push_str, string_of};
use crate::tree::{
    bases_of_nodes, build_tree, entry_name, has_fault, idents_of, is_permutation, level_built, lex_le,
    names_distinct, node_built, reports_fault, BuildError, Node, SourceEntry,
};
use vstd::prelude::*;

verus! {

/// `s` with each `"` and `\` escaped by a backslash.
pub open spec fn escaped(s: Seq<char>) -> Seq<char>
    decreases s.len(),
{
    if s.len() == 0 {
        seq![]
    } else if s.last() == '"' || s.last() == '\\' {
        escaped(s.drop_last()) + seq!['\\', s.last()]
    } else {
        escaped(s.drop_last()).push(s.last())
    }
}

/// `s` as a string literal.
pub open spec fn quoted(s: Seq<char>) -> Seq<char> {
    seq!['"'] + escaped(s) + seq!['"']
}

/// The opening of a node's module: its name, kind and path metadata.
pub open spec fn decl_head(n: Node) -> Seq<char> {
    "pub mod "@ + n.ident@ + " {\n"@
        + "pub const KIND: EntryKind = EntryKind::"@ + kind_tag(n.kind) + ";\n"@
        + "pub const PATH: EmbeddedPath = EmbeddedPath::new("@
        + quoted(n.relative_path@) + ", "@ + quoted(n.name@) + ", "@ + quoted(n.stem@) + ");\n"@
}

/// The module of a node, its children's modules inside it in order.
pub open spec fn node_decl(n: Node) -> Seq<char>
    decreases n, n.children@.len() + 1,
{
    decl_head(n) + children_decls(n, n.children@.len() as int) + "}\n"@
}

/// The modules of the first `i` children of `n`.
pub open spec fn children_decls(n: Node, i: int) -> Seq<char>
    decreases n, i,
{
    if i <= 0 || i > n.children@.len() {
        seq![]
    } else {
        children_decls(n, i - 1) + node_decl(n.children@[i - 1])
    }
}

/// The modules of the first `i` of `nodes`.
pub open spec fn decls(nodes: Seq<Node>, i: int) -> Seq<char>
    decreases i,
{
    if i <= 0 || i > nodes.len() {
        seq![]
    } else {
        decls(nodes, i - 1) + node_decl(nodes[i - 1])
    }
}

/// The declarations of a tree whose root holds `nodes`.
pub open spec fn emitted(nodes: Seq<Node>) -> Seq<char> {
    decls(nodes, nodes.len() as int)
}

fn push_quoted(out: &mut Vec<char>, s: &String)
    ensures
        final(out)@ == old(out)@ + quoted(s@),
{
    let cs = chars_of(s.as_str());
    out.push('"');
    let ghost start = out@;
    let mut i: usize = 0;
    while i < cs.len()
        invariant
            i <= cs@.len(),
            out@ == start + escaped(cs@.subrange(0, i as int)),
        decreases cs@.len() - i,
    {
        let c = cs[i];
        assert(cs@.subrange(0, i + 1).drop_last() =~= cs@.subrange(0, i as int));
        if c == '"' || c == '\\' {
            out.push('\\');
        }
        out.push(c);
        i = i + 1;
        assert(out@ =~= start + escaped(cs@.subrange(0, i as int)));
    }
    assert(cs@.subrange(0, cs@.len() as int) =~= cs@);
    out.push('"');
    assert(final(out)@ =~= old(out)@ + quoted(s@));
}

fn emit_node(n: &Node, out: &mut Vec<char>)
    ensures
        final(out)@ == old(out)@ + node_decl(*n),
    decreases *n,
{
    push_str(out, "pub mod ");
    push_str(out, n.ident.as_str());
    push_str(out, " {\n");
    push_str(out, "pub const KIND: EntryKind = EntryKind::");
    push_str(out, n.kind.tag());
    push_str(out, ";\n");
    push_str(out, "pub const PATH: EmbeddedPath = EmbeddedPath::new(");
    push_quoted(out, &n.relative_path);
    push_str(out, ", ");
    push_quoted(out, &n.name);
    push_str(out, ", ");
    push_quoted(out, &n.stem);
    push_str(out, ");\n");
    assert(out@ =~= old(out)@ + decl_head(*n));
    let ghost head = out@;
    let mut i: usize = 0;
    while i < n.children.len()
        invariant
            i <= n.children@.len(),
            out@ == head + children_decls(*n, i as int),
        decreases n.children@.len() - i,
    {
        proof {
            assert(decreases_to!(*n => n.children@[i as int]));
        }
        emit_node(&n.children[i], out);
        i = i + 1;
        assert(out@ =~= head + children_decls(*n, i as int));
    }
    push_str(out, "}\n");
    assert(final(out)@ =~= old(out)@ + node_decl(*n));
}

/// The declarations of a tree whose root holds `nodes`, one module per node.
pub fn emit(nodes: &Vec<Node>) -> (r: String)
    ensures
        r@ == emitted(nodes@),
{
    let mut out: Vec<char> = Vec::new();
    let mut i: usize = 0;
    while i < nodes.len()
        invariant
            i <= nodes@.len(),
            out@ == decls(nodes@, i as int),
        decreases nodes@.len() - i,
    {
        emit_node(&nodes[i], &mut out);
        i = i + 1;
        assert(out@ =~= decls(nodes@, i as int));
    }
    string_of(&out)
}

/// Builds the tree of a directory snapshot and emits its declarations; a
/// fault anywhere in the snapshot fails the whole generation, with no output.
pub fn generate(entries: &Vec<SourceEntry>) -> (r: Result<String, BuildError>)
    ensures
        r is Err <==> exists|i: int| 0 <= i < entries@.len() && has_fault(#[trigger] entries@[i]),
        r matches Err(err) ==> exists|i: int|
            0 <= i < entries@.len() && reports_fault(#[trigger] entries@[i], Seq::empty(), err),
        r matches Ok(text) ==> exists|nodes: Seq<Node>|
            level_built(nodes, entries@, Seq::empty()) && text@ == emitted(nodes),
{
    match build_tree(entries) {
        Ok(nodes) => {
            let text = emit(&nodes);
            proof {
                assert(level_built(nodes@, entries@, Seq::empty()) && text@ == emitted(nodes@));
            }
            Ok(text)
        },
        Err(e) => Err(e),
    }
}

pub open spec fn names_of(nodes: Seq<Node>) -> Seq<Seq<char>> {
    nodes.map_values(|n: Node| n.name@)
}

pub open spec fn sorted_names(a: Seq<Seq<char>>) -> bool {
    forall|i: int, j: int| 0 <= i < j < a.len() ==> lex_le(#[trigger] a[i], #[trigger] a[j])
}

proof fn lemma_lex_antisymmetric(a: Seq<char>, b: Seq<char>)
    requires
        lex_le(a, b),
        lex_le(b, a),
    ensures
        a == b,
    decreases a.len(),
{
    if a.len() == 0 || b.len() == 0 {
        assert(a.len() == 0 && b.len() == 0);
    } else if a[0] != b[0] {
        assert(a[0] < b[0]);
        assert(b[0] < a[0]);
    } else {
        assert(lex_le(a.drop_first(), b.drop_first()));
        assert(lex_le(b.drop_first(), a.drop_first()));
        lemma_lex_antisymmetric(a.drop_first(), b.drop_first());
        assert(a.drop_first().len() == b.drop_first().len());
        assert forall|i: int| 0 <= i < a.len() implies a[i] == b[i] by {
            if i > 0 {
                assert(a[i] == a.drop_first()[i - 1]);
                assert(b[i] == b.drop_first()[i - 1]);
            }
        }
    }
    assert(a =~= b);
}

/// Two sorted sequences of the same distinct names are equal.
proof fn lemma_sorted_unique(a: Seq<Seq<char>>, b: Seq<Seq<char>>)
    requires
        a.len() == b.len(),
        sorted_names(a),
        sorted_names(b),
        a.no_duplicates(),
        b.no_duplicates(),
        forall|x: Seq<char>| a.contains(x) <==> b.contains(x),
    ensures
        a == b,
    decreases a.len(),
{
    if a.len() > 0 {
        assert(a.contains(a[0]));
        let j = choose|j: int| 0 <= j < b.len() && b[j] == a[0];
        assert(b.contains(b[0]));
        let k = choose|k: int| 0 <= k < a.len() && a[k] == b[0];
        if j > 0 && k > 0 {
            assert(lex_le(b[0], b[j]));
            assert(lex_le(a[0], a[k]));
            lemma_lex_antisymmetric(a[0], b[0]);
        }
        let a1 = a.drop_first();
        let b1 = b.drop_first();
        assert forall|x: Seq<char>| a1.contains(x) <==> b1.contains(x) by {
            if a1.contains(x) {
                let i = choose|i: int| 0 <= i < a1.len() && a1[i] == x;
                assert(a[i + 1] == x);
                assert(a.contains(x));
                let m = choose|m: int| 0 <= m < b.len() && b[m] == x;
                assert(b1[m - 1] == x);
            }
            if b1.contains(x) {
                let i = choose|i: int| 0 <= i < b1.len() && b1[i] == x;
                assert(b[i + 1] == x);
                assert(b.contains(x));
                let m = choose|m: int| 0 <= m < a.len() && a[m] == x;
                assert(a1[m - 1] == x);
            }
        }
        assert(sorted_names(a1)) by {
            assert forall|i: int, j: int| 0 <= i < j < a1.len() implies lex_le(#[trigger] a1[i], #[trigger] a1[j]) by {
                assert(lex_le(a[i + 1], a[j + 1]));
            }
        }
        assert(sorted_names(b1)) by {
            assert forall|i: int, j: int| 0 <= i < j < b1.len() implies lex_le(#[trigger] b1[i], #[trigger] b1[j]) by {
                assert(lex_le(b[i + 1], b[j + 1]));
            }
        }
        lemma_sorted_unique(a1, b1);
        assert forall|i: int| 0 <= i < a.len() implies a[i] == b[i] by {
            if i > 0 {
                assert(a[i] == a1[i - 1]);
                assert(b[i] == b1[i - 1]);
            }
        }
        assert(a =~= b);
    }
}

proof fn lemma_children_decls_are_decls(n: Node, i: int)
    requires
        0 <= i <= n.children@.len(),
    ensures
        children_decls(n, i) == decls(n.children@, i),
    decreases i,
{
    if i > 0 {
        lemma_children_decls_are_decls(n, i - 1);
    }
}

proof fn lemma_decls_equal(ns1: Seq<Node>, ns2: Seq<Node>, i: int)
    requires
        ns1.len() == ns2.len(),
        0 <= i <= ns1.len(),
        forall|k: int| 0 <= k < ns1.len() ==> node_decl(#[trigger] ns1[k]) == node_decl(ns2[k]),
    ensures
        decls(ns1, i) == decls(ns2, i),
    decreases i,
{
    if i > 0 {
        lemma_decls_equal(ns1, ns2, i - 1);
    }
}

/// Two builds of the same entries emit the same module for each position.
proof fn lemma_level_same_decls(ns1: Seq<Node>, ns2: Seq<Node>, es: Seq<SourceEntry>, prefix: Seq<char>)
    requires
        level_built(ns1, es, prefix),
        level_built(ns2, es, prefix),
        names_distinct(es),
    ensures
        ns1.len() == ns2.len(),
        forall|i: int| 0 <= i < ns1.len() ==> node_decl(#[trigger] ns1[i]) == node_decl(ns2[i]),
    decreases es,
{
    let n = es.len();
    let p1 = choose|p: Seq<usize>| is_permutation(p, n)
        && forall|i: int| 0 <= i < n ==> node_built(#[trigger] ns1[i], es[p[i] as int], prefix);
    let p2 = choose|p: Seq<usize>| is_permutation(p, n)
        && forall|i: int| 0 <= i < n ==> node_built(#[trigger] ns2[i], es[p[i] as int], prefix);
    let a = names_of(ns1);
    let b = names_of(ns2);
    assert forall|i: int| 0 <= i < n implies a[i] == entry_name(es[p1[i] as int]) && b[i] == entry_name(es[p2[i] as int]) by {
        assert(node_built(ns1[i], es[p1[i] as int], prefix));
        assert(node_built(ns2[i], es[p2[i] as int], prefix));
    }
    assert(a.no_duplicates()) by {
        assert forall|i: int, j: int| 0 <= i < a.len() && 0 <= j < a.len() && i != j implies a[i] != a[j] by {
            assert(p1[i] != p1[j]);
        }
    }
    assert(b.no_duplicates()) by {
        assert forall|i: int, j: int| 0 <= i < b.len() && 0 <= j < b.len() && i != j implies b[i] != b[j] by {
            assert(p2[i] != p2[j]);
        }
    }
    assert forall|x: Seq<char>| a.contains(x) <==> b.contains(x) by {
        if a.contains(x) {
            let i = choose|i: int| 0 <= i < a.len() && a[i] == x;
            assert(p2.contains(p1[i]));
            let k = choose|k: int| 0 <= k < n && p2[k] == p1[i];
            assert(b[k] == x);
        }
        if b.contains(x) {
            let i = choose|i: int| 0 <= i < b.len() && b[i] == x;
            assert(p1.contains(p2[i]));
            let k = choose|k: int| 0 <= k < n && p1[k] == p2[i];
            assert(a[k] == x);
        }
    }
    assert(sorted_names(a)) by {
        assert forall|i: int, j: int| 0 <= i < j < a.len() implies lex_le(#[trigger] a[i], #[trigger] a[j]) by {
            assert(lex_le(ns1[i].name@, ns1[j].name@));
        }
    }
    assert(sorted_names(b)) by {
        assert forall|i: int, j: int| 0 <= i < j < b.len() implies lex_le(#[trigger] b[i], #[trigger] b[j]) by {
            assert(lex_le(ns2[i].name@, ns2[j].name@));
        }
    }
    lemma_sorted_unique(a, b);
    assert forall|i: int| 0 <= i < n implies p1[i] == p2[i] by {
        assert(a[i] == b[i]);
    }
    assert(bases_of_nodes(ns1) =~= bases_of_nodes(ns2)) by {
        assert forall|i: int| 0 <= i < n implies ns1[i].kind == ns2[i].kind && ns1[i].name@ == ns2[i].name@ by {
            assert(node_built(ns1[i], es[p1[i] as int], prefix));
            assert(node_built(ns2[i], es[p1[i] as int], prefix));
        }
    }
    assert forall|i: int| 0 <= i < n implies node_decl(#[trigger] ns1[i]) == node_decl(ns2[i]) by {
        let n1 = ns1[i];
        let n2 = ns2[i];
        let e = es[p1[i] as int];
        assert(node_built(n1, e, prefix));
        assert(node_built(n2, e, prefix));
        assert(idents_of(ns1)[i] == idents_of(ns2)[i]);
        assert(n1.ident@ == n2.ident@);
        assert(decl_head(n1) == decl_head(n2));
        match e {
            SourceEntry::Dir(_, ch) => {
                assert(decreases_to!(es => es[p1[i] as int]));
                assert(level_built(n1.children@, ch@, n1.relative_path@));
                assert(level_built(n2.children@, ch@, n1.relative_path@));
                assert(names_distinct(ch@));
                lemma_level_same_decls(n1.children@, n2.children@, ch@, n1.relative_path@);
                lemma_decls_equal(n1.children@, n2.children@, n1.children@.len() as int);
                lemma_children_decls_are_decls(n1, n1.children@.len() as int);
                lemma_children_decls_are_decls(n2, n2.children@.len() as int);
            },
            _ => {},
        }
    }
}

/// Building and emitting are deterministic: any two builds of one snapshot
/// whose directories list distinct names emit byte-identical declarations.
pub proof fn lemma_emitted_deterministic(ns1: Seq<Node>, ns2: Seq<Node>, es: Seq<SourceEntry>)
    requires
        level_built(ns1, es, Seq::empty()),
        level_built(ns2, es, Seq::empty()),
        names_distinct(es),
    ensures
        emitted(ns1) == emitted(ns2),
{
    lemma_level_same_decls(ns1, ns2, es, Seq::empty());
    lemma_decls_equal(ns1, ns2, ns1.len() as int);
}

/// Two texts that generation may produce from one snapshot whose
/// directories list distinct names are equal.
pub proof fn lemma_generation_deterministic(t1: Seq<char>, t2: Seq<char>, es: Seq<SourceEntry>)
    requires
        exists|ns: Seq<Node>| level_built(ns, es, Seq::empty()) && t1 == emitted(ns),
        exists|ns: Seq<Node>| level_built(ns, es, Seq::empty()) && t2 == emitted(ns),
        names_distinct(es),
    ensures
        t1 == t2,
{
    let ns1 = choose|ns: Seq<Node>| level_built(ns, es, Seq::empty()) && t1 == emitted(ns);
    let ns2 = choose|ns: Seq<Node>| level_built(ns, es, Seq::empty()) && t2 == emitted(ns);
    lemma_emitted_deterministic(ns1, ns2, es);
}

} // verus!
