//! Builds the tree of nodes from a snapshot of a directory: children are
//! visited in name order, each gets its path metadata and an identifier
//! distinct among its siblings, and a fault anywhere fails the whole build.
use crate::embedded_path::{last_component, stem_of};
use crate::entry_kind::EntryKind;
use crate::ident::{
    base_ident, base_identifier, char_views, disambiguate, lemma_sibling_idents_distinct,
    sibling_idents, stem_chars,
};
use crate::text::{
    chars_of, lemma_rfind_absent, lemma_rfind_append, push_chars, rfind, rfind_chars, string_of,
};
use vstd::prelude::*;
use vstd::seq_lib::*;

verus! {

broadcast use group_to_multiset_ensures;

/// One entry of a directory snapshot, as listed from the filesystem.
pub enum SourceEntry {
    /// A file, by name.
    File(String),
    /// A directory, by name, with its entries in any order.
    Dir(String, Vec<SourceEntry>),
    /// An entry that could not be read, by name.
    Unreadable(String),
    /// An entry whose name is not valid UTF-8, by a lossy rendering of it.
    NonUtf8(String),
}

/// Why a build failed.
pub enum BuildError {
    /// The entry at this relative path could not be read.
    Unreadable(String),
    /// An entry of the directory at `parent` has a name that is not UTF-8.
    NonUtf8 { parent: String, preview: String },
    /// An entry of the directory at `parent` has an empty name or one that
    /// holds `/`, which no path component can be.
    InvalidName { parent: String, name: String },
}

/// One built entry: its kind, path metadata, identifier and, for a
/// directory, its children in name order.
pub struct Node {
    pub kind: EntryKind,
    pub relative_path: String,
    pub name: String,
    pub stem: String,
    pub ident: String,
    pub children: Vec<Node>,
}

pub open spec fn entry_name(e: SourceEntry) -> Seq<char> {
    match e {
        SourceEntry::File(n) => n@,
        SourceEntry::Dir(n, _) => n@,
        SourceEntry::Unreadable(n) => n@,
        SourceEntry::NonUtf8(n) => n@,
    }
}

/// A name that can stand as one path component: non-empty, without `/`.
pub open spec fn valid_name(n: Seq<char>) -> bool {
    n.len() > 0 && !n.contains('/')
}

/// The relative path of an entry named `name` in the directory at `prefix`
/// (the embedding root has the empty path).
pub open spec fn join(prefix: Seq<char>, name: Seq<char>) -> Seq<char> {
    if prefix.len() == 0 {
        name
    } else {
        prefix.push('/') + name
    }
}

/// Lexicographic order on characters.
pub open spec fn lex_le(a: Seq<char>, b: Seq<char>) -> bool
    decreases a.len(),
{
    if a.len() == 0 {
        true
    } else if b.len() == 0 {
        false
    } else if a[0] != b[0] {
        a[0] < b[0]
    } else {
        lex_le(a.drop_first(), b.drop_first())
    }
}

/// `p` lists each index below `n` once.
pub open spec fn is_permutation(p: Seq<usize>, n: nat) -> bool {
    &&& p.len() == n
    &&& p.no_duplicates()
    &&& forall|i: int| 0 <= i < n ==> p[i] < n
    &&& forall|m: usize| m < n ==> #[trigger] p.contains(m)
}

/// The entries of every directory in the subtree have distinct names, as
/// a filesystem guarantees.
pub open spec fn names_distinct(es: Seq<SourceEntry>) -> bool
    decreases es,
{
    &&& forall|i: int, j: int| 0 <= i < es.len() && 0 <= j < es.len() && i != j ==>
        entry_name(#[trigger] es[i]) != entry_name(#[trigger] es[j])
    &&& forall|i: int| 0 <= i < es.len() ==> match #[trigger] es[i] {
        SourceEntry::Dir(_, ch) => names_distinct(ch@),
        _ => true,
    }
}

/// Whether some entry of the subtree could not be read, or has a name that
/// is not UTF-8 or is no valid path component.
pub open spec fn has_fault(e: SourceEntry) -> bool
    decreases e,
{
    !valid_name(entry_name(e)) || match e {
        SourceEntry::File(_) => false,
        SourceEntry::Dir(_, ch) => exists|i: int|
            0 <= i < ch@.len() && has_fault(#[trigger] ch@[i]),
        _ => true,
    }
}

/// `err` reports a fault of the subtree of `e`, which stands in the directory
/// at `prefix`.
pub open spec fn reports_fault(e: SourceEntry, prefix: Seq<char>, err: BuildError) -> bool
    decreases e,
{
    (!valid_name(entry_name(e)) && match err {
        BuildError::InvalidName { parent, name } => parent@ == prefix && name@ == entry_name(e),
        _ => false,
    }) || match e {
        SourceEntry::File(_) => false,
        SourceEntry::Dir(n, ch) => exists|i: int|
            0 <= i < ch@.len() && reports_fault(#[trigger] ch@[i], join(prefix, n@), err),
        SourceEntry::Unreadable(n) => match err {
            BuildError::Unreadable(p) => p@ == join(prefix, n@),
            _ => false,
        },
        SourceEntry::NonUtf8(n) => match err {
            BuildError::NonUtf8 { parent, preview } => parent@ == prefix && preview@ == n@,
            _ => false,
        },
    }
}

/// The identifiers of `nodes`, and the base identifiers they derive from.
pub open spec fn idents_of(nodes: Seq<Node>) -> Seq<Seq<char>> {
    nodes.map_values(|n: Node| n.ident@)
}

pub open spec fn bases_of_nodes(nodes: Seq<Node>) -> Seq<Seq<char>> {
    nodes.map_values(|n: Node| base_ident(n.name@, n.kind))
}

/// The node `n` is the entry `e` of the directory at `prefix`, built: its
/// path metadata comes from the entry's name, and for a directory its
/// children are the entry's children built, in name order, with sibling
/// identifiers derived in that order.
pub open spec fn node_built(n: Node, e: SourceEntry, prefix: Seq<char>) -> bool
    decreases e,
{
    &&& valid_name(entry_name(e))
    &&& n.name@ == entry_name(e)
    &&& n.relative_path@ == join(prefix, entry_name(e))
    &&& n.stem@ == stem_of(entry_name(e))
    &&& match e {
        SourceEntry::File(_) => n.kind == EntryKind::File && n.children@.len() == 0,
        SourceEntry::Dir(_, ch) => {
            &&& n.kind == EntryKind::Dir
            &&& n.children@.len() == ch@.len()
            &&& forall|i: int, j: int| 0 <= i < j < n.children@.len() ==>
                lex_le(#[trigger] n.children@[i].name@, #[trigger] n.children@[j].name@)
            &&& idents_of(n.children@) == sibling_idents(bases_of_nodes(n.children@))
            &&& exists|p: Seq<usize>| is_permutation(p, ch@.len())
                && forall|i: int| 0 <= i < ch@.len() ==>
                    node_built(#[trigger] n.children@[i], ch@[p[i] as int], n.relative_path@)
        },
        _ => false,
    }
}

/// `nodes` are the entries `es` of the directory at `prefix`, built, in
/// name order, with sibling identifiers derived in that order.
pub open spec fn level_built(nodes: Seq<Node>, es: Seq<SourceEntry>, prefix: Seq<char>) -> bool {
    &&& nodes.len() == es.len()
    &&& forall|i: int, j: int| 0 <= i < j < nodes.len() ==>
        lex_le(#[trigger] nodes[i].name@, #[trigger] nodes[j].name@)
    &&& idents_of(nodes) == sibling_idents(bases_of_nodes(nodes))
    &&& exists|p: Seq<usize>| is_permutation(p, es.len())
        && forall|i: int| 0 <= i < es.len() ==> node_built(#[trigger] nodes[i], es[p[i] as int], prefix)
}

/// Relies on `slice::sort_by` with the lexicographic order of `Vec<char>`:
/// the indices come out rearranged, ordered by the names they select.
#[verifier::external_body]
fn sort_by_name(order: &mut Vec<usize>, names: &Vec<Vec<char>>)
    requires
        forall|i: int| 0 <= i < old(order)@.len() ==> old(order)@[i] < names@.len(),
    ensures
        final(order)@.to_multiset() == old(order)@.to_multiset(),
        forall|i: int, j: int| 0 <= i < j < final(order)@.len() ==>
            lex_le(names@[final(order)@[i] as int]@, names@[final(order)@[j] as int]@),
{
    order.sort_by(|a, b| names[*a].cmp(&names[*b]))
}

fn name_chars(e: &SourceEntry) -> (r: Vec<char>)
    ensures
        r@ == entry_name(*e),
{
    match e {
        SourceEntry::File(n) => chars_of(n.as_str()),
        SourceEntry::Dir(n, _) => chars_of(n.as_str()),
        SourceEntry::Unreadable(n) => chars_of(n.as_str()),
        SourceEntry::NonUtf8(n) => chars_of(n.as_str()),
    }
}

fn join_chars(prefix: &Vec<char>, name: &Vec<char>) -> (r: Vec<char>)
    ensures
        r@ == join(prefix@, name@),
{
    let mut r = prefix.clone();
    if prefix.len() > 0 {
        r.push('/');
    }
    push_chars(&mut r, name);
    r
}

/// The indices below `n` in name order.
fn name_order(entries: &Vec<SourceEntry>) -> (r: Vec<usize>)
    ensures
        is_permutation(r@, entries@.len()),
        forall|i: int, j: int| 0 <= i < j < r@.len() ==>
            lex_le(entry_name(entries@[r@[i] as int]), entry_name(entries@[r@[j] as int])),
{
    let mut names: Vec<Vec<char>> = Vec::new();
    let mut order: Vec<usize> = Vec::new();
    let mut i: usize = 0;
    while i < entries.len()
        invariant
            i <= entries@.len(),
            names@.len() == i,
            order@ == Seq::new(i as nat, |k: int| k as usize),
            forall|k: int| 0 <= k < i ==> (#[trigger] names@[k])@ == entry_name(entries@[k]),
        decreases entries@.len() - i,
    {
        names.push(name_chars(&entries[i]));
        order.push(i);
        i = i + 1;
        assert(order@ =~= Seq::new(i as nat, |k: int| k as usize));
    }
    let ghost before = order@;
    proof {
        assert(before.no_duplicates());
        before.lemma_multiset_has_no_duplicates();
    }
    sort_by_name(&mut order, &names);
    proof {
        to_multiset_len(before);
        to_multiset_len(order@);
        assert forall|x: usize| order@.to_multiset().contains(x) implies order@.to_multiset().count(x) == 1 by {
            assert(before.to_multiset().contains(x));
        }
        order@.lemma_multiset_has_no_duplicates_conv();
        assert forall|k: int| 0 <= k < order@.len() implies order@[k] < entries@.len() by {
            let x = order@[k];
            assert(order@.contains(x));
            assert(order@.to_multiset().count(x) > 0);
            assert(before.to_multiset().count(x) > 0);
            assert(before.contains(x));
        }
        assert forall|x: usize| x < entries@.len() implies #[trigger] order@.contains(x) by {
            assert(before[x as int] == x);
            assert(before.contains(x));
            assert(before.to_multiset().count(x) > 0);
            assert(order@.to_multiset().count(x) > 0);
        }
        assert forall|a: int, b: int| 0 <= a < b < order@.len() implies
            lex_le(entry_name(entries@[order@[a] as int]), entry_name(entries@[order@[b] as int])) by {
            assert(names@[order@[a] as int]@ == entry_name(entries@[order@[a] as int]));
            assert(names@[order@[b] as int]@ == entry_name(entries@[order@[b] as int]));
        }
    }
    order
}

/// Builds the entries of the directory at `prefix`.
pub fn build_level(entries: &Vec<SourceEntry>, prefix: &Vec<char>) -> (r: Result<Vec<Node>, BuildError>)
    ensures
        r is Err <==> exists|i: int| 0 <= i < entries@.len() && has_fault(#[trigger] entries@[i]),
        r matches Err(err) ==> exists|i: int|
            0 <= i < entries@.len() && reports_fault(#[trigger] entries@[i], prefix@, err),
        r matches Ok(nodes) ==> level_built(nodes@, entries@, prefix@),
    decreases entries@,
{
    let order = name_order(entries);
    let mut nodes: Vec<Node> = Vec::new();
    let mut used: Vec<Vec<char>> = Vec::new();
    let mut i: usize = 0;
    while i < order.len()
        invariant
            is_permutation(order@, entries@.len()),
            forall|a: int, b: int| 0 <= a < b < order@.len() ==>
                lex_le(entry_name(entries@[order@[a] as int]), entry_name(entries@[order@[b] as int])),
            i <= order@.len(),
            nodes@.len() == i,
            used@.len() == i,
            char_views(used@) == idents_of(nodes@),
            idents_of(nodes@) == sibling_idents(bases_of_nodes(nodes@)),
            forall|k: int| 0 <= k < i ==> node_built(#[trigger] nodes@[k], entries@[order@[k] as int], prefix@),
            forall|k: int| 0 <= k < i ==> !has_fault(#[trigger] entries@[order@[k] as int]),
        decreases order@.len() - i,
    {
        let j = order[i];
        let entry = &entries[j];
        let name = name_chars(entry);
        let slash = rfind_chars(&name, '/');
        proof {
            lemma_rfind_absent(name@, '/');
        }
        if name.len() == 0 || slash != 0 {
            let e = BuildError::InvalidName { parent: string_of(prefix), name: string_of(&name) };
            proof {
                assert(has_fault(entries@[j as int]));
                assert(reports_fault(entries@[j as int], prefix@, e));
            }
            return Err(e);
        }
        let rel = join_chars(prefix, &name);
        let built: Result<(EntryKind, Vec<Node>), BuildError> = match entry {
            SourceEntry::File(_) => Ok((EntryKind::File, Vec::new())),
            SourceEntry::Dir(_, ch) => {
                proof {
                    assert(decreases_to!(entries@ => entries@[j as int]));
                }
                match build_level(ch, &rel) {
                    Ok(children) => Ok((EntryKind::Dir, children)),
                    Err(e) => Err(e),
                }
            },
            SourceEntry::Unreadable(_) => Err(BuildError::Unreadable(string_of(&rel))),
            SourceEntry::NonUtf8(_) => Err(
                BuildError::NonUtf8 { parent: string_of(prefix), preview: string_of(&name) },
            ),
        };
        match built {
            Err(e) => {
                proof {
                    assert(has_fault(entries@[j as int]));
                    assert(reports_fault(entries@[j as int], prefix@, e));
                }
                return Err(e);
            },
            Ok((kind, children)) => {
                let b = base_identifier(&name, kind);
                let id = disambiguate(b, &used);
                let stem = stem_chars(&name);
                let node = Node {
                    kind,
                    relative_path: string_of(&rel),
                    name: string_of(&name),
                    stem: string_of(&stem),
                    ident: string_of(&id),
                    children,
                };
                let ghost old_nodes = nodes@;
                let ghost old_used = used@;
                let ghost idv = id@;
                assert(node.ident@ == idv);
                nodes.push(node);
                used.push(id);
                proof {
                    assert(old_used =~= used@.drop_last());
                    assert(char_views(old_used) =~= char_views(used@).drop_last());
                    assert(idents_of(old_nodes) =~= idents_of(nodes@).drop_last());
                    assert(nodes@.last().ident@ == idv);
                    assert(used@.last()@ == idv);
                    assert(idents_of(nodes@).last() == idv);
                    assert(char_views(used@).last() == idv);
                    assert(old_nodes =~= nodes@.drop_last());
                    assert(bases_of_nodes(nodes@).drop_last() =~= bases_of_nodes(old_nodes));
                    assert forall|k: int| 0 <= k < used@.len() implies char_views(used@)[k] == idents_of(nodes@)[k] by {
                        if k < used@.len() - 1 {
                            assert(char_views(used@)[k] == char_views(old_used)[k]);
                            assert(idents_of(nodes@)[k] == idents_of(old_nodes)[k]);
                        }
                    }
                    assert(char_views(used@) =~= idents_of(nodes@));
                    assert(idents_of(nodes@) =~= sibling_idents(bases_of_nodes(nodes@)));
                }
                i = i + 1;
            },
        }
    }
    proof {
        assert forall|m: int| 0 <= m < entries@.len() implies !has_fault(#[trigger] entries@[m]) by {
            assert(order@.contains(m as usize));
            let k = choose|k: int| 0 <= k < order@.len() && order@[k] == m as usize;
        }
    }
    Ok(nodes)
}

/// Builds the tree below the embedding root from its entries.
pub fn build_tree(entries: &Vec<SourceEntry>) -> (r: Result<Vec<Node>, BuildError>)
    ensures
        r is Err <==> exists|i: int| 0 <= i < entries@.len() && has_fault(#[trigger] entries@[i]),
        r matches Err(err) ==> exists|i: int|
            0 <= i < entries@.len() && reports_fault(#[trigger] entries@[i], Seq::empty(), err),
        r matches Ok(nodes) ==> level_built(nodes@, entries@, Seq::empty()),
{
    let root: Vec<char> = Vec::new();
    build_level(entries, &root)
}

/// The children of every built directory have pairwise distinct
/// identifiers, as have the entries of the embedding root.
pub proof fn lemma_built_idents_distinct(n: Node, e: SourceEntry, prefix: Seq<char>)
    requires
        node_built(n, e, prefix),
        n.kind == EntryKind::Dir,
    ensures
        idents_of(n.children@).no_duplicates(),
{
    lemma_sibling_idents_distinct(bases_of_nodes(n.children@));
}

/// The entries of the embedding root, built, have pairwise distinct
/// identifiers.
pub proof fn lemma_level_idents_distinct(nodes: Seq<Node>, es: Seq<SourceEntry>, prefix: Seq<char>)
    requires
        level_built(nodes, es, prefix),
    ensures
        idents_of(nodes).no_duplicates(),
{
    lemma_sibling_idents_distinct(bases_of_nodes(nodes));
}

proof fn lemma_join_parts(prefix: Seq<char>, name: Seq<char>)
    requires
        valid_name(name),
    ensures
        last_component(join(prefix, name)) == name,
        join(prefix, name).len() > 0,
        join(prefix, name)[0] != '/' || prefix.len() > 0 && prefix[0] == '/',
        prefix.len() > 0 ==> join(prefix, name) == prefix + seq!['/'] + name,
{
    let rel = join(prefix, name);
    if name[0] == '/' {
        assert(name.contains('/'));
    }
    if prefix.len() == 0 {
        lemma_rfind_append(Seq::empty(), name, '/');
        assert(Seq::<char>::empty() + name =~= name);
        assert(rel.subrange(0, rel.len() as int) =~= rel);
    } else {
        let head = prefix.push('/');
        assert(head + name =~= prefix + seq!['/'] + name);
        assert(rel[0] == prefix[0]);
        lemma_rfind_append(head, name, '/');
        assert(rfind(head, '/') == prefix.len());
        assert(rel.subrange(head.len() as int, rel.len() as int) =~= name);
    }
}

/// A built node's name is the final slash-delimited component of its
/// relative path, and its stem is that name without its last extension (or
/// the name itself when it has none). The name is non-empty and holds no
/// `/`, so the relative path is non-empty, does not start with `/` below a
/// root-relative parent, and extends the parent's path by `/` and the name.
pub proof fn lemma_node_path_consistent(n: Node, e: SourceEntry, prefix: Seq<char>)
    requires
        node_built(n, e, prefix),
    ensures
        last_component(n.relative_path@) == n.name@,
        n.stem@ == stem_of(n.name@),
        valid_name(n.name@),
        n.relative_path@.len() > 0,
        n.relative_path@[0] != '/' || prefix.len() > 0 && prefix[0] == '/',
        prefix.len() == 0 ==> n.relative_path@ == n.name@,
        prefix.len() > 0 ==> n.relative_path@ == prefix + seq!['/'] + n.name@,
{
    lemma_join_parts(prefix, entry_name(e));
}

} // verus!
