//! Parsing Sea text with tree-sitter and copying the resulting syntax tree
//! into the plain `SyntaxTree` that the indexer reads.
use vstd::prelude::*;
use crate::syntax::{SyntaxNode, SyntaxTree};

verus! {

#[verifier::external_type_specification]
#[verifier::external_body]
pub struct ExLanguage(tree_sitter::Language);

#[verifier::external_type_specification]
#[verifier::external_body]
pub struct ExParser(tree_sitter::Parser);

#[verifier::external_type_specification]
#[verifier::external_body]
pub struct ExTree(tree_sitter::Tree);

#[verifier::external_type_specification]
#[verifier::external_body]
pub struct ExNode<'tree>(tree_sitter::Node<'tree>);

/// Whether `Parser::set_language` accepts the grammar: tree-sitter checks
/// the ABI version the grammar was generated with, a property of the
/// language alone.
pub uninterp spec fn grammar_accepted(language: tree_sitter::Language) -> bool;

/// The language assigned to the parser, if any (what `Parser::language`
/// reports).
pub uninterp spec fn parser_language(parser: tree_sitter::Parser) -> Option<tree_sitter::Language>;

/// `tree` is what `Parser::parse` built from `text` under `language`: the
/// syntax tree of exactly that text in that grammar.
pub uninterp spec fn parsed_from(
    tree: tree_sitter::Tree,
    language: tree_sitter::Language,
    text: Seq<char>,
) -> bool;

/// The root node of a tree (`Tree::root_node`).
pub uninterp spec fn tree_root(tree: &tree_sitter::Tree) -> tree_sitter::Node<'_>;

/// The grammar's name for the node's kind (`Node::kind`).
pub uninterp spec fn node_kind(node: tree_sitter::Node<'_>) -> Seq<char>;

/// The byte offset where the node starts (`Node::start_byte`).
pub uninterp spec fn node_start_byte(node: tree_sitter::Node<'_>) -> usize;

/// The byte offset where the node ends (`Node::end_byte`).
pub uninterp spec fn node_end_byte(node: tree_sitter::Node<'_>) -> usize;

/// The zero-based row where the node starts (`Node::start_position`).
pub uninterp spec fn node_start_row(node: tree_sitter::Node<'_>) -> usize;

/// The number of the node's children (`Node::child_count`).
pub uninterp spec fn node_child_count(node: tree_sitter::Node<'_>) -> usize;

/// The node's `i`-th child (`Node::child`).
pub uninterp spec fn node_child(node: tree_sitter::Node<'_>, i: usize) -> Option<tree_sitter::Node<'_>>;

/// The child that the field `name` points to (`Node::child_by_field_name`).
pub uninterp spec fn node_field_child(node: tree_sitter::Node<'_>, name: Seq<char>) -> Option<
    tree_sitter::Node<'_>,
>;

/// The node's `i`-th named child (`Node::named_child`).
pub uninterp spec fn node_named_child(node: tree_sitter::Node<'_>, i: usize) -> Option<
    tree_sitter::Node<'_>,
>;

/// The node's identity within its tree (`Node::id`), read from the node
/// value itself.
pub uninterp spec fn node_id(node: tree_sitter::Node<'_>) -> usize;

/// The number of nodes in the node's subtree, itself included
/// (`Node::descendant_count`).
pub uninterp spec fn node_descendant_count(node: tree_sitter::Node<'_>) -> usize;

/// Calls `tree_sitter::Parser::new`.
#[verifier::external_body]
fn new_parser() -> tree_sitter::Parser {
    tree_sitter::Parser::new()
}

/// Calls `tree_sitter::Parser::set_language`: true when the grammar is
/// accepted, and the parser's language is then `language`.
#[verifier::external_body]
fn set_parser_language(parser: &mut tree_sitter::Parser, language: &tree_sitter::Language) -> (r:
    bool)
    ensures
        r == grammar_accepted(*language),
        r ==> parser_language(*final(parser)) == Some(*language),
{
    parser.set_language(language).is_ok()
}

/// Calls `tree_sitter::Parser::parse` on `text`, with no earlier tree. Its
/// documentation says it gives a tree unless no language is set or a
/// timeout or cancellation flag (neither is used here) stops it, and the
/// tree it gives is that of `text` under the parser's language.
#[verifier::external_body]
fn parse_text(parser: &mut tree_sitter::Parser, text: &str) -> (r: Option<tree_sitter::Tree>)
    ensures
        parser_language(*old(parser)) is Some ==> r is Some,
        r matches Some(t) ==> parser_language(*old(parser)) matches Some(l) && parsed_from(
            t,
            l,
            text@,
        ),
{
    parser.parse(text, None)
}

/// Calls `tree_sitter::Tree::root_node`.
#[verifier::external_body]
fn root_of<'tree>(tree: &'tree tree_sitter::Tree) -> (r: tree_sitter::Node<'tree>)
    ensures
        r == tree_root(tree),
{
    tree.root_node()
}

/// Calls `tree_sitter::Node::kind`.
#[verifier::external_body]
fn kind_of(node: &tree_sitter::Node) -> (r: String)
    ensures
        r@ == node_kind(*node),
{
    node.kind().to_string()
}

/// Calls `tree_sitter::Node::start_byte`.
#[verifier::external_body]
fn start_byte_of(node: &tree_sitter::Node) -> (r: usize)
    ensures
        r == node_start_byte(*node),
{
    node.start_byte()
}

/// Calls `tree_sitter::Node::end_byte`.
#[verifier::external_body]
fn end_byte_of(node: &tree_sitter::Node) -> (r: usize)
    ensures
        r == node_end_byte(*node),
{
    node.end_byte()
}

/// Calls `tree_sitter::Node::start_position` and takes its row.
#[verifier::external_body]
fn start_row_of(node: &tree_sitter::Node) -> (r: usize)
    ensures
        r == node_start_row(*node),
{
    node.start_position().row
}

/// Calls `tree_sitter::Node::child_count`.
#[verifier::external_body]
fn child_count_of(node: &tree_sitter::Node) -> (r: usize)
    ensures
        r == node_child_count(*node),
{
    node.child_count()
}

/// Calls `tree_sitter::Node::child`.
#[verifier::external_body]
fn child_of<'tree>(node: &tree_sitter::Node<'tree>, i: usize) -> (r: Option<
    tree_sitter::Node<'tree>,
>)
    ensures
        r == node_child(*node, i),
{
    node.child(i)
}

/// Calls `tree_sitter::Node::child_by_field_name`.
#[verifier::external_body]
fn field_child_of<'tree>(node: &tree_sitter::Node<'tree>, name: &str) -> (r: Option<
    tree_sitter::Node<'tree>,
>)
    ensures
        r == node_field_child(*node, name@),
{
    node.child_by_field_name(name)
}

/// Calls `tree_sitter::Node::named_child`.
#[verifier::external_body]
fn named_child_of<'tree>(node: &tree_sitter::Node<'tree>, i: usize) -> (r: Option<
    tree_sitter::Node<'tree>,
>)
    ensures
        r == node_named_child(*node, i),
{
    node.named_child(i)
}

/// Calls `tree_sitter::Node::id` (unique among the nodes of one tree).
#[verifier::external_body]
fn id_of(node: &tree_sitter::Node) -> (r: usize)
    ensures
        r == node_id(*node),
{
    node.id()
}

/// Calls `tree_sitter::Node::descendant_count` (the node and all nodes
/// below it).
#[verifier::external_body]
fn descendant_count_of(node: &tree_sitter::Node) -> (r: usize)
    ensures
        r == node_descendant_count(*node),
{
    node.descendant_count()
}

/// The number of bytes `c` takes in UTF-8 (`char::len_utf8`).
pub open spec fn utf8_len(c: char) -> nat {
    if (c as u32) < 0x80 {
        1
    } else if (c as u32) < 0x800 {
        2
    } else if (c as u32) < 0x10000 {
        3
    } else {
        4
    }
}

/// The number of bytes `s` takes in UTF-8.
pub open spec fn utf8_size(s: Seq<char>) -> nat
    decreases s.len(),
{
    if s.len() == 0 {
        0
    } else {
        utf8_size(s.drop_last()) + utf8_len(s.last())
    }
}

/// Byte offset `b` of `s` is the boundary before its `i`-th character.
pub open spec fn char_at_byte(s: Seq<char>, b: int, i: int) -> bool {
    0 <= i <= s.len() && utf8_size(s.take(i)) == b
}

/// `start..end` is a byte range of `s` that `str::get` accepts: both ends
/// on character boundaries, the start not after the end.
pub open spec fn byte_range_valid(s: Seq<char>, start: int, end: int) -> bool {
    exists|i: int, j: int|
        i <= j && #[trigger] char_at_byte(s, start, i) && #[trigger] char_at_byte(s, end, j)
}

/// `t` is the text of `s` between bytes `start` and `end`.
pub open spec fn text_at_bytes(s: Seq<char>, start: int, end: int, t: Seq<char>) -> bool {
    exists|i: int, j: int|
        i <= j && #[trigger] char_at_byte(s, start, i) && #[trigger] char_at_byte(s, end, j) && t
            == s.subrange(i, j)
}

/// Calls `str::get` with the byte range `start..end`. std documents that it
/// gives the text between those bytes when both fall on character
/// boundaries of `s` and `start <= end`, and None otherwise.
#[verifier::external_body]
fn byte_range_text(s: &str, start: usize, end: usize) -> (r: Option<String>)
    ensures
        r is Some <==> byte_range_valid(s@, start as int, end as int),
        r matches Some(t) ==> text_at_bytes(s@, start as int, end as int, t@),
{
    s.get(start..end).map(|t| t.to_string())
}

/// The name of the `i`-th field that the indexer reads.
pub open spec fn tracked_field_name(i: int) -> Seq<char> {
    if i == 0 {
        "name"@
    } else if i == 1 {
        "path"@
    } else if i == 2 {
        "inherit"@
    } else if i == 3 {
        "parent"@
    } else if i == 4 {
        "implements"@
    } else if i == 5 {
        "visibility"@
    } else if i == 6 {
        "type"@
    } else if i == 7 {
        "base"@
    } else if i == 8 {
        "return_type"@
    } else {
        "parameters"@
    }
}

/// The fields that the indexer reads.
fn tracked_field(i: usize) -> (r: &'static str)
    requires
        i < 10,
    ensures
        r@ == tracked_field_name(i as int),
{
    match i {
        0 => "name",
        1 => "path",
        2 => "inherit",
        3 => "parent",
        4 => "implements",
        5 => "visibility",
        6 => "type",
        7 => "base",
        8 => "return_type",
        _ => "parameters",
    }
}

/// The index of the first occurrence of `id` in `ids`, or `ids.len()`.
pub open spec fn first_id_index(ids: Seq<usize>, id: usize) -> nat
    decreases ids.len(),
{
    if ids.len() == 0 {
        0
    } else if ids[0] == id {
        0
    } else {
        1 + first_id_index(ids.drop_first(), id)
    }
}

proof fn lemma_first_id_is(ids: Seq<usize>, id: usize, j: int)
    requires
        0 <= j < ids.len(),
        ids[j] == id,
        forall|m: int| 0 <= m < j ==> ids[m] != id,
    ensures
        first_id_index(ids, id) == j,
    decreases j,
{
    if j > 0 {
        let t = ids.drop_first();
        assert(ids[0] != id);
        assert forall|m: int| 0 <= m < j - 1 implies t[m] != id by {
            assert(t[m] == ids[m + 1]);
        }
        assert(t[j - 1] == ids[j]);
        lemma_first_id_is(t, id, j - 1);
    }
}

proof fn lemma_first_id_found(ids: Seq<usize>, id: usize)
    requires
        ids.contains(id),
    ensures
        first_id_index(ids, id) < ids.len(),
        ids[first_id_index(ids, id) as int] == id,
    decreases ids.len(),
{
    if ids[0] != id {
        let k = choose|k: int| 0 <= k < ids.len() && ids[k] == id;
        let t = ids.drop_first();
        assert(t[k - 1] == ids[k]);
        lemma_first_id_found(t, id);
    }
}

/// Where among the nodes `ids` (at the positions `positions`) the node
/// with id `id` stands: the position paired with the first occurrence of
/// `id`, or None when `id` is not among `ids`.
fn position_of_id(ids: &Vec<usize>, positions: &Vec<usize>, id: usize) -> (r: Option<usize>)
    requires
        ids@.len() == positions@.len(),
    ensures
        r == (if ids@.contains(id) {
            Some(positions@[first_id_index(ids@, id) as int])
        } else {
            None::<usize>
        }),
{
    let mut k: usize = 0;
    while k < ids.len()
        invariant
            ids@.len() == positions@.len(),
            k <= ids.len(),
            forall|j: int| 0 <= j < k ==> ids@[j] != id,
        decreases ids.len() - k,
    {
        if ids[k] == id {
            proof {
                lemma_first_id_is(ids@, id, k as int);
            }
            return Some(positions[k]);
        }
        k = k + 1;
    }
    None
}

/// The node reached from `x` by taking, in turn, the children that `path`
/// numbers.
pub open spec fn walk<'a>(x: tree_sitter::Node<'a>, path: Seq<usize>) -> Option<
    tree_sitter::Node<'a>,
>
    decreases path.len(),
{
    if path.len() == 0 {
        Some(x)
    } else {
        match node_child(x, path[0]) {
            Some(c) => walk(c, path.drop_first()),
            None => None,
        }
    }
}

/// The ids of the node's children, in order.
pub open spec fn child_ids_of<'a>(x: tree_sitter::Node<'a>) -> Seq<usize> {
    Seq::new(
        node_child_count(x) as nat,
        |i: int|
            match node_child(x, i as usize) {
                Some(c) => node_id(c),
                None => 0,
            },
    )
}

/// The descendant counts of the node's first `n` children, added up.
pub open spec fn children_size<'a>(x: tree_sitter::Node<'a>, n: int) -> int
    decreases n,
{
    if n <= 0 {
        0
    } else {
        children_size(x, n - 1) + match node_child(x, (n - 1) as usize) {
            Some(c) => node_descendant_count(c) as int,
            None => 0,
        }
    }
}

/// The child that the `k`-th tracked field points to, if any, is one of
/// the node's children.
pub open spec fn field_among_children<'a>(x: tree_sitter::Node<'a>, k: int) -> bool {
    match node_field_child(x, tracked_field_name(k)) {
        Some(fc) => child_ids_of(x).contains(node_id(fc)),
        None => true,
    }
}

/// What tree-sitter keeps true of a node of a tree parsed from `source`:
/// it has as many children as it reports, its descendant count is one more
/// than its children's, its fields and its first named child point to
/// children of its own, its byte range is text of `source`, and its row
/// has a one-based line number.
pub open spec fn sound_node<'a>(x: tree_sitter::Node<'a>, source: Seq<char>) -> bool {
    &&& forall|i: usize| i < node_child_count(x) ==> (#[trigger] node_child(x, i)) is Some
    &&& node_descendant_count(x) == 1 + children_size(x, node_child_count(x) as int)
    &&& forall|k: int| 0 <= k < 10 ==> #[trigger] field_among_children(x, k)
    &&& (node_named_child(x, 0) matches Some(nc) ==> child_ids_of(x).contains(node_id(nc)))
    &&& byte_range_valid(source, node_start_byte(x) as int, node_end_byte(x) as int)
    &&& node_start_row(x) < usize::MAX
}

/// Every node of the tree below `root` (and `root` itself) is sound.
pub open spec fn sound_below<'a>(root: tree_sitter::Node<'a>, source: Seq<char>) -> bool {
    forall|path: Seq<usize>|
        match #[trigger] walk(root, path) {
            Some(x) => sound_node(x, source),
            None => true,
        }
}

/// The fields as (name, position) pairs of views.
pub open spec fn field_views(fs: Seq<(String, usize)>) -> Seq<(Seq<char>, usize)> {
    fs.map_values(|e: (String, usize)| (e.0@, e.1))
}

/// The tracked fields of `x` from the `k`-th on, each with the position
/// (in `children`) of the child it points to.
pub open spec fn field_entries<'a>(x: tree_sitter::Node<'a>, children: Seq<usize>, k: int) -> Seq<
    (Seq<char>, usize),
>
    decreases 10 - k,
{
    if k >= 10 {
        Seq::empty()
    } else {
        let rest = field_entries(x, children, k + 1);
        match node_field_child(x, tracked_field_name(k)) {
            Some(fc) => seq![
                (tracked_field_name(k), children[first_id_index(child_ids_of(x), node_id(fc)) as int]),
            ] + rest,
            None => rest,
        }
    }
}

/// The position (in `children`) of the first named child of `x`.
pub open spec fn named_position<'a>(x: tree_sitter::Node<'a>, children: Seq<usize>) -> Option<
    usize,
> {
    match node_named_child(x, 0) {
        Some(nc) => Some(children[first_id_index(child_ids_of(x), node_id(nc)) as int]),
        None => None,
    }
}

/// `nd` is the copy of the tree-sitter node `x`, whose children stand at
/// positions `nd.children` of `ns`.
pub open spec fn node_copied<'a>(
    nd: SyntaxNode,
    x: tree_sitter::Node<'a>,
    ns: Seq<tree_sitter::Node<'a>>,
    source: Seq<char>,
) -> bool {
    &&& nd.kind@ == node_kind(x)
    &&& nd.row == node_start_row(x)
    &&& text_at_bytes(source, node_start_byte(x) as int, node_end_byte(x) as int, nd.text@)
    &&& nd.children@.len() == node_child_count(x)
    &&& forall|i: int|
        0 <= i < nd.children@.len() ==> (#[trigger] nd.children@[i]) < ns.len() && node_child(
            x,
            i as usize,
        ) == Some(ns[nd.children@[i] as int])
    &&& field_views(nd.fields@) == field_entries(x, nd.children@, 0)
    &&& nd.first_named == named_position(x, nd.children@)
}

/// Node `n` of `t` is the copy of `ns[n]`, and `ns` starts at `root`.
pub open spec fn copy_of<'a>(
    t: SyntaxTree,
    ns: Seq<tree_sitter::Node<'a>>,
    root: tree_sitter::Node<'a>,
    source: Seq<char>,
) -> bool {
    &&& ns.len() == t.nodes@.len()
    &&& ns.len() > 0
    &&& ns[0] == root
    &&& forall|n: int|
        0 <= n < ns.len() ==> node_copied(#[trigger] t.nodes@[n], ns[n], ns, source)
}

/// `t` is a copy of the tree-sitter tree below `root`: each of its nodes
/// is the copy of a tree-sitter node, the first of them `root`.
pub open spec fn copied_tree<'a>(t: SyntaxTree, root: tree_sitter::Node<'a>, source: Seq<char>) -> bool {
    exists|ns: Seq<tree_sitter::Node<'a>>| #[trigger] copy_of(t, ns, root, source)
}

/// The descendant counts of the nodes of `s`, added up.
pub open spec fn size_sum<'a>(s: Seq<tree_sitter::Node<'a>>) -> int
    decreases s.len(),
{
    if s.len() == 0 {
        0
    } else {
        size_sum(s.drop_last()) + node_descendant_count(s.last()) as int
    }
}

proof fn lemma_size_sum_first<'a>(s: Seq<tree_sitter::Node<'a>>)
    requires
        s.len() > 0,
    ensures
        size_sum(s) == node_descendant_count(s[0]) + size_sum(s.drop_first()),
    decreases s.len(),
{
    if s.len() > 1 {
        lemma_size_sum_first(s.drop_last());
        assert(s.drop_last().drop_first() =~= s.drop_first().drop_last());
        assert(s.drop_first().last() == s.last());
        assert(s.drop_last()[0] == s[0]);
    } else {
        assert(s.drop_first() =~= Seq::<tree_sitter::Node<'a>>::empty());
        assert(s.drop_last() =~= Seq::<tree_sitter::Node<'a>>::empty());
    }
}

proof fn lemma_size_sum_concat<'a>(a: Seq<tree_sitter::Node<'a>>, b: Seq<tree_sitter::Node<'a>>)
    ensures
        size_sum(a + b) == size_sum(a) + size_sum(b),
    decreases b.len(),
{
    if b.len() == 0 {
        assert(a + b =~= a);
    } else {
        assert((a + b).drop_last() =~= a + b.drop_last());
        lemma_size_sum_concat(a, b.drop_last());
    }
}

proof fn lemma_size_sum_at_least_len<'a>(s: Seq<tree_sitter::Node<'a>>)
    requires
        forall|k: int| 0 <= k < s.len() ==> node_descendant_count(#[trigger] s[k]) >= 1,
    ensures
        size_sum(s) >= s.len(),
    decreases s.len(),
{
    if s.len() > 0 {
        lemma_size_sum_at_least_len(s.drop_last());
    }
}

proof fn lemma_size_sum_children<'a>(x: tree_sitter::Node<'a>, s: Seq<tree_sitter::Node<'a>>, n: int)
    requires
        0 <= n <= s.len(),
        forall|i: int| 0 <= i < n ==> node_child(x, i as usize) == Some(#[trigger] s[i]),
    ensures
        size_sum(s.take(n)) == children_size(x, n),
    decreases n,
{
    if n > 0 {
        assert(s.take(n).drop_last() =~= s.take(n - 1));
        assert(node_child(x, (n - 1) as usize) == Some(s[n - 1]));
        lemma_size_sum_children(x, s, n - 1);
    }
}

proof fn lemma_children_size_at_least<'a>(x: tree_sitter::Node<'a>, n: int, least: int)
    requires
        0 <= least <= 1,
        forall|i: int|
            0 <= i < n ==> match #[trigger] node_child(x, i as usize) {
                Some(c) => node_descendant_count(c) >= least,
                None => least == 0,
            },
    ensures
        children_size(x, n) >= least * n,
    decreases n,
{
    if n > 0 {
        assert(match node_child(x, (n - 1) as usize) {
            Some(c) => node_descendant_count(c) >= least,
            None => least == 0,
        });
        lemma_children_size_at_least(x, n - 1, least);
    }
}

proof fn lemma_walk_push<'a>(x: tree_sitter::Node<'a>, path: Seq<usize>, i: usize)
    ensures
        walk(x, path.push(i)) == match walk(x, path) {
            Some(y) => node_child(y, i),
            None => None,
        },
    decreases path.len(),
{
    if path.len() == 0 {
        assert(path.push(i).drop_first() =~= Seq::<usize>::empty());
        assert(path.push(i)[0] == i);
        match node_child(x, i) {
            Some(c) => {
                assert(walk(c, Seq::<usize>::empty()) == Some(c));
            },
            None => {},
        }
    } else {
        assert(path.push(i).drop_first() =~= path.drop_first().push(i));
        assert(path.push(i)[0] == path[0]);
        match node_child(x, path[0]) {
            Some(c) => {
                lemma_walk_push(c, path.drop_first(), i);
            },
            None => {},
        }
    }
}

/// A sound node counts itself among its descendants.
proof fn lemma_sound_size<'a>(x: tree_sitter::Node<'a>, source: Seq<char>)
    requires
        sound_node(x, source),
    ensures
        node_descendant_count(x) >= 1,
{
    lemma_children_size_at_least(x, node_child_count(x) as int, 0);
}

proof fn lemma_copied_grows<'a>(
    nd: SyntaxNode,
    x: tree_sitter::Node<'a>,
    ns: Seq<tree_sitter::Node<'a>>,
    more: Seq<tree_sitter::Node<'a>>,
    source: Seq<char>,
)
    requires
        node_copied(nd, x, ns, source),
        more.len() >= ns.len(),
        more.subrange(0, ns.len() as int) == ns,
    ensures
        node_copied(nd, x, more, source),
{
    assert forall|i: int| 0 <= i < nd.children@.len() implies (#[trigger] nd.children@[i])
        < more.len() && node_child(x, i as usize) == Some(more[nd.children@[i] as int]) by {
        let c = nd.children@[i] as int;
        assert(more.subrange(0, ns.len() as int)[c] == more[c]);
    }
}

/// Reads one tree-sitter node into a `SyntaxNode`: appends its children to
/// `found` and records their positions, the positions that its tracked
/// fields and its first named child point to, its text in `source`, its
/// kind and its row. None when the node does not read as tree-sitter
/// promises, or when `found` would grow past `bound` nodes.
fn read_node<'a>(
    node: &tree_sitter::Node<'a>,
    found: &mut Vec<tree_sitter::Node<'a>>,
    bound: usize,
    source: &str,
) -> (r: Option<SyntaxNode>)
    requires
        old(found)@.len() <= bound,
    ensures
        final(found)@.len() >= old(found)@.len(),
        final(found)@.subrange(0, old(found)@.len() as int) == old(found)@,
        r matches Some(nd) ==> {
            &&& node_copied(nd, *node, final(found)@, source@)
            &&& final(found)@.len() == old(found)@.len() + node_child_count(*node)
            &&& final(found)@.len() <= bound
            &&& nd.row < usize::MAX
            &&& forall|i: int|
                0 <= i < nd.children@.len() ==> #[trigger] nd.children@[i] == old(found)@.len() + i
            &&& forall|i: int|
                0 <= i < nd.fields@.len() ==> nd.children@.contains(#[trigger] nd.fields@[i].1)
            &&& (nd.first_named matches Some(c) ==> nd.children@.contains(c))
        },
        sound_node(*node, source@) && old(found)@.len() + node_child_count(*node) <= bound
            ==> r is Some,
{
    let ghost start = found@;
    let ghost base = found@.len() as int;
    let child_count = child_count_of(node);
    let mut children: Vec<usize> = Vec::new();
    let mut child_ids: Vec<usize> = Vec::new();
    let mut i: usize = 0;
    while i < child_count
        invariant
            start == old(found)@,
            base == old(found)@.len(),
            child_count == node_child_count(*node),
            i <= child_count,
            found@.len() == base + i,
            found@.len() <= bound,
            found@.subrange(0, base) == start,
            children@.len() == i,
            child_ids@.len() == i,
            forall|j: int|
                0 <= j < i ==> {
                    &&& #[trigger] children@[j] == base + j
                    &&& node_child(*node, j as usize) == Some(found@[children@[j] as int])
                    &&& child_ids@[j] == node_id(found@[children@[j] as int])
                },
        decreases child_count - i,
    {
        match child_of(node, i) {
            Some(c) => {
                if found.len() >= bound {
                    return None;
                }
                child_ids.push(id_of(&c));
                children.push(found.len());
                found.push(c);
                assert(found@.subrange(0, base) =~= start);
                assert(children@[i as int] == base + i);
            },
            None => {
                return None;
            },
        }
        i = i + 1;
    }
    proof {
        assert forall|j: int| 0 <= j < i implies child_ids@[j] == child_ids_of(*node)[j] by {
            assert(children@[j] == base + j);
        }
        assert(child_ids@ =~= child_ids_of(*node));
    }
    let mut fields: Vec<(String, usize)> = Vec::new();
    let mut f: usize = 0;
    while f < 10
        invariant
            f <= 10,
            start == old(found)@,
            base == old(found)@.len(),
            child_count == node_child_count(*node),
            found@.len() == base + child_count,
            found@.len() <= bound,
            found@.subrange(0, base) == start,
            children@.len() == child_count,
            child_ids@ == child_ids_of(*node),
            forall|j: int|
                0 <= j < child_count ==> {
                    &&& #[trigger] children@[j] == base + j
                    &&& node_child(*node, j as usize) == Some(found@[children@[j] as int])
                },
            field_views(fields@) + field_entries(*node, children@, f as int) == field_entries(
                *node,
                children@,
                0,
            ),
            forall|k: int| 0 <= k < fields@.len() ==> children@.contains(#[trigger] fields@[k].1),
        decreases 10 - f,
    {
        let name = tracked_field(f);
        let ghost before = fields@;
        match field_child_of(node, name) {
            Some(fc) => {
                let id = id_of(&fc);
                match position_of_id(&child_ids, &children, id) {
                    Some(pos) => {
                        proof {
                            lemma_first_id_found(child_ids@, id);
                            assert(children@[first_id_index(child_ids@, id) as int] == pos);
                        }
                        fields.push((name.to_string(), pos));
                        proof {
                            assert(field_views(fields@) =~= field_views(before).push(
                                (tracked_field_name(f as int), pos),
                            ));
                            assert(field_entries(*node, children@, f as int) =~= seq![
                                (tracked_field_name(f as int), pos),
                            ] + field_entries(*node, children@, f + 1));
                            assert(field_views(fields@) + field_entries(*node, children@, f + 1)
                                =~= field_views(before) + field_entries(*node, children@, f as int));
                        }
                    },
                    None => {
                        proof {
                            assert(!field_among_children(*node, f as int));
                        }
                        return None;
                    },
                }
            },
            None => {
                assert(field_entries(*node, children@, f as int) == field_entries(
                    *node,
                    children@,
                    f + 1,
                ));
            },
        }
        f = f + 1;
    }
    proof {
        assert(field_entries(*node, children@, 10) =~= Seq::<(Seq<char>, usize)>::empty());
        assert(field_views(fields@) =~= field_entries(*node, children@, 0));
    }
    let first_named = match named_child_of(node, 0) {
        Some(nc) => {
            let id = id_of(&nc);
            match position_of_id(&child_ids, &children, id) {
                Some(pos) => {
                    proof {
                        lemma_first_id_found(child_ids@, id);
                        assert(children@[first_id_index(child_ids@, id) as int] == pos);
                    }
                    Some(pos)
                },
                None => {
                    return None;
                },
            }
        },
        None => None,
    };
    let text = match byte_range_text(source, start_byte_of(node), end_byte_of(node)) {
        Some(t) => t,
        None => {
            return None;
        },
    };
    let row = start_row_of(node);
    if row == usize::MAX {
        return None;
    }
    Some(SyntaxNode { kind: kind_of(node), text, row, children, fields, first_named })
}

/// Copies a tree-sitter tree into a `SyntaxTree`, breadth first from the
/// root: every node's kind, its text in `source`, its starting row, its
/// children, the children its tracked fields point to and its first named
/// child. None when the tree does not read as tree-sitter promises (more
/// nodes than the root reports, a missing child, a field or named child
/// that is not among the node's children, a byte range that is not text of
/// `source`, a row with no line number after it).
pub fn copy_tree(tree: &tree_sitter::Tree, source: &str) -> (r: Option<SyntaxTree>)
    ensures
        r matches Some(t) ==> t.wf() && t.laid_out_top_down() && copied_tree(
            t,
            tree_root(tree),
            source@,
        ),
        sound_below(tree_root(tree), source@) ==> r is Some,
{
    let root = root_of(tree);
    let count = descendant_count_of(&root);
    let bound = if count == 0 {
        1
    } else {
        count
    };
    let mut found: Vec<tree_sitter::Node> = Vec::new();
    found.push(root);
    let ghost mut paths: Seq<Seq<usize>> = seq![Seq::<usize>::empty()];
    proof {
        assert(walk(root, Seq::<usize>::empty()) == Some(root));
        assert(paths[0] == Seq::<usize>::empty());
        if sound_below(root, source@) {
            assert(sound_node(root, source@));
            lemma_sound_size(root, source@);
            let first = found@.subrange(0, 1);
            assert(first.drop_last() =~= Seq::<tree_sitter::Node>::empty());
            assert(size_sum(first.drop_last()) == 0);
            assert(first.last() == root);
            assert(size_sum(first) == node_descendant_count(root));
        }
    }
    let mut nodes: Vec<SyntaxNode> = Vec::new();
    let mut p: usize = 0;
    while p < found.len()
        invariant
            nodes@.len() == p,
            p <= found@.len() <= bound,
            root == tree_root(tree),
            found@.len() >= 1,
            found@[0] == root,
            paths.len() == found@.len(),
            forall|k: int| 0 <= k < found@.len() ==> walk(root, #[trigger] paths[k]) == Some(found@[k]),
            forall|n: int|
                #![trigger nodes@[n]]
                0 <= n < p ==> {
                    &&& node_copied(nodes@[n], found@[n], found@, source@)
                    &&& nodes@[n].row < usize::MAX
                    &&& (forall|i: int|
                        0 <= i < nodes@[n].children@.len() ==> n < #[trigger] nodes@[n].children@[i])
                    &&& (forall|i: int|
                        0 <= i < nodes@[n].fields@.len() ==> nodes@[n].children@.contains(
                            #[trigger] nodes@[n].fields@[i].1,
                        ))
                    &&& (nodes@[n].first_named matches Some(c) ==> nodes@[n].children@.contains(c))
                },
            sound_below(root, source@) ==> bound == node_descendant_count(root) && p + size_sum(
                found@.subrange(p as int, found@.len() as int),
            ) == node_descendant_count(root),
        decreases bound - p,
    {
        let node = found[p];
        let ghost before = found@;
        let ghost old_len = found@.len() as int;
        proof {
            assert(sound_below(root, source@) ==> sound_node(node, source@) && old_len
                + node_child_count(node) <= bound) by {
                if sound_below(root, source@) {
                    assert(walk(root, paths[p as int]) == Some(node));
                    assert(sound_node(node, source@));
                    assert forall|i: int|
                        0 <= i < node_child_count(node) implies match #[trigger] node_child(
                            node,
                            i as usize,
                        ) {
                            Some(c) => node_descendant_count(c) >= 1,
                            None => 1int == 0,
                        } by {
                        lemma_walk_push(root, paths[p as int], i as usize);
                        let c = node_child(node, i as usize)->0;
                        assert(walk(root, paths[p as int].push(i as usize)) == Some(c));
                        assert(sound_node(c, source@));
                        lemma_sound_size(c, source@);
                    }
                    lemma_children_size_at_least(node, node_child_count(node) as int, 1);
                    let rest = found@.subrange(p + 1, old_len);
                    assert forall|k: int| 0 <= k < rest.len() implies node_descendant_count(
                        #[trigger] rest[k],
                    ) >= 1 by {
                        assert(rest[k] == found@[p + 1 + k]);
                        assert(walk(root, paths[p + 1 + k]) == Some(found@[p + 1 + k]));
                        lemma_sound_size(found@[p + 1 + k], source@);
                    }
                    lemma_size_sum_at_least_len(rest);
                    lemma_size_sum_first(found@.subrange(p as int, old_len));
                    assert(found@.subrange(p as int, old_len).drop_first() =~= rest);
                }
            }
        }
        match read_node(&node, &mut found, bound, source) {
            Some(nd) => {
                proof {
                    let new_len = found@.len() as int;
                    assert forall|k: int| 0 <= k < old_len implies found@[k] == before[k] by {
                        assert(found@.subrange(0, old_len)[k] == found@[k]);
                    }
                    assert forall|n: int| 0 <= n < p implies node_copied(
                        nodes@[n],
                        found@[n],
                        found@,
                        source@,
                    ) by {
                        assert(nodes@[n] == nodes@[n]);
                        lemma_copied_grows(nodes@[n], before[n], before, found@, source@);
                    }
                    let new_paths = paths + Seq::new(
                        (new_len - old_len) as nat,
                        |j: int| paths[p as int].push(j as usize),
                    );
                    assert forall|k: int| 0 <= k < new_len implies walk(
                        root,
                        #[trigger] new_paths[k],
                    ) == Some(found@[k]) by {
                        if k < old_len {
                            assert(new_paths[k] == paths[k]);
                        } else {
                            let j = k - old_len;
                            assert(new_paths[k] == paths[p as int].push(j as usize));
                            lemma_walk_push(root, paths[p as int], j as usize);
                            assert(walk(root, paths[p as int]) == Some(before[p as int]));
                            assert(nd.children@[j] == old_len + j);
                        }
                    }
                    paths = new_paths;
                    if sound_below(root, source@) {
                        let added = found@.subrange(old_len, new_len);
                        assert(found@.subrange(p + 1, new_len) =~= before.subrange(p + 1, old_len)
                            + added);
                        lemma_size_sum_concat(before.subrange(p + 1, old_len), added);
                        assert forall|i: int|
                            0 <= i < new_len - old_len implies node_child(node, i as usize) == Some(
                                #[trigger] added[i],
                            ) by {
                            assert(nd.children@[i] == old_len + i);
                        }
                        lemma_size_sum_children(node, added, new_len - old_len);
                        assert(added.take(new_len - old_len) =~= added);
                        lemma_size_sum_first(before.subrange(p as int, old_len));
                        assert(before.subrange(p as int, old_len).drop_first() =~= before.subrange(
                            p + 1,
                            old_len,
                        ));
                    }
                }
                nodes.push(nd);
                p = p + 1;
            },
            None => {
                return None;
            },
        }
    }
    let t = SyntaxTree { nodes };
    proof {
        assert(copy_of(t, found@, root, source@));
    }
    Some(t)
}

/// Why Sea text could not be turned into a `SyntaxTree`.
#[derive(Clone, Copy, Debug, PartialEq, Eq, Structural)]
pub enum ParseFailure {
    /// The parser refused the grammar (`Parser::set_language` failed).
    GrammarRefused,
    /// The parsed tree did not read as tree-sitter promises.
    Unreadable,
}

/// `r` is what copying the tree-sitter tree `tree` of `source` gives:
/// a tree whenever `tree` is sound, and only ever a copy of `tree`.
pub open spec fn copied_from(
    r: Result<SyntaxTree, ParseFailure>,
    tree: tree_sitter::Tree,
    source: Seq<char>,
) -> bool {
    &&& sound_below(tree_root(&tree), source) ==> r is Ok
    &&& r matches Ok(t) ==> copied_tree(t, tree_root(&tree), source)
}

/// Parses Sea `source` with `language` (the Sea grammar) and copies the
/// tree: `GrammarRefused` exactly when the parser refuses the language;
/// otherwise the copy of the tree that tree-sitter parsed from `source`, or
/// `Unreadable` when that tree does not copy.
pub fn parse_sea(language: &tree_sitter::Language, source: &str) -> (r: Result<
    SyntaxTree,
    ParseFailure,
>)
    ensures
        r == Err::<SyntaxTree, ParseFailure>(ParseFailure::GrammarRefused) <==> !grammar_accepted(
            *language,
        ),
        r matches Ok(t) ==> t.wf() && t.laid_out_top_down(),
        grammar_accepted(*language) ==> exists|tree: tree_sitter::Tree|
            parsed_from(tree, *language, source@) && #[trigger] copied_from(r, tree, source@),
{
    let mut parser = new_parser();
    if !set_parser_language(&mut parser, language) {
        return Err(ParseFailure::GrammarRefused);
    }
    let tree = parse_text(&mut parser, source).unwrap();
    let r = match copy_tree(&tree, source) {
        Some(t) => Ok(t),
        None => Err(ParseFailure::Unreadable),
    };
    assert(copied_from(r, tree, source@));
    r
}

} // verus!
