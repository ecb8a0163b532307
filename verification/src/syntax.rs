//! A parsed Sea file as plain values: every node of the syntax tree with its
//! kind, its text, the row it starts on, its children, the children that
//! its named fields point to, and its first named child. Nodes refer to each
//! other by index; node 0 is the root.
use vstd::prelude::*;
use crate::text::str_eq;

verus! {

pub struct SyntaxNode {
    /// The grammar's name for the node (`class_declaration`, ...).
    pub kind: String,
    /// The source text the node spans.
    pub text: String,
    /// The zero-based row the node starts on.
    pub row: usize,
    /// All children, in order.
    pub children: Vec<usize>,
    /// (field name, child) for the fields the node has.
    pub fields: Vec<(String, usize)>,
    /// The first named child, if any.
    pub first_named: Option<usize>,
}

pub struct SyntaxTree {
    pub nodes: Vec<SyntaxNode>,
}

/// The first entry of `fs` for field `name`, or `fs.len()`.
pub open spec fn field_pos(fs: Seq<(String, usize)>, name: Seq<char>) -> nat
    decreases fs.len(),
{
    if fs.len() == 0 {
        0
    } else if fs[0].0@ == name {
        0
    } else {
        1 + field_pos(fs.drop_first(), name)
    }
}

pub proof fn lemma_field_pos_is(fs: Seq<(String, usize)>, name: Seq<char>, j: nat)
    requires
        j <= fs.len(),
        forall|m: int| 0 <= m < j ==> (#[trigger] fs[m]).0@ != name,
        j == fs.len() || fs[j as int].0@ == name,
    ensures
        field_pos(fs, name) == j,
    decreases j,
{
    if j > 0 {
        let t = fs.drop_first();
        assert(fs[0].0@ != name);
        assert forall|m: int| 0 <= m < j - 1 implies (#[trigger] t[m]).0@ != name by {
            assert(t[m] == fs[m + 1]);
        }
        if j < fs.len() {
            assert(t[j - 1] == fs[j as int]);
        }
        lemma_field_pos_is(t, name, (j - 1) as nat);
    }
}

impl SyntaxTree {
    pub open spec fn node(&self, n: int) -> SyntaxNode {
        self.nodes@[n]
    }

    pub open spec fn valid_index(&self, n: int) -> bool {
        0 <= n < self.nodes@.len()
    }

    /// Every index a node holds points into the tree, and every row leaves
    /// room for a one-based line number.
    pub open spec fn wf(&self) -> bool {
        &&& self.nodes@.len() > 0
        &&& forall|n: int|
            #![trigger self.nodes@[n]]
            0 <= n < self.nodes@.len() ==> {
                &&& self.nodes@[n].row < usize::MAX
                &&& (forall|i: int|
                    0 <= i < self.nodes@[n].children@.len() ==> #[trigger] self.valid_index(
                        self.nodes@[n].children@[i] as int,
                    ))
                &&& (forall|i: int|
                    0 <= i < self.nodes@[n].fields@.len() ==> #[trigger] self.valid_index(
                        self.nodes@[n].fields@[i].1 as int,
                    ))
                &&& (self.nodes@[n].first_named matches Some(c) ==> self.valid_index(c as int))
            }
    }

    /// Every child comes after its parent, and every field and first named
    /// child of a node is one of its children: the nodes form a tree laid
    /// out from the root down.
    pub open spec fn laid_out_top_down(&self) -> bool {
        forall|n: int|
            #![trigger self.nodes@[n]]
            0 <= n < self.nodes@.len() ==> {
                &&& (forall|i: int|
                    0 <= i < self.nodes@[n].children@.len() ==> n
                        < #[trigger] self.nodes@[n].children@[i])
                &&& (forall|i: int|
                    0 <= i < self.nodes@[n].fields@.len() ==> self.nodes@[n].children@.contains(
                        #[trigger] self.nodes@[n].fields@[i].1,
                    ))
                &&& (self.nodes@[n].first_named matches Some(c)
                    ==> self.nodes@[n].children@.contains(c))
            }
    }

    pub open spec fn kind(&self, n: int) -> Seq<char> {
        self.nodes@[n].kind@
    }

    pub open spec fn text(&self, n: int) -> Seq<char> {
        self.nodes@[n].text@
    }

    /// The one-based line a node starts on.
    pub open spec fn line(&self, n: int) -> nat {
        (self.nodes@[n].row + 1) as nat
    }

    pub open spec fn children(&self, n: int) -> Seq<usize> {
        self.nodes@[n].children@
    }

    /// The child that field `name` of node `n` points to
    /// (`child_by_field_name`).
    pub open spec fn field(&self, n: int, name: Seq<char>) -> Option<int> {
        let fs = self.nodes@[n].fields@;
        let p = field_pos(fs, name);
        if p < fs.len() {
            Some(fs[p as int].1 as int)
        } else {
            None
        }
    }

    /// Whether node `n` is of kind `k`.
    pub fn is_kind(&self, n: usize, k: &str) -> (r: bool)
        requires
            self.valid_index(n as int),
        ensures
            r == (self.kind(n as int) == k@),
    {
        str_eq(self.nodes[n].kind.as_str(), k)
    }

    /// The child that field `name` of node `n` points to.
    pub fn field_child(&self, n: usize, name: &str) -> (r: Option<usize>)
        requires
            self.wf(),
            self.valid_index(n as int),
        ensures
            r == match self.field(n as int, name@) {
                Some(c) => Some(c as usize),
                None => None::<usize>,
            },
            r matches Some(c) ==> self.valid_index(c as int),
    {
        let fs = &self.nodes[n].fields;
        let mut i: usize = 0;
        while i < fs.len()
            invariant
                self.wf(),
                self.valid_index(n as int),
                fs@ == self.nodes@[n as int].fields@,
                i <= fs.len(),
                forall|m: int| 0 <= m < i ==> (#[trigger] fs@[m]).0@ != name@,
            decreases fs.len() - i,
        {
            if str_eq(fs[i].0.as_str(), name) {
                proof {
                    lemma_field_pos_is(fs@, name@, i as nat);
                    assert(self.valid_index(self.nodes@[n as int].fields@[i as int].1 as int));
                }
                return Some(fs[i].1);
            }
            i = i + 1;
        }
        proof {
            lemma_field_pos_is(fs@, name@, i as nat);
        }
        None
    }

    /// The `i`-th child of node `n`.
    pub fn child_at(&self, n: usize, i: usize) -> (r: usize)
        requires
            self.wf(),
            self.valid_index(n as int),
            i < self.children(n as int).len(),
        ensures
            r == self.children(n as int)[i as int],
            self.valid_index(r as int),
    {
        assert(self.valid_index(self.nodes@[n as int].children@[i as int] as int));
        self.nodes[n].children[i]
    }

    /// The number of children of node `n`.
    pub fn child_count(&self, n: usize) -> (r: usize)
        requires
            self.valid_index(n as int),
        ensures
            r == self.children(n as int).len(),
    {
        self.nodes[n].children.len()
    }

    /// The first named child of node `n`.
    pub fn first_named_child(&self, n: usize) -> (r: Option<usize>)
        requires
            self.wf(),
            self.valid_index(n as int),
        ensures
            r == self.nodes@[n as int].first_named,
            r matches Some(c) ==> self.valid_index(c as int),
    {
        assert(self.nodes@[n as int].first_named matches Some(c) ==> self.valid_index(c as int));
        self.nodes[n].first_named
    }

    /// The text of node `n`.
    pub fn node_text(&self, n: usize) -> (r: String)
        requires
            self.valid_index(n as int),
        ensures
            r@ == self.text(n as int),
    {
        self.nodes[n].text.clone()
    }

    /// The one-based line node `n` starts on.
    pub fn node_line(&self, n: usize) -> (r: usize)
        requires
            self.wf(),
            self.valid_index(n as int),
        ensures
            r == self.line(n as int),
    {
        assert(self.nodes@[n as int].row < usize::MAX);
        self.nodes[n].row + 1
    }
}

} // verus!
