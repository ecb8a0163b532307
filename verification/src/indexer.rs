//! Reading classes, fields and methods off the syntax tree of a Sea file,
//! and indexing whole files (imports included) into the symbol table.
use vstd::prelude::*;
use crate::bindings::{Binding, binding_views};
use crate::symbol_table::{
    ClassInfo, FieldInfo, MethodInfo, FieldView, MethodView, ClassView, SymbolTable, after_insert,
    field_view, method_view, field_views, method_views, class_view_of, names_of, opt_string_view,
};
use crate::syntax::SyntaxTree;
use crate::paths::{path_key, path_parent, path_join, parent_path, join_path};
use crate::text::{string_from_chars, chars_of, trim_chars, trim_class, CharClass, append_str};

verus! {

// ---------------------------------------------------------------------------
// Fields
// ---------------------------------------------------------------------------
/// The field a `field_declaration` node declares: its `name`, the `base` of
/// its `type`, its line, and whether it has a `visibility`. None when one of
/// `name`, `type` or its `base` is missing.
pub open spec fn spec_field_info(t: SyntaxTree, n: int) -> Option<FieldView> {
    match (t.field(n, "type"@), t.field(n, "name"@)) {
        (Some(ty), Some(nm)) => match t.field(ty, "base"@) {
            Some(b) => Some((t.text(nm), t.text(b), t.line(n), t.field(n, "visibility"@) is Some)),
            None => None,
        },
        _ => None,
    }
}

/// The field a `field_declaration` node declares.
pub fn collect_field_info(t: &SyntaxTree, n: usize) -> (r: Option<FieldInfo>)
    requires
        t.wf(),
        t.valid_index(n as int),
    ensures
        match spec_field_info(*t, n as int) {
            Some(v) => r matches Some(f) && field_view(f) == v,
            None => r is None,
        },
{
    let is_pub = t.field_child(n, "visibility").is_some();
    let type_node = match t.field_child(n, "type") {
        Some(x) => x,
        None => return None,
    };
    let base_node = match t.field_child(type_node, "base") {
        Some(x) => x,
        None => return None,
    };
    let name_node = match t.field_child(n, "name") {
        Some(x) => x,
        None => return None,
    };
    let type_text = t.node_text(base_node);
    let name = t.node_text(name_node);
    let line = t.node_line(n);
    Some(FieldInfo { name, field_type: type_text, line, is_pub })
}

// ---------------------------------------------------------------------------
// Methods
// ---------------------------------------------------------------------------
/// The node that holds a method's parts: the first child of a
/// `method_declaration`, the node itself otherwise.
pub open spec fn method_target(t: SyntaxTree, n: int) -> Option<int> {
    if t.kind(n) == "method_declaration"@ {
        if t.children(n).len() > 0 {
            Some(t.children(n)[0] as int)
        } else {
            None
        }
    } else {
        Some(n)
    }
}

/// The `base` of the first named child of `return_type`, or `void`.
pub open spec fn spec_return_type(t: SyntaxTree, mn: int) -> Seq<char> {
    match t.field(mn, "return_type"@) {
        Some(r) => match t.nodes@[r].first_named {
            Some(ty) => match t.field(ty as int, "base"@) {
                Some(b) => t.text(b),
                None => "void"@,
            },
            None => "void"@,
        },
        None => "void"@,
    }
}

/// A `sea_parameter` node as (type, name): the `base` of its `type` and its
/// `name`.
pub open spec fn spec_param(t: SyntaxTree, p: int) -> Option<Binding> {
    match (t.field(p, "type"@), t.field(p, "name"@)) {
        (Some(ty), Some(nm)) => match t.field(ty, "base"@) {
            Some(b) => Some((t.text(b), t.text(nm))),
            None => None,
        },
        _ => None,
    }
}

/// The parameters among the nodes `cs`: those of kind `sea_parameter`.
pub open spec fn spec_params_in(t: SyntaxTree, cs: Seq<usize>) -> Option<Seq<Binding>>
    decreases cs.len(),
{
    if cs.len() == 0 {
        Some(seq![])
    } else {
        match spec_params_in(t, cs.drop_last()) {
            Some(ps) => if t.kind(cs.last() as int) == "sea_parameter"@ {
                match spec_param(t, cs.last() as int) {
                    Some(p) => Some(ps.push(p)),
                    None => None,
                }
            } else {
                Some(ps)
            },
            None => None,
        }
    }
}

/// The parameters under the `parameters` field of `mn`, if it has one.
pub open spec fn spec_params(t: SyntaxTree, mn: int) -> Option<Seq<Binding>> {
    match t.field(mn, "parameters"@) {
        Some(p) => spec_params_in(t, t.children(p)),
        None => Some(seq![]),
    }
}

/// The method a `method_declaration` or `init_declaration` node declares
/// (an `init_declaration` is named `init`). None when a part that it must
/// have is missing.
pub open spec fn spec_method_info(t: SyntaxTree, n: int) -> Option<MethodView> {
    match method_target(t, n) {
        None => None,
        Some(mn) => {
            let name = if t.kind(n) == "init_declaration"@ {
                Some("init"@)
            } else {
                match t.field(mn, "name"@) {
                    Some(x) => Some(t.text(x)),
                    None => None,
                }
            };
            match (name, spec_params(t, mn)) {
                (Some(nm), Some(ps)) => Some(
                    (
                        nm,
                        ps,
                        spec_return_type(t, mn),
                        t.line(n),
                        t.field(mn, "visibility"@) is Some,
                        false,
                        false,
                    ),
                ),
                _ => None,
            }
        },
    }
}

pub proof fn lemma_params_prefix_none(t: SyntaxTree, cs: Seq<usize>, k: int)
    requires
        0 <= k <= cs.len(),
        spec_params_in(t, cs.take(k)) is None,
    ensures
        spec_params_in(t, cs) is None,
    decreases cs.len(),
{
    if k == cs.len() {
        assert(cs.take(k) == cs);
    } else {
        assert(cs.drop_last().take(k) == cs.take(k));
        lemma_params_prefix_none(t, cs.drop_last(), k);
    }
}

fn return_type_of(t: &SyntaxTree, mn: usize) -> (r: String)
    requires
        t.wf(),
        t.valid_index(mn as int),
    ensures
        r@ == spec_return_type(*t, mn as int),
{
    match t.field_child(mn, "return_type") {
        Some(return_node) => match t.first_named_child(return_node) {
            Some(type_node) => match t.field_child(type_node, "base") {
                Some(base_node) => t.node_text(base_node),
                None => string_from_chars(&chars_of("void")),
            },
            None => string_from_chars(&chars_of("void")),
        },
        None => string_from_chars(&chars_of("void")),
    }
}

fn params_of(t: &SyntaxTree, mn: usize) -> (r: Option<Vec<(String, String)>>)
    requires
        t.wf(),
        t.valid_index(mn as int),
    ensures
        match spec_params(*t, mn as int) {
            Some(ps) => r matches Some(v) && binding_views(v@) == ps,
            None => r is None,
        },
{
    let mut params: Vec<(String, String)> = Vec::new();
    let params_node = match t.field_child(mn, "parameters") {
        Some(p) => p,
        None => {
            assert(binding_views(params@) =~= Seq::<Binding>::empty());
            return Some(params);
        },
    };
    let ghost cs = t.children(params_node as int);
    let count = t.child_count(params_node);
    let mut i: usize = 0;
    assert(cs.take(0) =~= Seq::<usize>::empty());
    assert(binding_views(params@) =~= Seq::<Binding>::empty());
    while i < count
        invariant
            t.wf(),
            t.valid_index(params_node as int),
            t.field(mn as int, "parameters"@) == Some(params_node as int),
            cs == t.children(params_node as int),
            count == cs.len(),
            i <= count,
            spec_params_in(*t, cs.take(i as int)) == Some(binding_views(params@)),
        decreases count - i,
    {
        let param = t.child_at(params_node, i);
        proof {
            assert(cs.take(i + 1).drop_last() =~= cs.take(i as int));
            assert(cs.take(i + 1).last() == param);
        }
        if t.is_kind(param, "sea_parameter") {
            let fields = (
                t.field_child(param, "type"),
                t.field_child(param, "name"),
            );
            let (type_node, name_node) = match fields {
                (Some(x), Some(y)) => (x, y),
                _ => {
                    proof {
                        lemma_params_prefix_none(*t, cs, i + 1);
                    }
                    return None;
                },
            };
            let base_node = match t.field_child(type_node, "base") {
                Some(x) => x,
                None => {
                    proof {
                        lemma_params_prefix_none(*t, cs, i + 1);
                    }
                    return None;
                },
            };
            let type_text = t.node_text(base_node);
            let name_text = t.node_text(name_node);
            let ghost prev = params@;
            params.push((type_text, name_text));
            assert(binding_views(params@) =~= binding_views(prev).push(
                (type_text@, name_text@),
            ));
        }
        i = i + 1;
    }
    assert(cs.take(count as int) == cs);
    Some(params)
}

/// The method a `method_declaration` or `init_declaration` node declares.
pub fn collect_method_info(t: &SyntaxTree, n: usize) -> (r: Option<MethodInfo>)
    requires
        t.wf(),
        t.valid_index(n as int),
    ensures
        match spec_method_info(*t, n as int) {
            Some(v) => r matches Some(m) && method_view(m) == v,
            None => r is None,
        },
{
    let method_node = if t.is_kind(n, "method_declaration") {
        if t.child_count(n) == 0 {
            return None;
        }
        t.child_at(n, 0)
    } else {
        n
    };
    let is_pub = t.field_child(method_node, "visibility").is_some();
    let name = if t.is_kind(n, "init_declaration") {
        string_from_chars(&chars_of("init"))
    } else {
        match t.field_child(method_node, "name") {
            Some(name_node) => t.node_text(name_node),
            None => return None,
        }
    };
    let return_type = return_type_of(t, method_node);
    let params = match params_of(t, method_node) {
        Some(p) => p,
        None => return None,
    };
    let line = t.node_line(n);
    Some(
        MethodInfo {
            name,
            params,
            return_type,
            line,
            is_pub,
            is_constructor: false,
            is_drop: false,
        },
    )
}


// ---------------------------------------------------------------------------
// Classes
// ---------------------------------------------------------------------------
pub open spec fn as_constructor(m: MethodView) -> MethodView {
    (m.0, m.1, m.2, m.3, m.4, true, m.6)
}

/// The destructor a `drop_declaration` node declares.
pub open spec fn spec_drop_info(t: SyntaxTree, c: int) -> MethodView {
    ("drop"@, seq![], "void"@, t.line(c), t.field(c, "visibility"@) is Some, false, true)
}

/// The fields and methods among the children `cs` of a class, in order.
pub open spec fn spec_members(t: SyntaxTree, cs: Seq<usize>) -> Option<
    (Seq<FieldView>, Seq<MethodView>),
>
    decreases cs.len(),
{
    if cs.len() == 0 {
        Some((seq![], seq![]))
    } else {
        match spec_members(t, cs.drop_last()) {
            None => None,
            Some((fs, ms)) => {
                let c = cs.last() as int;
                if t.kind(c) == "field_declaration"@ {
                    match spec_field_info(t, c) {
                        Some(f) => Some((fs.push(f), ms)),
                        None => None,
                    }
                } else if t.kind(c) == "method_declaration"@ {
                    match spec_method_info(t, c) {
                        Some(m) => Some((fs, ms.push(m))),
                        None => None,
                    }
                } else if t.kind(c) == "init_declaration"@ {
                    match spec_method_info(t, c) {
                        Some(m) => Some((fs, ms.push(as_constructor(m)))),
                        None => None,
                    }
                } else if t.kind(c) == "drop_declaration"@ {
                    Some((fs, ms.push(spec_drop_info(t, c))))
                } else {
                    Some((fs, ms))
                }
            },
        }
    }
}

/// The texts of the `identifier` nodes among `cs`.
pub open spec fn spec_identifiers(t: SyntaxTree, cs: Seq<usize>) -> Seq<Seq<char>>
    decreases cs.len(),
{
    if cs.len() == 0 {
        seq![]
    } else {
        spec_identifiers(t, cs.drop_last()) + if t.kind(cs.last() as int) == "identifier"@ {
            seq![t.text(cs.last() as int)]
        } else {
            seq![]
        }
    }
}

/// The interfaces a class declares under `implements`.
pub open spec fn spec_implements(t: SyntaxTree, n: int) -> Seq<Seq<char>> {
    match t.field(n, "implements"@) {
        Some(i) => spec_identifiers(t, t.children(i)),
        None => seq![],
    }
}

/// The `parent` under a class's `inherit`.
pub open spec fn spec_parent(t: SyntaxTree, n: int) -> Option<Seq<char>> {
    match t.field(n, "inherit"@) {
        Some(i) => match t.field(i, "parent"@) {
            Some(p) => Some(t.text(p)),
            None => None,
        },
        None => None,
    }
}

/// The class a `class_declaration` node declares, as found in `file`. None
/// when its `name`, or a part that one of its members must have, is missing.
pub open spec fn spec_class_info(t: SyntaxTree, n: int, file: Seq<char>) -> Option<ClassView> {
    match t.field(n, "name"@) {
        Some(nm) => match spec_members(t, t.children(n)) {
            Some((fs, ms)) => Some(
                (t.text(nm), fs, ms, spec_parent(t, n), spec_implements(t, n), file, t.line(n)),
            ),
            None => None,
        },
        None => None,
    }
}

pub proof fn lemma_members_prefix_none(t: SyntaxTree, cs: Seq<usize>, k: int)
    requires
        0 <= k <= cs.len(),
        spec_members(t, cs.take(k)) is None,
    ensures
        spec_members(t, cs) is None,
    decreases cs.len(),
{
    if k == cs.len() {
        assert(cs.take(k) == cs);
    } else {
        assert(cs.drop_last().take(k) == cs.take(k));
        lemma_members_prefix_none(t, cs.drop_last(), k);
    }
}

fn implements_of(t: &SyntaxTree, n: usize) -> (r: Vec<String>)
    requires
        t.wf(),
        t.valid_index(n as int),
    ensures
        names_of(r@) == spec_implements(*t, n as int),
{
    let mut implements: Vec<String> = Vec::new();
    assert(names_of(implements@) =~= Seq::<Seq<char>>::empty());
    match t.field_child(n, "implements") {
        Some(implements_node) => {
            let ghost cs = t.children(implements_node as int);
            let count = t.child_count(implements_node);
            let mut i: usize = 0;
            assert(cs.take(0) =~= Seq::<usize>::empty());
            while i < count
                invariant
                    t.wf(),
                    t.valid_index(implements_node as int),
                    cs == t.children(implements_node as int),
                    count == cs.len(),
                    i <= count,
                    names_of(implements@) == spec_identifiers(*t, cs.take(i as int)),
                decreases count - i,
            {
                let child = t.child_at(implements_node, i);
                proof {
                    assert(cs.take(i + 1).drop_last() =~= cs.take(i as int));
                    assert(cs.take(i + 1).last() == child);
                }
                let ghost prev = implements@;
                if t.is_kind(child, "identifier") {
                    let txt = t.node_text(child);
                    implements.push(txt);
                    assert(names_of(implements@) =~= names_of(prev) + seq![txt@]);
                } else {
                    assert(names_of(implements@) =~= names_of(prev) + Seq::<Seq<char>>::empty());
                }
                i = i + 1;
            }
            assert(cs.take(count as int) == cs);
        },
        None => {},
    }
    implements
}

fn parent_of(t: &SyntaxTree, n: usize) -> (r: Option<String>)
    requires
        t.wf(),
        t.valid_index(n as int),
    ensures
        opt_string_view(r) == spec_parent(*t, n as int),
{
    match t.field_child(n, "inherit") {
        Some(inherit) => match t.field_child(inherit, "parent") {
            Some(p) => Some(t.node_text(p)),
            None => None,
        },
        None => None,
    }
}

/// The class a `class_declaration` node declares, recorded as found in
/// `file`.
pub fn collect_class_info(t: &SyntaxTree, n: usize, file: &String) -> (r: Option<ClassInfo>)
    requires
        t.wf(),
        t.valid_index(n as int),
    ensures
        match spec_class_info(*t, n as int, file@) {
            Some(v) => r matches Some(c) && class_view_of(c) == v,
            None => r is None,
        },
{
    let name_node = match t.field_child(n, "name") {
        Some(x) => x,
        None => return None,
    };
    let name = t.node_text(name_node);
    let line = t.node_line(n);
    let inherits = parent_of(t, n);
    let implements = implements_of(t, n);
    let mut fields: Vec<FieldInfo> = Vec::new();
    let mut methods: Vec<MethodInfo> = Vec::new();
    let ghost cs = t.children(n as int);
    let count = t.child_count(n);
    let mut i: usize = 0;
    assert(cs.take(0) =~= Seq::<usize>::empty());
    assert(field_views(fields@) =~= Seq::<FieldView>::empty());
    assert(method_views(methods@) =~= Seq::<MethodView>::empty());
    while i < count
        invariant
            t.wf(),
            t.valid_index(n as int),
            cs == t.children(n as int),
            count == cs.len(),
            i <= count,
            spec_members(*t, cs.take(i as int)) == Some(
                (field_views(fields@), method_views(methods@)),
            ),
        decreases count - i,
    {
        let child = t.child_at(n, i);
        proof {
            assert(cs.take(i + 1).drop_last() =~= cs.take(i as int));
            assert(cs.take(i + 1).last() == child);
        }
        let ghost pf = fields@;
        let ghost pm = methods@;
        if t.is_kind(child, "field_declaration") {
            match collect_field_info(t, child) {
                Some(f) => {
                    fields.push(f);
                    assert(field_views(fields@) =~= field_views(pf).push(field_view(f)));
                },
                None => {
                    proof {
                        lemma_members_prefix_none(*t, cs, i + 1);
                    }
                    return None;
                },
            }
        } else if t.is_kind(child, "method_declaration") {
            match collect_method_info(t, child) {
                Some(m) => {
                    methods.push(m);
                    assert(method_views(methods@) =~= method_views(pm).push(method_view(m)));
                },
                None => {
                    proof {
                        lemma_members_prefix_none(*t, cs, i + 1);
                    }
                    return None;
                },
            }
        } else if t.is_kind(child, "init_declaration") {
            match collect_method_info(t, child) {
                Some(m) => {
                    let mut method = m;
                    method.is_constructor = true;
                    methods.push(method);
                    assert(method_views(methods@) =~= method_views(pm).push(
                        as_constructor(method_view(m)),
                    ));
                },
                None => {
                    proof {
                        lemma_members_prefix_none(*t, cs, i + 1);
                    }
                    return None;
                },
            }
        } else if t.is_kind(child, "drop_declaration") {
            let is_pub = t.field_child(child, "visibility").is_some();
            let line = t.node_line(child);
            let method = MethodInfo {
                name: string_from_chars(&chars_of("drop")),
                params: Vec::new(),
                return_type: string_from_chars(&chars_of("void")),
                line,
                is_pub,
                is_constructor: false,
                is_drop: true,
            };
            assert(binding_views(method.params@) =~= Seq::<Binding>::empty());
            methods.push(method);
            assert(method_views(methods@) =~= method_views(pm).push(spec_drop_info(*t, child as int)));
        }
        i = i + 1;
    }
    assert(cs.take(count as int) == cs);
    let file_copy = file.clone();
    Some(
        ClassInfo {
            name,
            fields,
            methods,
            parent: inherits,
            implements,
            file: file_copy,
            line,
        },
    )
}


// ---------------------------------------------------------------------------
// Imports
// ---------------------------------------------------------------------------
/// The directory an import in `file` is resolved against: its parent, or
/// `.` when it has none.
pub open spec fn import_base(file: Seq<char>) -> Seq<char> {
    match path_parent(file) {
        Some(p) => p,
        None => "."@,
    }
}

/// The file that `import "path"` in `file` names: `path` without its
/// quotes, with `.sea` appended, joined to the importing file's directory.
pub open spec fn import_target(file: Seq<char>, path_text: Seq<char>) -> Seq<char> {
    path_join(import_base(file), trim_class(path_text, CharClass::Quote) + ".sea"@)
}

/// The file an import names.
pub fn resolve_import(file: &String, path_text: &String) -> (r: String)
    ensures
        r@ == import_target(file@, path_text@),
{
    let mut target = trim_chars(&chars_of(path_text.as_str()), CharClass::Quote);
    append_str(&mut target, ".sea");
    let target = string_from_chars(&target);
    match parent_path(file.as_str()) {
        Some(dir) => join_path(dir.as_str(), target.as_str()),
        None => join_path(".", target.as_str()),
    }
}

// ---------------------------------------------------------------------------
// Indexing files
// ---------------------------------------------------------------------------
/// A file being indexed: its tree, its path, and the next top-level node to
/// read.
pub struct IndexFrame {
    pub tree: SyntaxTree,
    pub file: String,
    pub next: usize,
}

/// Files being indexed. The last frame is the file being read; the frames
/// below it wait for the imports they led to.
pub struct Indexing {
    pub frames: Vec<IndexFrame>,
}

/// What one step of indexing asks of its caller.
pub enum IndexStep {
    /// Keep stepping.
    Continue,
    /// The file at this path is imported and not yet indexed: if it exists,
    /// parse it and hand it over with `enter_import`; keep stepping either
    /// way.
    Import(String),
    /// Every file has been read.
    Finished,
    /// A node lacks a part that the grammar gives it (a class's name, an
    /// import's path, ...).
    Malformed,
}

impl Indexing {
    pub open spec fn wf(&self) -> bool {
        forall|i: int| 0 <= i < self.frames@.len() ==> (#[trigger] self.frames@[i]).tree.wf()
    }

    pub open spec fn top(&self) -> IndexFrame {
        self.frames@.last()
    }

    /// The root's children of the file being read.
    pub open spec fn top_nodes(&self) -> Seq<usize> {
        self.top().tree.children(0)
    }
}

/// Starts indexing a parsed file.
pub fn index_file(tree: SyntaxTree, file: String) -> (r: Indexing)
    requires
        tree.wf(),
    ensures
        r.wf(),
        r.frames@.len() == 1,
        r.frames@[0].tree == tree,
        r.frames@[0].file == file,
        r.frames@[0].next == 0,
{
    let mut frames: Vec<IndexFrame> = Vec::new();
    frames.push(IndexFrame { tree, file, next: 0 });
    Indexing { frames }
}

/// Starts indexing the files of a workspace, in the order given: the first
/// file is read first.
pub fn index_workspace(files: Vec<(SyntaxTree, String)>) -> (r: Indexing)
    requires
        forall|i: int| 0 <= i < files@.len() ==> (#[trigger] files@[i]).0.wf(),
    ensures
        r.wf(),
        r.frames@.len() == files@.len(),
        forall|i: int|
            0 <= i < files@.len() ==> {
                let f = #[trigger] r.frames@[files@.len() - 1 - i];
                &&& f.tree == files@[i].0
                &&& f.file == files@[i].1
                &&& f.next == 0
            },
{
    let mut files = files;
    let ghost orig = files@;
    let mut frames: Vec<IndexFrame> = Vec::new();
    while files.len() > 0
        invariant
            forall|i: int| 0 <= i < orig.len() ==> (#[trigger] orig[i]).0.wf(),
            files@ == orig.take(files@.len() as int),
            files@.len() <= orig.len(),
            frames@.len() == orig.len() - files@.len(),
            forall|j: int|
                0 <= j < frames@.len() ==> {
                    let f = #[trigger] frames@[j];
                    &&& f.tree == orig[orig.len() - 1 - j].0
                    &&& f.file == orig[orig.len() - 1 - j].1
                    &&& f.next == 0
                },
        decreases files.len(),
    {
        let ghost n = files@.len();
        let (tree, file) = files.pop().unwrap();
        assert(files@ =~= orig.take(n - 1));
        frames.push(IndexFrame { tree, file, next: 0 });
    }
    Indexing { frames }
}

impl Indexing {
    /// Reads the next top-level node of the file being read. A class is
    /// added to the table; an import of a file the table has no entry for
    /// is handed back; a file with nothing left to read is done with.
    pub fn advance(&mut self, table: &mut SymbolTable) -> (r: IndexStep)
        requires
            old(self).wf(),
            old(table).wf(),
        ensures
            final(self).wf(),
            final(table).wf(),
            old(self).frames@.len() == 0 ==> r is Finished && final(self).frames@ == old(self).frames@
                && *final(table) == *old(table),
            old(self).frames@.len() > 0 && old(self).top().next >= old(self).top_nodes().len()
                ==> r is Continue && final(self).frames@ == old(self).frames@.drop_last()
                && *final(table) == *old(table),
            old(self).frames@.len() > 0 && old(self).top().next < old(self).top_nodes().len() ==> {
                let top = old(self).top();
                let t = top.tree;
                let c = old(self).top_nodes()[top.next as int] as int;
                &&& final(self).frames@.len() == old(self).frames@.len()
                &&& final(self).frames@.drop_last() == old(self).frames@.drop_last()
                &&& final(self).top().tree == t
                &&& final(self).top().file == top.file
                &&& final(self).top().next == top.next + 1
                &&& if t.kind(c) == "class_declaration"@ {
                    match spec_class_info(t, c, top.file@) {
                        Some(v) => r is Continue && exists|ci: ClassInfo|
                            class_view_of(ci) == v && (final(table).class_seq(), final(table).file_seq())
                                == after_insert(old(table).class_seq(), old(table).file_seq(), ci),
                        None => r is Malformed && *final(table) == *old(table),
                    }
                } else if t.kind(c) == "import_declaration"@ {
                    &&& *final(table) == *old(table)
                    &&& match t.field(c, "path"@) {
                        Some(p) => {
                            let target = import_target(top.file@, t.text(p));
                            if old(table).file_view().contains_key(path_key(target)) {
                                r is Continue
                            } else {
                                r matches IndexStep::Import(s) && s@ == target
                            }
                        },
                        None => r is Malformed,
                    }
                } else {
                    r is Continue && *final(table) == *old(table)
                }
            },
    {
        let n = self.frames.len();
        if n == 0 {
            return IndexStep::Finished;
        }
        assert(self.frames@[n - 1].tree.wf());
        let next = self.frames[n - 1].next;
        let count = self.frames[n - 1].tree.child_count(0);
        if next >= count {
            self.frames.pop();
            assert(self.wf());
            return IndexStep::Continue;
        }
        let child = self.frames[n - 1].tree.child_at(0, next);
        self.frames[n - 1].next = next + 1;
        assert(self.frames@.drop_last() =~= old(self).frames@.drop_last());
        assert(self.wf()) by {
            assert forall|i: int| 0 <= i < self.frames@.len() implies (
            #[trigger] self.frames@[i]).tree.wf() by {
                if i < n - 1 {
                    assert(self.frames@[i] == old(self).frames@[i]);
                }
            }
        }
        let frame = &self.frames[n - 1];
        if frame.tree.is_kind(child, "class_declaration") {
            match collect_class_info(&frame.tree, child, &frame.file) {
                Some(class_info) => {
                    table.insert_class(class_info);
                    IndexStep::Continue
                },
                None => IndexStep::Malformed,
            }
        } else if frame.tree.is_kind(child, "import_declaration") {
            match frame.tree.field_child(child, "path") {
                Some(path_node) => {
                    let path_text = frame.tree.node_text(path_node);
                    let target = resolve_import(&frame.file, &path_text);
                    if table.has_file(target.as_str()) {
                        IndexStep::Continue
                    } else {
                        IndexStep::Import(target)
                    }
                },
                None => IndexStep::Malformed,
            }
        } else {
            IndexStep::Continue
        }
    }

    /// Hands over the parsed tree of an imported file; it is read before the
    /// rest of the file that imported it.
    pub fn enter_import(&mut self, tree: SyntaxTree, file: String)
        requires
            old(self).wf(),
            tree.wf(),
        ensures
            final(self).wf(),
            final(self).frames@.drop_last() == old(self).frames@,
            final(self).frames@.len() == old(self).frames@.len() + 1,
            final(self).top().tree == tree,
            final(self).top().file == file,
            final(self).top().next == 0,
    {
        self.frames.push(IndexFrame { tree, file, next: 0 });
        assert(self.frames@.drop_last() =~= old(self).frames@);
    }
}

/// A method or constructor is public exactly when its declaration has a
/// `visibility` field, whatever its kind: for an `init_declaration` the
/// node itself, for a `method_declaration` its first child.
pub proof fn law_method_visibility_is_its_declarations(t: SyntaxTree, n: int)
    ensures
        t.kind(n) == "init_declaration"@ ==> (spec_method_info(t, n) matches Some(v) ==> v.4 == (t.field(
            n,
            "visibility"@,
        ) is Some)),
        t.kind(n) == "method_declaration"@ && t.children(n).len() > 0 ==> (spec_method_info(
            t,
            n,
        ) matches Some(v) ==> v.4 == (t.field(t.children(n)[0] as int, "visibility"@) is Some)),
{
    reveal_strlit("init_declaration");
    reveal_strlit("method_declaration");
    if t.kind(n) == "init_declaration"@ {
        assert("init_declaration"@[0] != "method_declaration"@[0]);
        assert(t.kind(n) != "method_declaration"@);
        assert(method_target(t, n) == Some(n));
    }
}

} // verus!
