//! The symbol table: every class found in the workspace, by name, and for
//! each file the names of the classes indexed from it.
use vstd::prelude::*;
use crate::paths::{path_key, normalized_path};
use crate::text::str_eq;
use crate::bindings::{Binding, binding_views};

verus! {

/// A field of a class.
pub struct FieldInfo {
    pub name: String,
    pub field_type: String,
    pub line: usize,
    pub is_pub: bool,
}

/// A method of a class: an ordinary method, the constructor (`init`) or the
/// destructor (`drop`).
pub struct MethodInfo {
    pub name: String,
    /// (type, name) of each parameter.
    pub params: Vec<(String, String)>,
    pub return_type: String,
    pub line: usize,
    pub is_pub: bool,
    pub is_constructor: bool,
    pub is_drop: bool,
}

/// A class declaration and where it stands.
pub struct ClassInfo {
    pub name: String,
    pub fields: Vec<FieldInfo>,
    pub methods: Vec<MethodInfo>,
    pub parent: Option<String>,
    pub implements: Vec<String>,
    pub file: String,
    pub line: usize,
}

impl Default for ClassInfo {
    fn default() -> (r: ClassInfo)
        ensures
            r.name@ == Seq::<char>::empty(),
            r.fields@.len() == 0,
            r.methods@.len() == 0,
            r.parent is None,
            r.implements@.len() == 0,
            r.file@ == Seq::<char>::empty(),
            r.line == 0,
    {
        ClassInfo {
            name: String::new(),
            fields: Vec::new(),
            methods: Vec::new(),
            parent: None,
            implements: Vec::new(),
            file: String::new(),
            line: 0,
        }
    }
}

/// A field as values: (name, type, line, public).
pub type FieldView = (Seq<char>, Seq<char>, nat, bool);

/// A method as values: (name, (type, name) of each parameter, return type,
/// line, public, constructor, destructor).
pub type MethodView = (Seq<char>, Seq<Binding>, Seq<char>, nat, bool, bool, bool);

pub open spec fn field_view(f: FieldInfo) -> FieldView {
    (f.name@, f.field_type@, f.line as nat, f.is_pub)
}

pub open spec fn method_view(m: MethodInfo) -> MethodView {
    (m.name@, binding_views(m.params@), m.return_type@, m.line as nat, m.is_pub, m.is_constructor, m.is_drop)
}

pub open spec fn field_views(v: Seq<FieldInfo>) -> Seq<FieldView> {
    v.map_values(|f: FieldInfo| field_view(f))
}

pub open spec fn method_views(v: Seq<MethodInfo>) -> Seq<MethodView> {
    v.map_values(|m: MethodInfo| method_view(m))
}

pub open spec fn opt_string_view(o: Option<String>) -> Option<Seq<char>> {
    match o {
        Some(s) => Some(s@),
        None => None,
    }
}

/// A class as values: (name, fields, methods, parent, implemented
/// interfaces, file, line).
pub type ClassView = (
    Seq<char>,
    Seq<FieldView>,
    Seq<MethodView>,
    Option<Seq<char>>,
    Seq<Seq<char>>,
    Seq<char>,
    nat,
);

pub open spec fn class_view_of(c: ClassInfo) -> ClassView {
    (
        c.name@,
        field_views(c.fields@),
        method_views(c.methods@),
        opt_string_view(c.parent),
        names_of(c.implements@),
        c.file@,
        c.line as nat,
    )
}

/// The symbol table. `classes` holds one class per name; `file_classes`
/// holds, per file (under its path key), the names of the classes indexed
/// from it, in order.
pub struct SymbolTable {
    pub classes: Vec<ClassInfo>,
    pub file_classes: Vec<(String, Vec<String>)>,
}

impl Default for SymbolTable {
    fn default() -> (r: SymbolTable)
        ensures
            r.wf(),
            r.classes@.len() == 0,
            r.file_classes@.len() == 0,
    {
        SymbolTable { classes: Vec::new(), file_classes: Vec::new() }
    }
}

/// A file's entry: its path key and the class names recorded for it.
pub type FileEntry = (Seq<char>, Seq<Seq<char>>);

pub open spec fn names_of(v: Seq<String>) -> Seq<Seq<char>> {
    v.map_values(|s: String| s@)
}

pub open spec fn file_views(f: Seq<(String, Vec<String>)>) -> Seq<FileEntry> {
    f.map_values(|e: (String, Vec<String>)| (e.0@, names_of(e.1@)))
}

/// The first class named `name`, or `cs.len()`.
pub open spec fn class_pos(cs: Seq<ClassInfo>, name: Seq<char>) -> nat
    decreases cs.len(),
{
    if cs.len() == 0 {
        0
    } else if cs[0].name@ == name {
        0
    } else {
        1 + class_pos(cs.drop_first(), name)
    }
}

/// The first entry for path key `key`, or `fs.len()`.
pub open spec fn file_pos(fs: Seq<FileEntry>, key: Seq<char>) -> nat
    decreases fs.len(),
{
    if fs.len() == 0 {
        0
    } else if fs[0].0 == key {
        0
    } else {
        1 + file_pos(fs.drop_first(), key)
    }
}

/// The classes by name.
pub open spec fn class_map(cs: Seq<ClassInfo>) -> Map<Seq<char>, ClassInfo> {
    Map::new(|k: Seq<char>| class_pos(cs, k) < cs.len(), |k: Seq<char>| cs[class_pos(cs, k) as int])
}

/// The class names recorded per path key.
pub open spec fn file_map(fs: Seq<FileEntry>) -> Map<Seq<char>, Seq<Seq<char>>> {
    Map::new(|k: Seq<char>| file_pos(fs, k) < fs.len(), |k: Seq<char>| fs[file_pos(fs, k) as int].1)
}

pub open spec fn class_names_distinct(cs: Seq<ClassInfo>) -> bool {
    forall|i: int, j: int|
        0 <= i < j < cs.len() ==> (#[trigger] cs[i]).name@ != (#[trigger] cs[j]).name@
}

pub open spec fn file_keys_distinct(fs: Seq<FileEntry>) -> bool {
    forall|i: int, j: int| 0 <= i < j < fs.len() ==> (#[trigger] fs[i]).0 != (#[trigger] fs[j]).0
}

/// `c` in place of the class with its name, or after the others.
pub open spec fn upsert_class(cs: Seq<ClassInfo>, c: ClassInfo) -> Seq<ClassInfo> {
    let j = class_pos(cs, c.name@);
    if j < cs.len() {
        cs.update(j as int, c)
    } else {
        cs.push(c)
    }
}

/// `name` appended to the names of the file with key `key` (a new entry at
/// the end when the file has none).
pub open spec fn record_class(fs: Seq<FileEntry>, key: Seq<char>, name: Seq<char>) -> Seq<
    FileEntry,
> {
    let j = file_pos(fs, key);
    if j < fs.len() {
        fs.update(j as int, (key, fs[j as int].1.push(name)))
    } else {
        fs.push((key, seq![name]))
    }
}

/// The classes whose names are not in `names`, in order.
pub open spec fn without_names(cs: Seq<ClassInfo>, names: Seq<Seq<char>>) -> Seq<ClassInfo>
    decreases cs.len(),
{
    if cs.len() == 0 {
        seq![]
    } else {
        without_names(cs.drop_last(), names) + if names.contains(cs.last().name@) {
            seq![]
        } else {
            seq![cs.last()]
        }
    }
}

/// The table after a class is added.
pub open spec fn after_insert(cs: Seq<ClassInfo>, fs: Seq<FileEntry>, c: ClassInfo) -> (
    Seq<ClassInfo>,
    Seq<FileEntry>,
) {
    (upsert_class(cs, c), record_class(fs, path_key(c.file@), c.name@))
}

/// The table after the classes of the file with key `key` are dropped.
pub open spec fn after_remove(cs: Seq<ClassInfo>, fs: Seq<FileEntry>, key: Seq<char>) -> (
    Seq<ClassInfo>,
    Seq<FileEntry>,
) {
    let j = file_pos(fs, key);
    if j < fs.len() {
        (without_names(cs, fs[j as int].1), fs.remove(j as int))
    } else {
        (cs, fs)
    }
}

pub proof fn lemma_class_pos(cs: Seq<ClassInfo>, name: Seq<char>)
    ensures
        class_pos(cs, name) <= cs.len(),
        forall|m: int| 0 <= m < class_pos(cs, name) ==> (#[trigger] cs[m]).name@ != name,
        class_pos(cs, name) < cs.len() ==> cs[class_pos(cs, name) as int].name@ == name,
    decreases cs.len(),
{
    if cs.len() > 0 && cs[0].name@ != name {
        lemma_class_pos(cs.drop_first(), name);
        assert forall|m: int| 0 <= m < class_pos(cs, name) implies (#[trigger] cs[m]).name@
            != name by {
            if m > 0 {
                assert(cs[m] == cs.drop_first()[m - 1]);
            }
        }
    }
}

pub proof fn lemma_class_pos_is(cs: Seq<ClassInfo>, name: Seq<char>, j: nat)
    requires
        j <= cs.len(),
        forall|m: int| 0 <= m < j ==> (#[trigger] cs[m]).name@ != name,
        j == cs.len() || cs[j as int].name@ == name,
    ensures
        class_pos(cs, name) == j,
    decreases j,
{
    if j > 0 {
        let t = cs.drop_first();
        assert(cs[0].name@ != name);
        assert forall|m: int| 0 <= m < j - 1 implies (#[trigger] t[m]).name@ != name by {
            assert(t[m] == cs[m + 1]);
        }
        if j < cs.len() {
            assert(t[j - 1] == cs[j as int]);
        }
        lemma_class_pos_is(t, name, (j - 1) as nat);
    }
}

pub proof fn lemma_file_pos(fs: Seq<FileEntry>, key: Seq<char>)
    ensures
        file_pos(fs, key) <= fs.len(),
        forall|m: int| 0 <= m < file_pos(fs, key) ==> (#[trigger] fs[m]).0 != key,
        file_pos(fs, key) < fs.len() ==> fs[file_pos(fs, key) as int].0 == key,
    decreases fs.len(),
{
    if fs.len() > 0 && fs[0].0 != key {
        lemma_file_pos(fs.drop_first(), key);
        assert forall|m: int| 0 <= m < file_pos(fs, key) implies (#[trigger] fs[m]).0 != key by {
            if m > 0 {
                assert(fs[m] == fs.drop_first()[m - 1]);
            }
        }
    }
}

pub proof fn lemma_file_pos_is(fs: Seq<FileEntry>, key: Seq<char>, j: nat)
    requires
        j <= fs.len(),
        forall|m: int| 0 <= m < j ==> (#[trigger] fs[m]).0 != key,
        j == fs.len() || fs[j as int].0 == key,
    ensures
        file_pos(fs, key) == j,
    decreases j,
{
    if j > 0 {
        let t = fs.drop_first();
        assert(fs[0].0 != key);
        assert forall|m: int| 0 <= m < j - 1 implies (#[trigger] t[m]).0 != key by {
            assert(t[m] == fs[m + 1]);
        }
        if j < fs.len() {
            assert(t[j - 1] == fs[j as int]);
        }
        lemma_file_pos_is(t, key, (j - 1) as nat);
    }
}

impl SymbolTable {
    pub open spec fn class_seq(&self) -> Seq<ClassInfo> {
        self.classes@
    }

    pub open spec fn file_seq(&self) -> Seq<FileEntry> {
        file_views(self.file_classes@)
    }

    /// Class names are distinct, and so are the files' path keys.
    pub open spec fn wf(&self) -> bool {
        &&& class_names_distinct(self.class_seq())
        &&& file_keys_distinct(self.file_seq())
    }

    /// The classes by name.
    pub open spec fn class_view(&self) -> Map<Seq<char>, ClassInfo> {
        class_map(self.class_seq())
    }

    /// The class names recorded per path key.
    pub open spec fn file_view(&self) -> Map<Seq<char>, Seq<Seq<char>>> {
        file_map(self.file_seq())
    }

    /// An empty table.
    pub fn new() -> (r: SymbolTable)
        ensures
            r.wf(),
            r.class_seq().len() == 0,
            r.file_seq().len() == 0,
    {
        SymbolTable { classes: Vec::new(), file_classes: Vec::new() }
    }

    /// Where the class named `name` stands in `classes`.
    pub fn class_index(&self, name: &str) -> (r: Option<usize>)
        ensures
            match r {
                Some(i) => i < self.class_seq().len() && i == class_pos(self.class_seq(), name@),
                None => class_pos(self.class_seq(), name@) == self.class_seq().len(),
            },
    {
        let mut i: usize = 0;
        while i < self.classes.len()
            invariant
                i <= self.classes.len(),
                forall|m: int| 0 <= m < i ==> (#[trigger] self.classes@[m]).name@ != name@,
            decreases self.classes.len() - i,
        {
            if str_eq(self.classes[i].name.as_str(), name) {
                proof {
                    lemma_class_pos_is(self.classes@, name@, i as nat);
                }
                return Some(i);
            }
            i = i + 1;
        }
        proof {
            lemma_class_pos_is(self.classes@, name@, i as nat);
        }
        None
    }

    /// The class named `name`, if the table has one.
    pub fn get_class(&self, name: &str) -> (r: Option<&ClassInfo>)
        ensures
            match r {
                Some(c) => self.class_view().contains_key(name@) && *c == self.class_view()[name@],
                None => !self.class_view().contains_key(name@),
            },
    {
        match self.class_index(name) {
            Some(i) => Some(&self.classes[i]),
            None => None,
        }
    }

    /// Where the file with path key `key` stands in `file_classes`.
    fn file_index(&self, key: &String) -> (r: Option<usize>)
        ensures
            match r {
                Some(i) => i < self.file_seq().len() && i == file_pos(self.file_seq(), key@),
                None => file_pos(self.file_seq(), key@) == self.file_seq().len(),
            },
    {
        let ghost fs = self.file_seq();
        let mut i: usize = 0;
        while i < self.file_classes.len()
            invariant
                fs == file_views(self.file_classes@),
                i <= self.file_classes.len(),
                forall|m: int| 0 <= m < i ==> (#[trigger] fs[m]).0 != key@,
            decreases self.file_classes.len() - i,
        {
            assert(fs[i as int].0 == self.file_classes@[i as int].0@);
            if self.file_classes[i].0 == *key {
                proof {
                    lemma_file_pos_is(fs, key@, i as nat);
                }
                return Some(i);
            }
            i = i + 1;
        }
        proof {
            lemma_file_pos_is(fs, key@, i as nat);
        }
        None
    }

    /// Whether classes have been recorded for the file at `path` (under its
    /// path key).
    pub fn has_file(&self, path: &str) -> (r: bool)
        ensures
            r == self.file_view().contains_key(path_key(path@)),
    {
        let key = normalized_path(path);
        self.file_index(&key).is_some()
    }

    /// Adds a class: it replaces any class of the same name, and its name is
    /// recorded, after those already there, for its file.
    pub fn insert_class(&mut self, class_info: ClassInfo)
        requires
            old(self).wf(),
        ensures
            final(self).wf(),
            (final(self).class_seq(), final(self).file_seq()) == after_insert(
                old(self).class_seq(),
                old(self).file_seq(),
                class_info,
            ),
    {
        let ghost c = class_info;
        let ghost fs = self.file_seq();
        let ghost cs = self.class_seq();
        let key = normalized_path(class_info.file.as_str());
        let name = class_info.name.clone();
        match self.file_index(&key) {
            Some(j) => {
                proof {
                    lemma_file_pos(fs, key@);
                }
                let ghost before = self.file_classes@;
                let ghost old_names = self.file_classes@[j as int].1@;
                let mut names: Vec<String> = Vec::new();
                std::mem::swap(&mut names, &mut self.file_classes[j].1);
                assert(names@ == old_names);
                names.push(name);
                self.file_classes[j].1 = names;
                proof {
                    assert(self.file_classes@.len() == before.len());
                    assert forall|m: int| 0 <= m < fs.len() implies #[trigger] file_views(
                        self.file_classes@,
                    )[m] == fs.update(j as int, (key@, fs[j as int].1.push(c.name@)))[m] by {
                        if m == j {
                            assert(self.file_classes@[m].0 == before[m].0);
                            assert(self.file_classes@[m].1@ == old_names.push(name));
                            assert(names_of(old_names.push(name)) =~= names_of(old_names).push(
                                c.name@,
                            ));
                        } else {
                            assert(self.file_classes@[m] == before[m]);
                        }
                    }
                    assert(file_views(self.file_classes@) =~= fs.update(
                        j as int,
                        (key@, fs[j as int].1.push(c.name@)),
                    ));
                }
            },
            None => {
                let mut names: Vec<String> = Vec::new();
                names.push(name);
                self.file_classes.push((key, names));
                proof {
                    assert(names_of(names@) =~= seq![c.name@]);
                    assert(file_views(self.file_classes@) =~= fs.push((key@, seq![c.name@])));
                }
            },
        }
        proof {
            lemma_file_pos(fs, key@);
            let nf = self.file_seq();
            assert forall|i: int, j: int| 0 <= i < j < nf.len() implies (#[trigger] nf[i]).0 != (
            #[trigger] nf[j]).0 by {
                if file_pos(fs, key@) < fs.len() {
                    assert(nf[i].0 == fs[i].0);
                    assert(nf[j].0 == fs[j].0);
                } else if j == fs.len() {
                    assert(nf[i] == fs[i]);
                } else {
                    assert(nf[i] == fs[i]);
                    assert(nf[j] == fs[j]);
                }
            }
        }
        match self.class_index(class_info.name.as_str()) {
            Some(i) => {
                self.classes.set(i, class_info);
            },
            None => {
                self.classes.push(class_info);
            },
        }
        proof {
            lemma_class_pos(cs, c.name@);
            let nc = self.class_seq();
            assert forall|i: int, j: int| 0 <= i < j < nc.len() implies (#[trigger] nc[i]).name@
                != (#[trigger] nc[j]).name@ by {
                if class_pos(cs, c.name@) < cs.len() {
                    assert(nc[i].name@ == cs[i].name@);
                    assert(nc[j].name@ == cs[j].name@);
                } else if j == cs.len() {
                    assert(nc[i] == cs[i]);
                } else {
                    assert(nc[i] == cs[i]);
                    assert(nc[j] == cs[j]);
                }
            }
        }
    }
}


/// Whether `n` is among the strings of `names`.
pub fn contains_name(names: &Vec<String>, n: &String) -> (r: bool)
    ensures
        r == names_of(names@).contains(n@),
{
    let mut i: usize = 0;
    while i < names.len()
        invariant
            i <= names.len(),
            forall|m: int| 0 <= m < i ==> names@[m]@ != n@,
        decreases names.len() - i,
    {
        if names[i] == *n {
            assert(names_of(names@)[i as int] == n@);
            return true;
        }
        i = i + 1;
    }
    assert forall|m: int| 0 <= m < names_of(names@).len() implies names_of(names@)[m] != n@ by {
        assert(names_of(names@)[m] == names@[m]@);
    }
    false
}

impl SymbolTable {
    /// Drops the file at `file` (under its path key) and every class whose
    /// name was recorded for it. Nothing changes when no classes were
    /// recorded for the file.
    pub fn remove_file(&mut self, file: &str)
        requires
            old(self).wf(),
        ensures
            final(self).wf(),
            (final(self).class_seq(), final(self).file_seq()) == after_remove(
                old(self).class_seq(),
                old(self).file_seq(),
                path_key(file@),
            ),
    {
        let key = normalized_path(file);
        let ghost fs = self.file_seq();
        let ghost orig = self.class_seq();
        match self.file_index(&key) {
            Some(j) => {
                let ghost before = self.file_classes@;
                let entry = self.file_classes.remove(j);
                let names = entry.1;
                let ghost nm = names_of(names@);
                proof {
                    assert(nm == fs[j as int].1);
                    assert(file_views(self.file_classes@) =~= fs.remove(j as int));
                    lemma_remove_keeps_distinct(fs, j as int);
                }
                let mut i: usize = 0;
                let ghost mut k: int = 0;
                assert(orig.take(0) =~= Seq::<ClassInfo>::empty());
                assert(orig.skip(0) == orig);
                while i < self.classes.len()
                    invariant
                        0 <= k <= orig.len(),
                        nm == names_of(names@),
                        class_names_distinct(orig),
                        self.classes@ == without_names(orig.take(k), nm) + orig.skip(k),
                        i == without_names(orig.take(k), nm).len(),
                        file_keys_distinct(file_views(self.file_classes@)),
                        file_views(self.file_classes@) == fs.remove(j as int),
                    decreases self.classes.len() - i,
                {
                    proof {
                        assert(orig.take(k + 1).drop_last() =~= orig.take(k));
                        assert(orig.take(k + 1).last() == orig[k]);
                        assert(self.classes@[i as int] == orig[k]);
                        assert(orig.skip(k) =~= seq![orig[k]] + orig.skip(k + 1));
                    }
                    if contains_name(&names, &self.classes[i].name) {
                        let ghost prev = self.classes@;
                        self.classes.remove(i);
                        proof {
                            assert(without_names(orig.take(k + 1), nm) =~= without_names(
                                orig.take(k),
                                nm,
                            ));
                            assert(self.classes@ =~= without_names(orig.take(k + 1), nm)
                                + orig.skip(k + 1));
                        }
                    } else {
                        proof {
                            assert(without_names(orig.take(k + 1), nm) =~= without_names(
                                orig.take(k),
                                nm,
                            ).push(orig[k]));
                            assert(self.classes@ =~= without_names(orig.take(k + 1), nm)
                                + orig.skip(k + 1));
                        }
                        i = i + 1;
                    }
                    proof {
                        k = k + 1;
                    }
                }
                proof {
                    if k < orig.len() {
                        assert(self.classes@.len() > i);
                    }
                    assert(orig.take(k) == orig);
                    assert(orig.skip(k) =~= Seq::<ClassInfo>::empty());
                    assert(self.classes@ =~= without_names(orig, nm));
                    lemma_without_names_map(orig, nm);
                }
            },
            None => {},
        }
    }
}

// ---------------------------------------------------------------------------
// Positions in tables with distinct keys
// ---------------------------------------------------------------------------
pub proof fn lemma_class_pos_distinct(cs: Seq<ClassInfo>, i: int)
    requires
        class_names_distinct(cs),
        0 <= i < cs.len(),
    ensures
        class_pos(cs, cs[i].name@) == i,
{
    lemma_class_pos_is(cs, cs[i].name@, i as nat);
}

pub proof fn lemma_class_pos_absent(cs: Seq<ClassInfo>, k: Seq<char>)
    requires
        forall|i: int| 0 <= i < cs.len() ==> (#[trigger] cs[i]).name@ != k,
    ensures
        class_pos(cs, k) == cs.len(),
{
    lemma_class_pos_is(cs, k, cs.len());
}

pub proof fn lemma_file_pos_absent(fs: Seq<FileEntry>, k: Seq<char>)
    requires
        forall|i: int| 0 <= i < fs.len() ==> (#[trigger] fs[i]).0 != k,
    ensures
        file_pos(fs, k) == fs.len(),
{
    lemma_file_pos_is(fs, k, fs.len());
}

pub proof fn lemma_remove_keeps_distinct(fs: Seq<FileEntry>, j: int)
    requires
        file_keys_distinct(fs),
        0 <= j < fs.len(),
    ensures
        file_keys_distinct(fs.remove(j)),
        forall|i: int| 0 <= i < fs.remove(j).len() ==> (#[trigger] fs.remove(j)[i]).0 != fs[j].0,
{
    let r = fs.remove(j);
    assert forall|a: int, b: int| 0 <= a < b < r.len() implies (#[trigger] r[a]).0 != (
    #[trigger] r[b]).0 by {
        let a2 = if a < j {
            a
        } else {
            a + 1
        };
        let b2 = if b < j {
            b
        } else {
            b + 1
        };
        assert(r[a] == fs[a2]);
        assert(r[b] == fs[b2]);
    }
    assert forall|i: int| 0 <= i < r.len() implies (#[trigger] r[i]).0 != fs[j].0 by {
        let i2 = if i < j {
            i
        } else {
            i + 1
        };
        assert(r[i] == fs[i2]);
    }
}

pub proof fn lemma_class_map_push(d: Seq<ClassInfo>, x: ClassInfo)
    requires
        forall|i: int| 0 <= i < d.len() ==> (#[trigger] d[i]).name@ != x.name@,
    ensures
        class_map(d.push(x)) == class_map(d).insert(x.name@, x),
        !class_map(d).contains_key(x.name@),
{
    let e = d.push(x);
    lemma_class_pos_absent(d, x.name@);
    assert forall|k: Seq<char>| #[trigger] class_map(e).contains_key(k) == class_map(d).insert(
        x.name@,
        x,
    ).contains_key(k) && (class_map(e).contains_key(k) ==> class_map(e)[k] == class_map(d).insert(
        x.name@,
        x,
    )[k]) by {
        lemma_class_pos(d, k);
        if k == x.name@ {
            lemma_class_pos_is(e, k, d.len());
        } else {
            let p = class_pos(d, k) as int;
            if p < d.len() {
                assert forall|m: int| 0 <= m < p implies (#[trigger] e[m]).name@ != k by {
                    assert(e[m] == d[m]);
                }
                lemma_class_pos_is(e, k, p as nat);
            } else {
                assert forall|m: int| 0 <= m < e.len() implies (#[trigger] e[m]).name@ != k by {
                    if m < d.len() {
                        assert(e[m] == d[m]);
                    }
                }
                lemma_class_pos_is(e, k, e.len());
            }
        }
    }
    assert(class_map(e) =~= class_map(d).insert(x.name@, x));
}

/// Dropping the classes named in `names` keeps names distinct and drops
/// exactly those names from the map.
pub proof fn lemma_without_names_map(cs: Seq<ClassInfo>, names: Seq<Seq<char>>)
    requires
        class_names_distinct(cs),
    ensures
        class_names_distinct(without_names(cs, names)),
        class_map(without_names(cs, names)) == class_map(cs).remove_keys(names.to_set()),
    decreases cs.len(),
{
    if cs.len() == 0 {
        assert(class_map(cs) =~= Map::<Seq<char>, ClassInfo>::empty());
        assert(class_map(without_names(cs, names)) =~= Map::<Seq<char>, ClassInfo>::empty());
        assert(class_map(cs).remove_keys(names.to_set()) =~= Map::<Seq<char>, ClassInfo>::empty());
    } else {
        let d = cs.drop_last();
        let x = cs.last();
        assert(cs == d.push(x));
        assert(class_names_distinct(d));
        assert forall|i: int| 0 <= i < d.len() implies (#[trigger] d[i]).name@ != x.name@ by {
            assert(cs[i] == d[i]);
            assert(cs[cs.len() - 1] == x);
        }
        lemma_class_map_push(d, x);
        lemma_without_names_map(d, names);
        let w = without_names(d, names);
        lemma_class_pos(w, x.name@);
        if names.contains(x.name@) {
            assert(without_names(cs, names) =~= w);
            assert(class_map(cs).remove_keys(names.to_set()) =~= class_map(d).remove_keys(
                names.to_set(),
            ));
        } else {
            assert(without_names(cs, names) =~= w.push(x));
            assert(!class_map(w).contains_key(x.name@));
            assert forall|i: int| 0 <= i < w.len() implies (#[trigger] w[i]).name@ != x.name@ by {
                if w[i].name@ == x.name@ {
                    lemma_class_pos_distinct(w, i);
                }
            }
            lemma_class_map_push(w, x);
            let r = w.push(x);
            assert forall|a: int, b: int| 0 <= a < b < r.len() implies (#[trigger] r[a]).name@ != (
            #[trigger] r[b]).name@ by {
                if b == w.len() {
                    assert(r[a] == w[a]);
                } else {
                    assert(r[a] == w[a]);
                    assert(r[b] == w[b]);
                }
            }
            assert(class_map(cs).remove_keys(names.to_set()) =~= class_map(d).remove_keys(
                names.to_set(),
            ).insert(x.name@, x));
        }
    }
}

pub proof fn lemma_without_absent(cs: Seq<ClassInfo>, names: Seq<Seq<char>>)
    requires
        forall|i: int| 0 <= i < cs.len() ==> !names.contains((#[trigger] cs[i]).name@),
    ensures
        without_names(cs, names) == cs,
    decreases cs.len(),
{
    if cs.len() > 0 {
        let d = cs.drop_last();
        assert forall|i: int| 0 <= i < d.len() implies !names.contains((#[trigger] d[i]).name@) by {
            assert(d[i] == cs[i]);
        }
        lemma_without_absent(d, names);
        assert(!names.contains(cs[cs.len() - 1].name@));
        assert(without_names(cs, names) =~= d.push(cs.last()));
    }
}

// ---------------------------------------------------------------------------
// Laws of the table
// ---------------------------------------------------------------------------
/// Adding a class makes it the class of its name, leaves every other name's
/// class as it was, and records its name last for its file.
pub proof fn law_insert_then_lookup(cs: Seq<ClassInfo>, fs: Seq<FileEntry>, c: ClassInfo)
    requires
        class_names_distinct(cs),
        file_keys_distinct(fs),
    ensures
        class_map(after_insert(cs, fs, c).0) == class_map(cs).insert(c.name@, c),
        file_map(after_insert(cs, fs, c).1) == file_map(fs).insert(
            path_key(c.file@),
            if file_map(fs).contains_key(path_key(c.file@)) {
                file_map(fs)[path_key(c.file@)].push(c.name@)
            } else {
                seq![c.name@]
            },
        ),
{
    let key = path_key(c.file@);
    let cs2 = after_insert(cs, fs, c).0;
    let fs2 = after_insert(cs, fs, c).1;
    lemma_class_pos(cs, c.name@);
    let j = class_pos(cs, c.name@);
    if j < cs.len() {
        assert forall|k: Seq<char>| #[trigger] class_map(cs2).contains_key(k) == class_map(
            cs,
        ).insert(c.name@, c).contains_key(k) && (class_map(cs2).contains_key(k) ==> class_map(
            cs2,
        )[k] == class_map(cs).insert(c.name@, c)[k]) by {
            lemma_class_pos(cs, k);
            let p = class_pos(cs, k) as int;
            assert forall|m: int| 0 <= m < cs.len() implies (#[trigger] cs2[m]).name@
                == cs[m].name@ by {}
            assert forall|m: int| 0 <= m < p implies (#[trigger] cs2[m]).name@ != k by {
                assert(cs2[m].name@ == cs[m].name@);
            }
            if p < cs.len() {
                assert(cs2[p].name@ == cs[p].name@);
            }
            lemma_class_pos_is(cs2, k, p as nat);
        }
        assert(class_map(cs2) =~= class_map(cs).insert(c.name@, c));
    } else {
        lemma_class_pos_absent(cs, c.name@);
        assert forall|i: int| 0 <= i < cs.len() implies (#[trigger] cs[i]).name@ != c.name@ by {}
        lemma_class_map_push(cs, c);
    }
    lemma_file_pos(fs, key);
    let jf = file_pos(fs, key);
    let nv = if file_map(fs).contains_key(key) {
        file_map(fs)[key].push(c.name@)
    } else {
        seq![c.name@]
    };
    assert forall|k: Seq<char>| #[trigger] file_map(fs2).contains_key(k) == file_map(fs).insert(
        key,
        nv,
    ).contains_key(k) && (file_map(fs2).contains_key(k) ==> file_map(fs2)[k] == file_map(
        fs,
    ).insert(key, nv)[k]) by {
        lemma_file_pos(fs, k);
        let p = file_pos(fs, k) as int;
        if jf < fs.len() {
            assert forall|m: int| 0 <= m < p implies (#[trigger] fs2[m]).0 != k by {
                assert(fs2[m].0 == fs[m].0);
            }
            if p < fs.len() {
                assert(fs2[p].0 == fs[p].0);
            }
            lemma_file_pos_is(fs2, k, p as nat);
        } else {
            if k == key {
                assert forall|m: int| 0 <= m < fs.len() implies (#[trigger] fs2[m]).0 != k by {
                    assert(fs2[m] == fs[m]);
                }
                lemma_file_pos_is(fs2, k, fs.len());
            } else if p < fs.len() {
                assert forall|m: int| 0 <= m < p implies (#[trigger] fs2[m]).0 != k by {
                    assert(fs2[m] == fs[m]);
                }
                assert(fs2[p] == fs[p]);
                lemma_file_pos_is(fs2, k, p as nat);
            } else {
                assert forall|m: int| 0 <= m < fs2.len() implies (#[trigger] fs2[m]).0 != k by {
                    if m < fs.len() {
                        assert(fs2[m] == fs[m]);
                    }
                }
                lemma_file_pos_is(fs2, k, fs2.len());
            }
        }
    }
    assert(file_map(fs2) =~= file_map(fs).insert(key, nv));
}

/// Dropping a file drops its entry and exactly the classes whose names were
/// recorded for it; dropping a file with no entry changes nothing.
pub proof fn law_remove_then_lookup(cs: Seq<ClassInfo>, fs: Seq<FileEntry>, key: Seq<char>)
    requires
        class_names_distinct(cs),
        file_keys_distinct(fs),
    ensures
        file_map(after_remove(cs, fs, key).1) == file_map(fs).remove(key),
        class_map(after_remove(cs, fs, key).0) == if file_map(fs).contains_key(key) {
            class_map(cs).remove_keys(file_map(fs)[key].to_set())
        } else {
            class_map(cs)
        },
{
    lemma_file_pos(fs, key);
    let j = file_pos(fs, key);
    if j < fs.len() {
        lemma_without_names_map(cs, fs[j as int].1);
        let r = fs.remove(j as int);
        lemma_remove_keeps_distinct(fs, j as int);
        assert forall|k: Seq<char>| #[trigger] file_map(r).contains_key(k) == file_map(fs).remove(
            key,
        ).contains_key(k) && (file_map(r).contains_key(k) ==> file_map(r)[k] == file_map(fs).remove(
            key,
        )[k]) by {
            lemma_file_pos(fs, k);
            let p = file_pos(fs, k) as int;
            if k == key {
                lemma_file_pos_absent(r, k);
            } else if p < fs.len() {
                assert(p != j);
                let p2 = if p < j {
                    p as int
                } else {
                    p - 1
                };
                assert(r[p2] == fs[p]);
                assert forall|m: int| 0 <= m < p2 implies (#[trigger] r[m]).0 != k by {
                    let m2 = if m < j {
                        m
                    } else {
                        m + 1
                    };
                    assert(r[m] == fs[m2]);
                }
                lemma_file_pos_is(r, k, p2 as nat);
            } else {
                assert forall|m: int| 0 <= m < r.len() implies (#[trigger] r[m]).0 != k by {
                    let m2 = if m < j {
                        m
                    } else {
                        m + 1
                    };
                    assert(r[m] == fs[m2]);
                }
                lemma_file_pos_absent(r, k);
            }
        }
        assert(file_map(r) =~= file_map(fs).remove(key));
    } else {
        assert(file_map(fs) =~= file_map(fs).remove(key));
    }
}

/// Adding a class for a file that has no entry, under a name that no class
/// has, and then dropping that file, leaves the table as it was.
pub proof fn law_remove_undoes_insert(cs: Seq<ClassInfo>, fs: Seq<FileEntry>, c: ClassInfo)
    requires
        class_names_distinct(cs),
        file_keys_distinct(fs),
        !class_map(cs).contains_key(c.name@),
        !file_map(fs).contains_key(path_key(c.file@)),
    ensures
        after_remove(after_insert(cs, fs, c).0, after_insert(cs, fs, c).1, path_key(c.file@)) == (
            cs,
            fs,
        ),
{
    let key = path_key(c.file@);
    lemma_class_pos(cs, c.name@);
    lemma_file_pos(fs, key);
    let cs2 = cs.push(c);
    let fs2 = fs.push((key, seq![c.name@]));
    assert(after_insert(cs, fs, c) == (cs2, fs2));
    assert forall|m: int| 0 <= m < fs.len() implies (#[trigger] fs2[m]).0 != key by {
        assert(fs2[m] == fs[m]);
    }
    lemma_file_pos_is(fs2, key, fs.len());
    assert(fs2.remove(fs.len() as int) =~= fs);
    let names: Seq<Seq<char>> = seq![c.name@];
    assert forall|i: int| 0 <= i < cs.len() implies !names.contains((#[trigger] cs[i]).name@) by {
        if names.contains(cs[i].name@) {
            assert(names[0] == c.name@);
            assert(cs[i].name@ == c.name@);
        }
    }
    lemma_without_absent(cs, names);
    assert(names.contains(c.name@)) by {
        assert(names[0] == c.name@);
    }
    assert(cs2.drop_last() =~= cs);
    assert(without_names(cs2, names) =~= without_names(cs, names));
}

/// Dropping a file twice is dropping it once.
pub proof fn law_remove_idempotent(cs: Seq<ClassInfo>, fs: Seq<FileEntry>, key: Seq<char>)
    requires
        file_keys_distinct(fs),
    ensures
        after_remove(after_remove(cs, fs, key).0, after_remove(cs, fs, key).1, key) == after_remove(
            cs,
            fs,
            key,
        ),
{
    lemma_file_pos(fs, key);
    let j = file_pos(fs, key);
    if j < fs.len() {
        lemma_remove_keeps_distinct(fs, j as int);
        lemma_file_pos_absent(fs.remove(j as int), key);
    }
}

/// Every class of the table is filed under its own name, and the file it
/// came from lists its name.
pub open spec fn index_consistent(cs: Seq<ClassInfo>, fs: Seq<FileEntry>) -> bool {
    forall|n: Seq<char>|
        #[trigger] class_map(cs).contains_key(n) ==> {
            let key = path_key(class_map(cs)[n].file@);
            &&& class_map(cs)[n].name@ == n
            &&& file_map(fs).contains_key(key)
            &&& file_map(fs)[key].contains(n)
        }
}

/// The second table keeps every class name and every file of the first,
/// and each file's list of names only grows at its end.
pub open spec fn index_grows(
    cs: Seq<ClassInfo>,
    fs: Seq<FileEntry>,
    cs2: Seq<ClassInfo>,
    fs2: Seq<FileEntry>,
) -> bool {
    &&& forall|n: Seq<char>|
        #[trigger] class_map(cs).contains_key(n) ==> class_map(cs2).contains_key(n)
    &&& forall|k: Seq<char>|
        #[trigger] file_map(fs).contains_key(k) ==> file_map(fs2).contains_key(k)
            && file_map(fs)[k].is_prefix_of(file_map(fs2)[k])
}

/// Adding a class keeps class names and file keys distinct.
pub proof fn lemma_insert_keeps_distinct(cs: Seq<ClassInfo>, fs: Seq<FileEntry>, c: ClassInfo)
    requires
        class_names_distinct(cs),
        file_keys_distinct(fs),
    ensures
        class_names_distinct(after_insert(cs, fs, c).0),
        file_keys_distinct(after_insert(cs, fs, c).1),
{
    let key = path_key(c.file@);
    lemma_class_pos(cs, c.name@);
    lemma_file_pos(fs, key);
    let cs2 = after_insert(cs, fs, c).0;
    let fs2 = after_insert(cs, fs, c).1;
    let j = class_pos(cs, c.name@);
    if j == cs.len() {
        assert forall|a: int, b: int| 0 <= a < b < cs2.len() implies (#[trigger] cs2[a]).name@
            != (#[trigger] cs2[b]).name@ by {
            if b == cs.len() {
                assert(cs[a].name@ != c.name@);
            } else {
                assert(cs[a] == cs2[a] && cs[b] == cs2[b]);
            }
        }
    } else {
        assert forall|a: int, b: int| 0 <= a < b < cs2.len() implies (#[trigger] cs2[a]).name@
            != (#[trigger] cs2[b]).name@ by {
            assert(cs2[a].name@ == cs[a].name@);
            assert(cs2[b].name@ == cs[b].name@);
        }
    }
    let f = file_pos(fs, key);
    if f == fs.len() {
        assert forall|a: int, b: int| 0 <= a < b < fs2.len() implies (#[trigger] fs2[a]).0 != (
        #[trigger] fs2[b]).0 by {
            if b == fs.len() {
                assert(fs[a].0 != key);
            } else {
                assert(fs[a] == fs2[a] && fs[b] == fs2[b]);
            }
        }
    } else {
        assert forall|a: int, b: int| 0 <= a < b < fs2.len() implies (#[trigger] fs2[a]).0 != (
        #[trigger] fs2[b]).0 by {
            assert(fs2[a].0 == fs[a].0);
            assert(fs2[b].0 == fs[b].0);
        }
    }
}

/// Adding a class (what `insert_class` does) keeps every class filed under
/// its name and listed by its file, loses no class name or file, and only
/// appends to a file's list of names.
pub proof fn law_insert_keeps_index(cs: Seq<ClassInfo>, fs: Seq<FileEntry>, c: ClassInfo)
    requires
        class_names_distinct(cs),
        file_keys_distinct(fs),
        index_consistent(cs, fs),
    ensures
        index_consistent(after_insert(cs, fs, c).0, after_insert(cs, fs, c).1),
        index_grows(cs, fs, after_insert(cs, fs, c).0, after_insert(cs, fs, c).1),
        class_names_distinct(after_insert(cs, fs, c).0),
        file_keys_distinct(after_insert(cs, fs, c).1),
{
    law_insert_then_lookup(cs, fs, c);
    lemma_insert_keeps_distinct(cs, fs, c);
    let key = path_key(c.file@);
    let cs2 = after_insert(cs, fs, c).0;
    let fs2 = after_insert(cs, fs, c).1;
    let list = if file_map(fs).contains_key(key) {
        file_map(fs)[key].push(c.name@)
    } else {
        seq![c.name@]
    };
    assert(list[list.len() - 1] == c.name@);
    assert forall|n: Seq<char>| #[trigger] class_map(cs2).contains_key(n) implies {
        let k = path_key(class_map(cs2)[n].file@);
        &&& class_map(cs2)[n].name@ == n
        &&& file_map(fs2).contains_key(k)
        &&& file_map(fs2)[k].contains(n)
    } by {
        if n != c.name@ {
            assert(class_map(cs).contains_key(n));
            let k = path_key(class_map(cs)[n].file@);
            if k == key {
                let old_list = file_map(fs)[k];
                let i = choose|i: int| 0 <= i < old_list.len() && old_list[i] == n;
                assert(list[i] == n);
            }
        }
    }
    assert forall|k: Seq<char>| #[trigger] file_map(fs).contains_key(k) implies file_map(
        fs2,
    ).contains_key(k) && file_map(fs)[k].is_prefix_of(file_map(fs2)[k]) by {
        if k == key {
            assert(file_map(fs)[k].is_prefix_of(list)) by {
                assert(list.subrange(0, file_map(fs)[k].len() as int) =~= file_map(fs)[k]);
            }
        }
    }
}

/// Step `i` of the run `ts` leaves the table as it was or adds one class.
pub open spec fn run_step(ts: Seq<(Seq<ClassInfo>, Seq<FileEntry>)>, i: int) -> bool {
    ||| ts[i + 1] == ts[i]
    ||| exists|c: ClassInfo| ts[i + 1] == #[trigger] after_insert(ts[i].0, ts[i].1, c)
}

/// The tables of an indexing run: each step leaves the table as it was or
/// adds one class, as each call of `Indexing::advance` does.
pub open spec fn indexing_run(ts: Seq<(Seq<ClassInfo>, Seq<FileEntry>)>) -> bool {
    forall|i: int| 0 <= i < ts.len() - 1 ==> #[trigger] run_step(ts, i)
}

/// Over a whole indexing run that starts from a well-formed table in which
/// every class is filed under its name and listed by its file, that stays
/// true, the table stays well-formed, no class name or file is lost, and
/// each file's list of names only grows at its end.
pub proof fn law_indexing_run_keeps_index(ts: Seq<(Seq<ClassInfo>, Seq<FileEntry>)>)
    requires
        ts.len() > 0,
        indexing_run(ts),
        class_names_distinct(ts[0].0),
        file_keys_distinct(ts[0].1),
        index_consistent(ts[0].0, ts[0].1),
    ensures
        index_consistent(ts.last().0, ts.last().1),
        index_grows(ts[0].0, ts[0].1, ts.last().0, ts.last().1),
        class_names_distinct(ts.last().0),
        file_keys_distinct(ts.last().1),
    decreases ts.len(),
{
    if ts.len() == 1 {
        assert(ts.last() == ts[0]);
        assert forall|k: Seq<char>| #[trigger] file_map(ts[0].1).contains_key(k) implies file_map(
            ts[0].1,
        )[k].is_prefix_of(file_map(ts[0].1)[k]) by {
            assert(file_map(ts[0].1)[k].subrange(0, file_map(ts[0].1)[k].len() as int)
                =~= file_map(ts[0].1)[k]);
        }
    } else {
        let front = ts.drop_last();
        assert forall|i: int| 0 <= i < front.len() - 1 implies #[trigger] run_step(front, i) by {
            assert(run_step(ts, i));
            assert(front[i] == ts[i] && front[i + 1] == ts[i + 1]);
        }
        law_indexing_run_keeps_index(front);
        let a = front.last();
        let b = ts.last();
        assert(a == ts[ts.len() - 2]);
        assert(run_step(ts, ts.len() - 2));
        if b != a {
            let c = choose|c: ClassInfo| b == #[trigger] after_insert(a.0, a.1, c);
            law_insert_keeps_index(a.0, a.1, c);
        } else {
            assert forall|k: Seq<char>| #[trigger] file_map(a.1).contains_key(k) implies file_map(
                a.1,
            )[k].is_prefix_of(file_map(b.1)[k]) by {
                assert(file_map(a.1)[k].subrange(0, file_map(a.1)[k].len() as int) =~= file_map(
                    a.1,
                )[k]);
            }
        }
        assert forall|k: Seq<char>| #[trigger] file_map(ts[0].1).contains_key(k) implies file_map(
            b.1,
        ).contains_key(k) && file_map(ts[0].1)[k].is_prefix_of(file_map(b.1)[k]) by {
            assert(file_map(a.1).contains_key(k));
            let x = file_map(ts[0].1)[k];
            let y = file_map(a.1)[k];
            let z = file_map(b.1)[k];
            assert(x.is_prefix_of(y));
            assert(y.is_prefix_of(z));
            assert(x.len() <= z.len());
            assert(z.subrange(0, x.len() as int) =~= x) by {
                assert forall|m: int| 0 <= m < x.len() implies z[m] == x[m] by {
                    assert(y.subrange(0, x.len() as int)[m] == x[m]);
                    assert(z.subrange(0, y.len() as int)[m] == y[m]);
                }
            }
        }
        assert forall|n: Seq<char>| #[trigger] class_map(ts[0].0).contains_key(n) implies class_map(
            b.0,
        ).contains_key(n) by {
            assert(class_map(a.0).contains_key(n));
        }
    }
}

} // verus!
