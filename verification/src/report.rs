//! A plain-text listing of the symbol table, one block per class.
use vstd::prelude::*;
use crate::features::join_comma;
use crate::symbol_table::{SymbolTable, ClassInfo, FieldInfo, MethodInfo, names_of};
use crate::text::{append_str, string_from_chars};

verus! {

pub open spec fn digit_char(d: nat) -> char {
    if d == 0 {
        '0'
    } else if d == 1 {
        '1'
    } else if d == 2 {
        '2'
    } else if d == 3 {
        '3'
    } else if d == 4 {
        '4'
    } else if d == 5 {
        '5'
    } else if d == 6 {
        '6'
    } else if d == 7 {
        '7'
    } else if d == 8 {
        '8'
    } else {
        '9'
    }
}

/// The decimal digits of `n`, most significant first.
pub open spec fn decimal(n: nat) -> Seq<char>
    decreases n,
{
    if n < 10 {
        seq![digit_char(n)]
    } else {
        decimal(n / 10) + seq![digit_char(n % 10)]
    }
}

pub open spec fn bool_text(b: bool) -> Seq<char> {
    if b {
        "true"@
    } else {
        "false"@
    }
}

fn digit(d: usize) -> (c: char)
    requires
        d < 10,
    ensures
        c == digit_char(d as nat),
{
    match d {
        0 => '0',
        1 => '1',
        2 => '2',
        3 => '3',
        4 => '4',
        5 => '5',
        6 => '6',
        7 => '7',
        8 => '8',
        _ => '9',
    }
}

/// Appends the decimal digits of `n`.
pub fn append_decimal(out: &mut Vec<char>, n: usize)
    ensures
        final(out)@ == old(out)@ + decimal(n as nat),
    decreases n,
{
    if n >= 10 {
        append_decimal(out, n / 10);
    }
    out.push(digit(n % 10));
    assert(out@ =~= old(out)@ + decimal(n as nat));
}

fn append_bool(out: &mut Vec<char>, b: bool)
    ensures
        final(out)@ == old(out)@ + bool_text(b),
{
    if b {
        append_str(out, "true");
    } else {
        append_str(out, "false");
    }
}

/// `    Type name (pub: b, line: n)` and a line break.
pub open spec fn field_row(f: FieldInfo) -> Seq<char> {
    "    "@ + f.field_type@ + " "@ + f.name@ + " (pub: "@ + bool_text(f.is_pub) + ", line: "@
        + decimal(f.line as nat) + ")\n"@
}

/// `    name (pub: b, constructor: b, drop: b, line: n)` and a line break.
pub open spec fn method_row(m: MethodInfo) -> Seq<char> {
    "    "@ + m.name@ + " (pub: "@ + bool_text(m.is_pub) + ", constructor: "@ + bool_text(
        m.is_constructor,
    ) + ", drop: "@ + bool_text(m.is_drop) + ", line: "@ + decimal(m.line as nat) + ")\n"@
}

pub open spec fn field_rows(fs: Seq<FieldInfo>) -> Seq<char>
    decreases fs.len(),
{
    if fs.len() == 0 {
        seq![]
    } else {
        field_rows(fs.drop_last()) + field_row(fs.last())
    }
}

pub open spec fn method_rows(ms: Seq<MethodInfo>) -> Seq<char>
    decreases ms.len(),
{
    if ms.len() == 0 {
        seq![]
    } else {
        method_rows(ms.drop_last()) + method_row(ms.last())
    }
}

/// `Class: name (file:line)` and a line break.
pub open spec fn class_header(c: ClassInfo) -> Seq<char> {
    "Class: "@ + c.name@ + " ("@ + c.file@ + ":"@ + decimal(c.line as nat) + ")\n"@
}

/// `  inherits: parent` and a line break, when the class has a parent.
pub open spec fn parent_line(c: ClassInfo) -> Seq<char> {
    match c.parent {
        Some(p) => "  inherits: "@ + p@ + "\n"@,
        None => seq![],
    }
}

/// `  implements: a, b` and a line break, when the class implements any.
pub open spec fn implements_line(c: ClassInfo) -> Seq<char> {
    if c.implements@.len() > 0 {
        "  implements: "@ + join_comma(names_of(c.implements@)) + "\n"@
    } else {
        seq![]
    }
}

/// The field and method rows under their headings, and an empty line.
pub open spec fn members_part(c: ClassInfo) -> Seq<char> {
    "  fields:\n"@ + field_rows(c.fields@) + "  methods:\n"@ + method_rows(c.methods@) + "\n"@
}

/// The block that lists one class: its name, file and line, its parent and
/// interfaces when it has them, its fields and methods, and an empty line.
pub open spec fn class_block(c: ClassInfo) -> Seq<char> {
    class_header(c) + parent_line(c) + implements_line(c) + members_part(c)
}

/// The blocks of all classes, in the table's order.
pub open spec fn table_listing(cs: Seq<ClassInfo>) -> Seq<char>
    decreases cs.len(),
{
    if cs.len() == 0 {
        seq![]
    } else {
        table_listing(cs.drop_last()) + class_block(cs.last())
    }
}

fn append_field_row(out: &mut Vec<char>, f: &FieldInfo)
    ensures
        final(out)@ == old(out)@ + field_row(*f),
{
    append_str(out, "    ");
    append_str(out, f.field_type.as_str());
    append_str(out, " ");
    append_str(out, f.name.as_str());
    append_str(out, " (pub: ");
    append_bool(out, f.is_pub);
    append_str(out, ", line: ");
    append_decimal(out, f.line);
    append_str(out, ")\n");
    assert(out@ =~= old(out)@ + field_row(*f));
}

fn append_method_row(out: &mut Vec<char>, m: &MethodInfo)
    ensures
        final(out)@ == old(out)@ + method_row(*m),
{
    append_str(out, "    ");
    append_str(out, m.name.as_str());
    append_str(out, " (pub: ");
    append_bool(out, m.is_pub);
    append_str(out, ", constructor: ");
    append_bool(out, m.is_constructor);
    append_str(out, ", drop: ");
    append_bool(out, m.is_drop);
    append_str(out, ", line: ");
    append_decimal(out, m.line);
    append_str(out, ")\n");
    assert(out@ =~= old(out)@ + method_row(*m));
}

fn append_field_rows(out: &mut Vec<char>, fs: &Vec<FieldInfo>)
    ensures
        final(out)@ == old(out)@ + field_rows(fs@),
{
    let mut i: usize = 0;
    assert(fs@.take(0) =~= Seq::<FieldInfo>::empty());
    assert(out@ =~= old(out)@ + field_rows(fs@.take(0)));
    while i < fs.len()
        invariant
            i <= fs.len(),
            out@ == old(out)@ + field_rows(fs@.take(i as int)),
        decreases fs.len() - i,
    {
        proof {
            assert(fs@.take(i + 1).drop_last() =~= fs@.take(i as int));
            assert(fs@.take(i + 1).last() == fs@[i as int]);
        }
        append_field_row(out, &fs[i]);
        assert(out@ =~= old(out)@ + field_rows(fs@.take(i + 1)));
        i = i + 1;
    }
    assert(fs@.take(fs.len() as int) == fs@);
}

fn append_method_rows(out: &mut Vec<char>, ms: &Vec<MethodInfo>)
    ensures
        final(out)@ == old(out)@ + method_rows(ms@),
{
    let mut i: usize = 0;
    assert(ms@.take(0) =~= Seq::<MethodInfo>::empty());
    assert(out@ =~= old(out)@ + method_rows(ms@.take(0)));
    while i < ms.len()
        invariant
            i <= ms.len(),
            out@ == old(out)@ + method_rows(ms@.take(i as int)),
        decreases ms.len() - i,
    {
        proof {
            assert(ms@.take(i + 1).drop_last() =~= ms@.take(i as int));
            assert(ms@.take(i + 1).last() == ms@[i as int]);
        }
        append_method_row(out, &ms[i]);
        assert(out@ =~= old(out)@ + method_rows(ms@.take(i + 1)));
        i = i + 1;
    }
    assert(ms@.take(ms.len() as int) == ms@);
}

fn append_names(out: &mut Vec<char>, names: &Vec<String>)
    ensures
        final(out)@ == old(out)@ + join_comma(names_of(names@)),
{
    let mut i: usize = 0;
    let ghost ns = names_of(names@);
    assert(ns.take(0) =~= Seq::<Seq<char>>::empty());
    assert(out@ =~= old(out)@ + join_comma(ns.take(0)));
    while i < names.len()
        invariant
            ns == names_of(names@),
            i <= names.len(),
            out@ == old(out)@ + join_comma(ns.take(i as int)),
        decreases names.len() - i,
    {
        proof {
            assert(ns.take(i + 1).drop_last() =~= ns.take(i as int));
            assert(ns.take(i + 1).last() == names@[i as int]@);
        }
        if i > 0 {
            append_str(out, ", ");
        }
        append_str(out, names[i].as_str());
        proof {
            if i == 0 {
                assert(ns.take(1).len() == 1);
            }
        }
        assert(out@ =~= old(out)@ + join_comma(ns.take(i + 1)));
        i = i + 1;
    }
    assert(ns.take(names.len() as int) == ns);
}

fn append_class_header(out: &mut Vec<char>, c: &ClassInfo)
    ensures
        final(out)@ == old(out)@ + class_header(*c),
{
    append_str(out, "Class: ");
    append_str(out, c.name.as_str());
    append_str(out, " (");
    append_str(out, c.file.as_str());
    append_str(out, ":");
    append_decimal(out, c.line);
    append_str(out, ")\n");
    assert(out@ =~= old(out)@ + class_header(*c));
}

fn append_parent_line(out: &mut Vec<char>, c: &ClassInfo)
    ensures
        final(out)@ == old(out)@ + parent_line(*c),
{
    match &c.parent {
        Some(p) => {
            append_str(out, "  inherits: ");
            append_str(out, p.as_str());
            append_str(out, "\n");
        },
        None => {},
    }
    assert(out@ =~= old(out)@ + parent_line(*c));
}

fn append_implements_line(out: &mut Vec<char>, c: &ClassInfo)
    ensures
        final(out)@ == old(out)@ + implements_line(*c),
{
    if c.implements.len() > 0 {
        append_str(out, "  implements: ");
        append_names(out, &c.implements);
        append_str(out, "\n");
    }
    assert(out@ =~= old(out)@ + implements_line(*c));
}

fn append_members(out: &mut Vec<char>, c: &ClassInfo)
    ensures
        final(out)@ == old(out)@ + members_part(*c),
{
    append_str(out, "  fields:\n");
    append_field_rows(out, &c.fields);
    append_str(out, "  methods:\n");
    append_method_rows(out, &c.methods);
    append_str(out, "\n");
    assert(out@ =~= old(out)@ + members_part(*c));
}

fn append_class_block(out: &mut Vec<char>, c: &ClassInfo)
    ensures
        final(out)@ == old(out)@ + class_block(*c),
{
    append_class_header(out, c);
    append_parent_line(out, c);
    append_implements_line(out, c);
    append_members(out, c);
    assert(out@ =~= old(out)@ + class_block(*c));
}

impl SymbolTable {
    /// The listing of every class, as `print_all` prints it.
    pub fn describe_all(&self) -> (r: String)
        ensures
            r@ == table_listing(self.classes@),
    {
        let mut out: Vec<char> = Vec::new();
        let ghost cs = self.classes@;
        let mut k: usize = 0;
        assert(cs.take(0) =~= Seq::<ClassInfo>::empty());
        assert(out@ =~= table_listing(cs.take(0)));
        while k < self.classes.len()
            invariant
                cs == self.classes@,
                k <= cs.len(),
                out@ == table_listing(cs.take(k as int)),
            decreases cs.len() - k,
        {
            proof {
                assert(cs.take(k + 1).drop_last() =~= cs.take(k as int));
                assert(cs.take(k + 1).last() == cs[k as int]);
            }
            append_class_block(&mut out, &self.classes[k]);
            k = k + 1;
        }
        assert(cs.take(cs.len() as int) == cs);
        string_from_chars(&out)
    }
}

} // verus!
