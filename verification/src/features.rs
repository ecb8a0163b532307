//! The editor features of the language server, computed from the symbol
//! table and the text of the open document: signature help, hover text,
//! go-to-definition, and completion (after a `.` and in general).
use vstd::prelude::*;
use crate::analysis::{
    word_at, word_before_dot, enclosing_call, text_before, clamped_param, enclosing_class,
    variable_type_in, local_decls, first_lines, params_at, params_readable, find_enclosing_call,
    get_word_at_position, get_word_before_dot, find_enclosing_class, find_variable_type,
    clamp_active_param, collect_local_vars, collect_params, params_readable_at,
};
use crate::bindings::{Binding, bind_all, binding_views};
use crate::symbol_table::{SymbolTable, ClassInfo, MethodInfo, FieldInfo, names_of, class_map};
use crate::text::{
    source_lines, views_of, spec_lines, crlf_to_lf, normalize_newlines, lemma_crlf_len, lemma_lines_count, append_str, append_chars,
    string_from_chars, string_of, chars_of, str_eq,
};

verus! {

// ---------------------------------------------------------------------------
// Results handed to the editor
// ---------------------------------------------------------------------------
/// What a completion item stands for.
#[derive(Clone, Copy, PartialEq, Eq, Debug)]
pub enum CompletionKind {
    Method,
    Field,
    Variable,
    TypeParameter,
    Keyword,
    Class,
}

/// A completion item.
pub struct CompletionEntry {
    pub label: String,
    pub kind: CompletionKind,
    pub detail: Option<String>,
    /// Text to insert in place of the label, if any.
    pub insert_text: Option<String>,
    /// Whether `insert_text` is a snippet (with `$1` for the cursor).
    pub is_snippet: bool,
}

/// A completion item as values: (label, kind, detail, insert text,
/// snippet).
pub type EntryView = (Seq<char>, CompletionKind, Option<Seq<char>>, Option<Seq<char>>, bool);

pub open spec fn opt_view(o: Option<String>) -> Option<Seq<char>> {
    match o {
        Some(s) => Some(s@),
        None => None,
    }
}

pub open spec fn entry_view(e: CompletionEntry) -> EntryView {
    (e.label@, e.kind, opt_view(e.detail), opt_view(e.insert_text), e.is_snippet)
}

pub open spec fn entry_views(v: Seq<CompletionEntry>) -> Seq<EntryView> {
    v.map_values(|e: CompletionEntry| entry_view(e))
}

/// One signature to show while the cursor is inside a call.
pub struct SignatureInfo {
    pub label: String,
    /// The label of each parameter.
    pub parameters: Vec<String>,
    pub active_parameter: Option<u32>,
}

// ---------------------------------------------------------------------------
// Labels
// ---------------------------------------------------------------------------
/// `Type name` for a (type, name) parameter.
pub open spec fn param_label(p: Binding) -> Seq<char> {
    p.0 + " "@ + p.1
}

/// The strings joined with `, ` between them.
pub open spec fn join_comma(ws: Seq<Seq<char>>) -> Seq<char>
    decreases ws.len(),
{
    if ws.len() == 0 {
        seq![]
    } else if ws.len() == 1 {
        ws[0]
    } else {
        join_comma(ws.drop_last()) + ", "@ + ws.last()
    }
}

pub open spec fn param_labels(ps: Seq<Binding>) -> Seq<Seq<char>> {
    ps.map_values(|p: Binding| param_label(p))
}

/// `name(Type a, Type b) -> Ret`.
pub open spec fn method_label(m: MethodInfo) -> Seq<char> {
    m.name@ + "("@ + join_comma(param_labels(binding_views(m.params@))) + ") -> "@
        + m.return_type@
}

/// `init(Type a, Type b)`.
pub open spec fn init_label(m: MethodInfo) -> Seq<char> {
    "init("@ + join_comma(param_labels(binding_views(m.params@))) + ")"@
}

/// Appends the strings of `ws` to `out`, with `, ` between them.
fn append_joined(out: &mut Vec<char>, ws: &Vec<Vec<char>>)
    ensures
        final(out)@ == old(out)@ + join_comma(ws@.map_values(|w: Vec<char>| w@)),
{
    let ghost vs = ws@.map_values(|w: Vec<char>| w@);
    let mut i: usize = 0;
    assert(vs.take(0) =~= Seq::<Seq<char>>::empty());
    assert(old(out)@ + join_comma(vs.take(0)) =~= old(out)@);
    while i < ws.len()
        invariant
            vs == ws@.map_values(|w: Vec<char>| w@),
            i <= ws.len(),
            out@ == old(out)@ + join_comma(vs.take(i as int)),
        decreases ws.len() - i,
    {
        proof {
            assert(vs.take(i + 1).drop_last() =~= vs.take(i as int));
            assert(vs.take(i + 1).last() == ws@[i as int]@);
        }
        if i > 0 {
            append_str(out, ", ");
        }
        append_chars(out, &ws[i]);
        proof {
            if i == 0 {
                assert(vs.take(1).len() == 1);
                assert(out@ =~= old(out)@ + join_comma(vs.take(1)));
            } else {
                assert(out@ =~= old(out)@ + join_comma(vs.take(i + 1)));
            }
        }
        i = i + 1;
    }
    assert(vs.take(ws.len() as int) == vs);
}

/// The labels of a method's parameters.
fn param_label_list(ps: &Vec<(String, String)>) -> (r: Vec<Vec<char>>)
    ensures
        r@.map_values(|w: Vec<char>| w@) == param_labels(binding_views(ps@)),
{
    let mut r: Vec<Vec<char>> = Vec::new();
    let mut i: usize = 0;
    while i < ps.len()
        invariant
            i <= ps.len(),
            r@.len() == i,
            forall|k: int| 0 <= k < i ==> #[trigger] r@[k]@ == param_label(binding_views(ps@)[k]),
        decreases ps.len() - i,
    {
        let mut l = chars_of(ps[i].0.as_str());
        append_str(&mut l, " ");
        append_str(&mut l, ps[i].1.as_str());
        r.push(l);
        i = i + 1;
    }
    assert(r@.map_values(|w: Vec<char>| w@) =~= param_labels(binding_views(ps@)));
    r
}

/// The label of a method.
pub fn method_label_of(m: &MethodInfo) -> (r: String)
    ensures
        r@ == method_label(*m),
{
    let mut out = chars_of(m.name.as_str());
    append_str(&mut out, "(");
    let labels = param_label_list(&m.params);
    append_joined(&mut out, &labels);
    append_str(&mut out, ") -> ");
    append_str(&mut out, m.return_type.as_str());
    string_from_chars(&out)
}

/// The label of a constructor.
pub fn init_label_of(m: &MethodInfo) -> (r: String)
    ensures
        r@ == init_label(*m),
{
    let mut out = chars_of("init(");
    let labels = param_label_list(&m.params);
    append_joined(&mut out, &labels);
    append_str(&mut out, ")");
    string_from_chars(&out)
}

// ---------------------------------------------------------------------------
// Signature help
// ---------------------------------------------------------------------------
/// The first constructor among `ms`, or `ms.len()`.
pub open spec fn ctor_pos(ms: Seq<MethodInfo>) -> nat
    decreases ms.len(),
{
    if ms.len() == 0 {
        0
    } else if ms[0].is_constructor {
        0
    } else {
        1 + ctor_pos(ms.drop_first())
    }
}

/// The first method named `word` that is not a constructor, or `ms.len()`.
pub open spec fn named_method_pos(ms: Seq<MethodInfo>, word: Seq<char>) -> nat
    decreases ms.len(),
{
    if ms.len() == 0 {
        0
    } else if ms[0].name@ == word && !ms[0].is_constructor {
        0
    } else {
        1 + named_method_pos(ms.drop_first(), word)
    }
}

/// The method whose signature a call of `word` shows, and whether it is a
/// constructor: classes are tried in order; a class named `word` gives its
/// first constructor, if it has one; otherwise the class's first
/// non-constructor method named `word` is taken.
pub open spec fn signature_target(cs: Seq<ClassInfo>, word: Seq<char>) -> Option<(MethodInfo, bool)>
    decreases cs.len(),
{
    if cs.len() == 0 {
        None
    } else {
        let ms = cs[0].methods@;
        if cs[0].name@ == word && ctor_pos(ms) < ms.len() {
            Some((ms[ctor_pos(ms) as int], true))
        } else if named_method_pos(ms, word) < ms.len() {
            Some((ms[named_method_pos(ms, word) as int], false))
        } else {
            signature_target(cs.drop_first(), word)
        }
    }
}

/// The signature shown for a target method, with `active` commas before
/// the cursor: (label, parameter labels, active parameter).
pub open spec fn signature_of(target: Option<(MethodInfo, bool)>, active: u32) -> Option<
    (Seq<char>, Seq<Seq<char>>, u32),
> {
    match target {
        None => None,
        Some((m, is_ctor)) => Some(
            (
                if is_ctor {
                    init_label(m)
                } else {
                    method_label(m)
                },
                param_labels(binding_views(m.params@)),
                clamped_param(active, m.params@.len() as usize),
            ),
        ),
    }
}

/// The call at (`line`, `character`) of `document` whose signature is
/// shown: the method (and whether it is a constructor) that the call's name
/// picks, with the number of commas before the cursor as a `u32`.
pub open spec fn shown_call(
    cs: Seq<ClassInfo>,
    document: Seq<char>,
    line: int,
    character: int,
) -> Option<(MethodInfo, bool, u32)> {
    let ls = spec_lines(crlf_to_lf(document));
    if line >= ls.len() {
        None
    } else {
        match enclosing_call(text_before(ls, line, character)) {
            None => None,
            Some((word, commas)) => if word.len() == 0 {
                None
            } else {
                match signature_target(cs, word) {
                    Some((m, is_ctor)) => Some((m, is_ctor, commas as u32)),
                    None => None,
                }
            },
        }
    }
}

/// The signature shown at (`line`, `character`) of `document`: (label,
/// parameter labels, active parameter).
pub open spec fn signature_at(
    cs: Seq<ClassInfo>,
    document: Seq<char>,
    line: int,
    character: int,
) -> Option<(Seq<char>, Seq<Seq<char>>, u32)> {
    match shown_call(cs, document, line, character) {
        Some((m, is_ctor, active)) => signature_of(Some((m, is_ctor)), active),
        None => None,
    }
}

/// A parameter count whose last index can be taken as a `u32` (the active
/// parameter is capped at the count less one, taken as a `u32`).
pub open spec fn param_count_fits(n: nat) -> bool {
    n == 0 || n as u32 != 0
}

/// The signature help at (`line`, `character`) can be computed: the method
/// it would show (if any) has a parameter count that fits.
pub open spec fn signature_fits(
    cs: Seq<ClassInfo>,
    document: Seq<char>,
    line: int,
    character: int,
) -> bool {
    shown_call(cs, document, line, character) matches Some((m, _, _)) ==> param_count_fits(
        m.params@.len(),
    )
}

/// The active parameter of a shown signature indexes one of its parameters
/// (or is 0 when it has none).
pub proof fn law_active_parameter_in_range(target: Option<(MethodInfo, bool)>, active: u32)
    requires
        target matches Some((m, _)) ==> m.params@.len() <= u32::MAX,
    ensures
        signature_of(target, active) matches Some((_, params, a)) ==> (params.len() == 0 && a == 0)
            || a < params.len(),
{
}

fn first_ctor(ms: &Vec<MethodInfo>) -> (r: usize)
    ensures
        r == ctor_pos(ms@),
        r <= ms@.len(),
{
    let mut i: usize = 0;
    assert(ms@.skip(0) == ms@);
    while i < ms.len() && !ms[i].is_constructor
        invariant
            i <= ms.len(),
            ctor_pos(ms@) == i + ctor_pos(ms@.skip(i as int)),
        decreases ms.len() - i,
    {
        assert(ms@.skip(i as int).drop_first() =~= ms@.skip(i + 1));
        i = i + 1;
    }
    if i < ms.len() {
        assert(ms@.skip(i as int)[0] == ms@[i as int]);
    } else {
        assert(ms@.skip(i as int).len() == 0);
    }
    i
}

fn first_named_method(ms: &Vec<MethodInfo>, word: &String) -> (r: usize)
    ensures
        r == named_method_pos(ms@, word@),
        r <= ms@.len(),
{
    let mut i: usize = 0;
    assert(ms@.skip(0) == ms@);
    while i < ms.len() && !(ms[i].name == *word && !ms[i].is_constructor)
        invariant
            i <= ms.len(),
            named_method_pos(ms@, word@) == i + named_method_pos(ms@.skip(i as int), word@),
        decreases ms.len() - i,
    {
        assert(ms@.skip(i as int).drop_first() =~= ms@.skip(i + 1));
        assert(ms@.skip(i as int)[0] == ms@[i as int]);
        i = i + 1;
    }
    if i < ms.len() {
        assert(ms@.skip(i as int)[0] == ms@[i as int]);
    } else {
        assert(ms@.skip(i as int).len() == 0);
    }
    i
}

/// Where the method whose signature is shown at (`line`, `character`)
/// stands in the table (class, method), whether it is a constructor, and
/// the active parameter before capping.
fn locate_signature(table: &SymbolTable, document: &str, line: u32, character: u32) -> (r: Option<
    (usize, usize, bool, u32),
>)
    ensures
        match shown_call(table.classes@, document@, line as int, character as int) {
            Some((m, is_ctor, active)) => r matches Some((k, j, c, a)) && k < table.classes@.len()
                && j < table.classes@[k as int].methods@.len()
                && table.classes@[k as int].methods@[j as int] == m && c == is_ctor && a == active,
            None => r is None,
        },
{
    let source = normalize_newlines(document);
    proof {
        lemma_crlf_len(document@);
    }
    let (word, active_param) = match find_enclosing_call(
        source.as_str(),
        line as usize,
        character as usize,
    ) {
        Some(result) => result,
        None => return None,
    };
    if word.as_str().unicode_len() == 0 {
        return None;
    }
    let ghost cs = table.classes@;
    let ghost shown = shown_call(cs, document@, line as int, character as int);
    let mut k: usize = 0;
    assert(cs.skip(0) == cs);
    while k < table.classes.len()
        invariant
            cs == table.classes@,
            k <= cs.len(),
            shown == shown_call(cs, document@, line as int, character as int),
            shown == match signature_target(cs.skip(k as int), word@) {
                Some((m, is_ctor)) => Some((m, is_ctor, active_param)),
                None => None::<(MethodInfo, bool, u32)>,
            },
        decreases cs.len() - k,
    {
        let class_info = &table.classes[k];
        assert(cs.skip(k as int)[0] == *class_info);
        assert(cs.skip(k as int).drop_first() =~= cs.skip(k + 1));
        let c = first_ctor(&class_info.methods);
        if class_info.name == word && c < class_info.methods.len() {
            return Some((k, c, true, active_param));
        }
        let j = first_named_method(&class_info.methods, &word);
        if j < class_info.methods.len() {
            return Some((k, j, false, active_param));
        }
        k = k + 1;
    }
    None
}

/// The signature of `method` (a constructor or not) with `active` commas
/// before the cursor.
fn build_signature(method: &MethodInfo, is_ctor: bool, active: u32) -> (r: SignatureInfo)
    requires
        param_count_fits(method.params@.len()),
    ensures
        signature_of(Some((*method, is_ctor)), active) matches Some((label, params, a)) && r.label@
            == label && r.parameters@.map_values(|p: String| p@) == params && r.active_parameter
            == Some(a),
{
    let label = if is_ctor {
        init_label_of(method)
    } else {
        method_label_of(method)
    };
    let clamped_active = clamp_active_param(active, method.params.len());
    let labels = param_label_list(&method.params);
    let mut parameters: Vec<String> = Vec::new();
    let mut i: usize = 0;
    while i < labels.len()
        invariant
            i <= labels.len(),
            parameters@.len() == i,
            forall|m: int| 0 <= m < i ==> #[trigger] parameters@[m]@ == labels@[m]@,
        decreases labels.len() - i,
    {
        parameters.push(string_from_chars(&labels[i]));
        i = i + 1;
    }
    assert(parameters@.map_values(|p: String| p@) =~= labels@.map_values(|w: Vec<char>| w@));
    SignatureInfo { label, parameters, active_parameter: clamped_active }
}

/// The signature help for the call around (`line`, `character`) of the
/// document: the constructor of the class, or the method, that the call
/// names, with the argument the cursor is in as the active parameter.
pub fn signature_help(table: &SymbolTable, document: &str, line: u32, character: u32) -> (r: Option<
    SignatureInfo,
>)
    requires
        signature_fits(table.classes@, document@, line as int, character as int),
    ensures
        match signature_at(table.classes@, document@, line as int, character as int) {
            Some((label, params, active)) => r matches Some(s) && s.label@ == label
                && s.parameters@.map_values(|p: String| p@) == params && s.active_parameter
                == Some(active),
            None => r is None,
        },
{
    match locate_signature(table, document, line, character) {
        Some((k, j, is_ctor, active)) => Some(
            build_signature(&table.classes[k].methods[j], is_ctor, active),
        ),
        None => None,
    }
}

/// Whether `signature_help` can be computed at (`line`, `character`).
pub fn signature_fits_at(table: &SymbolTable, document: &str, line: u32, character: u32) -> (r:
    bool)
    ensures
        r == signature_fits(table.classes@, document@, line as int, character as int),
{
    match locate_signature(table, document, line, character) {
        Some((k, j, _, _)) => {
            let n = table.classes[k].methods[j].params.len();
            n == 0 || n as u32 != 0
        },
        None => true,
    }
}

/// The signature help at (`line`, `character`) where it can be computed
/// (`signature_fits`), and None where it cannot.
pub fn signature_help_if_fits(
    table: &SymbolTable,
    document: &str,
    line: u32,
    character: u32,
) -> (r: Option<SignatureInfo>)
    ensures
        !signature_fits(table.classes@, document@, line as int, character as int) ==> r is None,
        signature_fits(table.classes@, document@, line as int, character as int) ==> match signature_at(
            table.classes@,
            document@,
            line as int,
            character as int,
        ) {
            Some((label, params, active)) => r matches Some(s) && s.label@ == label
                && s.parameters@.map_values(|p: String| p@) == params && s.active_parameter
                == Some(active),
            None => r is None,
        },
{
    if !signature_fits_at(table, document, line, character) {
        return None;
    }
    signature_help(table, document, line, character)
}


// ---------------------------------------------------------------------------
// Hover
// ---------------------------------------------------------------------------
pub open spec fn vis_prefix(is_pub: bool) -> Seq<char> {
    if is_pub {
        "pub "@
    } else {
        seq![]
    }
}

/// One line per field: `- `pub Type name``.
pub open spec fn field_lines(fs: Seq<FieldInfo>) -> Seq<char>
    decreases fs.len(),
{
    if fs.len() == 0 {
        seq![]
    } else {
        let f = fs.last();
        field_lines(fs.drop_last()) + "\n- `"@ + vis_prefix(f.is_pub) + f.field_type@ + " "@
            + f.name@ + "`"@
    }
}

/// One line per method that is not a destructor: `- `pub name``.
pub open spec fn method_lines(ms: Seq<MethodInfo>) -> Seq<char>
    decreases ms.len(),
{
    if ms.len() == 0 {
        seq![]
    } else {
        let m = ms.last();
        method_lines(ms.drop_last()) + if m.is_drop {
            seq![]
        } else {
            "\n- `"@ + vis_prefix(m.is_pub) + m.name@ + "`"@
        }
    }
}

pub open spec fn hover_parent(c: ClassInfo) -> Seq<char> {
    match c.parent {
        Some(p) => "\n\ninherits: `"@ + p@ + "`"@,
        None => seq![],
    }
}

pub open spec fn hover_implements(c: ClassInfo) -> Seq<char> {
    if c.implements@.len() > 0 {
        "\n\nimplements: `"@ + join_comma(names_of(c.implements@)) + "`"@
    } else {
        seq![]
    }
}

pub open spec fn hover_fields(c: ClassInfo) -> Seq<char> {
    if c.fields@.len() > 0 {
        "\n\n**Fields:**"@ + field_lines(c.fields@)
    } else {
        seq![]
    }
}

pub open spec fn hover_methods(c: ClassInfo) -> Seq<char> {
    if c.methods@.len() > 0 {
        "\n\n**Methods:**"@ + method_lines(c.methods@)
    } else {
        seq![]
    }
}

/// The Markdown shown when hovering over a class name: its name in bold,
/// its parent and interfaces when it has them, and its fields and methods
/// under headings when it has any.
pub open spec fn hover_markdown(c: ClassInfo) -> Seq<char> {
    "**class "@ + c.name@ + "**"@ + hover_parent(c) + hover_implements(c) + hover_fields(c)
        + hover_methods(c)
}

fn append_field_lines(out: &mut Vec<char>, fs: &Vec<FieldInfo>)
    ensures
        final(out)@ == old(out)@ + field_lines(fs@),
{
    let mut i: usize = 0;
    assert(fs@.take(0) =~= Seq::<FieldInfo>::empty());
    while i < fs.len()
        invariant
            i <= fs.len(),
            out@ == old(out)@ + field_lines(fs@.take(i as int)),
        decreases fs.len() - i,
    {
        proof {
            assert(fs@.take(i + 1).drop_last() =~= fs@.take(i as int));
            assert(fs@.take(i + 1).last() == fs@[i as int]);
        }
        let f = &fs[i];
        append_str(out, "\n- `");
        if f.is_pub {
            append_str(out, "pub ");
        }
        append_str(out, f.field_type.as_str());
        append_str(out, " ");
        append_str(out, f.name.as_str());
        append_str(out, "`");
        assert(out@ =~= old(out)@ + field_lines(fs@.take(i + 1)));
        i = i + 1;
    }
    assert(fs@.take(fs.len() as int) == fs@);
}

fn append_method_lines(out: &mut Vec<char>, ms: &Vec<MethodInfo>)
    ensures
        final(out)@ == old(out)@ + method_lines(ms@),
{
    let mut i: usize = 0;
    assert(ms@.take(0) =~= Seq::<MethodInfo>::empty());
    while i < ms.len()
        invariant
            i <= ms.len(),
            out@ == old(out)@ + method_lines(ms@.take(i as int)),
        decreases ms.len() - i,
    {
        proof {
            assert(ms@.take(i + 1).drop_last() =~= ms@.take(i as int));
            assert(ms@.take(i + 1).last() == ms@[i as int]);
        }
        let m = &ms[i];
        if !m.is_drop {
            append_str(out, "\n- `");
            if m.is_pub {
                append_str(out, "pub ");
            }
            append_str(out, m.name.as_str());
            append_str(out, "`");
        }
        assert(out@ =~= old(out)@ + method_lines(ms@.take(i + 1)));
        i = i + 1;
    }
    assert(ms@.take(ms.len() as int) == ms@);
}

fn append_hover_implements(out: &mut Vec<char>, c: &ClassInfo)
    ensures
        final(out)@ == old(out)@ + hover_implements(*c),
{
    if c.implements.len() > 0 {
        append_str(out, "\n\nimplements: `");
        let mut names: Vec<Vec<char>> = Vec::new();
        let mut i: usize = 0;
        while i < c.implements.len()
            invariant
                i <= c.implements.len(),
                names@.len() == i,
                forall|k: int| 0 <= k < i ==> #[trigger] names@[k]@ == c.implements@[k]@,
            decreases c.implements.len() - i,
        {
            names.push(chars_of(c.implements[i].as_str()));
            i = i + 1;
        }
        assert(names@.map_values(|w: Vec<char>| w@) =~= names_of(c.implements@));
        append_joined(out, &names);
        append_str(out, "`");
    }
    assert(out@ =~= old(out)@ + hover_implements(*c));
}

fn append_hover_members(out: &mut Vec<char>, c: &ClassInfo)
    ensures
        final(out)@ == old(out)@ + hover_fields(*c) + hover_methods(*c),
{
    if c.fields.len() > 0 {
        append_str(out, "\n\n**Fields:**");
        append_field_lines(out, &c.fields);
    }
    let ghost mid = out@;
    assert(mid =~= old(out)@ + hover_fields(*c));
    if c.methods.len() > 0 {
        append_str(out, "\n\n**Methods:**");
        append_method_lines(out, &c.methods);
    }
    assert(out@ =~= mid + hover_methods(*c));
}

/// The hover text of a class.
pub fn hover_content(c: &ClassInfo) -> (r: String)
    ensures
        r@ == hover_markdown(*c),
{
    let mut out = chars_of("**class ");
    append_str(&mut out, c.name.as_str());
    append_str(&mut out, "**");
    match &c.parent {
        Some(p) => {
            append_str(&mut out, "\n\ninherits: `");
            append_str(&mut out, p.as_str());
            append_str(&mut out, "`");
        },
        None => {},
    }
    let ghost a = out@;
    assert(a =~= "**class "@ + c.name@ + "**"@ + hover_parent(*c));
    append_hover_implements(&mut out, c);
    let ghost b = out@;
    append_hover_members(&mut out, c);
    assert(out@ =~= hover_markdown(*c));
    string_from_chars(&out)
}

/// The identifier at (`line`, `character`) of a document whose line endings
/// are read as `\n`.
pub open spec fn word_under_cursor(document: Seq<char>, line: int, character: int) -> Seq<char> {
    word_at(spec_lines(crlf_to_lf(document)), line, character)
}

/// The hover text at a position: that of the class named there.
pub open spec fn hover_at(cs: Seq<ClassInfo>, document: Seq<char>, line: int, character: int) -> Option<
    Seq<char>,
> {
    let word = word_under_cursor(document, line, character);
    if class_map(cs).contains_key(word) {
        Some(hover_markdown(class_map(cs)[word]))
    } else {
        None
    }
}

/// The definition at a position: the file and the (one-based) line of the
/// class named there.
pub open spec fn definition_at(
    cs: Seq<ClassInfo>,
    document: Seq<char>,
    line: int,
    character: int,
) -> Option<(Seq<char>, usize)> {
    let word = word_under_cursor(document, line, character);
    if class_map(cs).contains_key(word) {
        Some((class_map(cs)[word].file@, class_map(cs)[word].line))
    } else {
        None
    }
}

/// Hover text and a definition are offered at exactly the same positions:
/// where the identifier names a class of the table.
pub proof fn law_hover_iff_definition(
    cs: Seq<ClassInfo>,
    document: Seq<char>,
    line: int,
    character: int,
)
    ensures
        hover_at(cs, document, line, character) is Some <==> definition_at(
            cs,
            document,
            line,
            character,
        ) is Some,
        hover_at(cs, document, line, character) is Some <==> class_map(cs).contains_key(
            word_under_cursor(document, line, character),
        ),
{
}

/// The hover text at (`line`, `character`) of the document: the
/// description of the class named by the identifier there, if the table
/// has such a class.
pub fn hover(table: &SymbolTable, document: &str, line: u32, character: u32) -> (r: Option<String>)
    ensures
        match hover_at(table.classes@, document@, line as int, character as int) {
            Some(h) => r matches Some(s) && s@ == h,
            None => r is None,
        },
{
    let source = normalize_newlines(document);
    let word = get_word_at_position(source.as_str(), line as usize, character as usize);
    match table.get_class(word.as_str()) {
        Some(class) => Some(hover_content(class)),
        None => None,
    }
}

// ---------------------------------------------------------------------------
// Go to definition
// ---------------------------------------------------------------------------
/// The file and the one-based line of the declaration of the class named
/// by the identifier at (`line`, `character`) of the document.
pub fn goto_definition(table: &SymbolTable, document: &str, line: u32, character: u32) -> (r: Option<
    (String, usize),
>)
    ensures
        match definition_at(table.classes@, document@, line as int, character as int) {
            Some((f, l)) => r matches Some((file, n)) && file@ == f && n == l,
            None => r is None,
        },
{
    let source = normalize_newlines(document);
    let word = get_word_at_position(source.as_str(), line as usize, character as usize);
    match table.get_class(word.as_str()) {
        Some(class) => Some((class.file.clone(), class.line)),
        None => None,
    }
}

/// The zero-based row that a one-based declaration line is shown at.
pub fn definition_row(line: usize) -> (r: u32)
    requires
        line >= 1,
    ensures
        r == (line - 1) as u32,
{
    (line - 1) as u32
}

// ---------------------------------------------------------------------------
// Completion after `.`
// ---------------------------------------------------------------------------
/// The method items offered after `x.`: methods that are public (all of
/// them after `this.`), neither constructors nor destructors.
pub open spec fn method_entries(ms: Seq<MethodInfo>, is_this: bool) -> Seq<EntryView>
    decreases ms.len(),
{
    if ms.len() == 0 {
        seq![]
    } else {
        let m = ms.last();
        method_entries(ms.drop_last(), is_this) + if (is_this || m.is_pub) && !m.is_drop
            && !m.is_constructor {
            seq![
                (
                    m.name@,
                    CompletionKind::Method,
                    Some(method_label(m)),
                    Some(m.name@ + "($1)"@),
                    true,
                ),
            ]
        } else {
            seq![]
        }
    }
}

/// The field items offered after `x.`: public fields (all of them after
/// `this.`).
pub open spec fn field_entries(fs: Seq<FieldInfo>, is_this: bool) -> Seq<EntryView>
    decreases fs.len(),
{
    if fs.len() == 0 {
        seq![]
    } else {
        let f = fs.last();
        field_entries(fs.drop_last(), is_this) + if is_this || f.is_pub {
            seq![
                (
                    f.name@,
                    CompletionKind::Field,
                    Some(f.field_type@ + " "@ + f.name@),
                    None::<Seq<char>>,
                    false,
                ),
            ]
        } else {
            seq![]
        }
    }
}

/// The items offered after `x.` at (`line`, `character`): `x` is `this`
/// (the enclosing class) or a variable whose type a declaration gives; the
/// class of that name offers its methods, then its fields.
pub open spec fn dot_completion_at(
    cs: Seq<ClassInfo>,
    document: Seq<char>,
    line: int,
    character: int,
) -> Option<Seq<EntryView>> {
    let ls = spec_lines(crlf_to_lf(document));
    let var = word_before_dot(ls, line, character);
    if var.len() == 0 {
        None
    } else {
        let is_this = var == "this"@;
        let ty = if is_this {
            enclosing_class(ls, line)
        } else {
            variable_type_in(ls, var)
        };
        match ty {
            None => None,
            Some(t) => if class_map(cs).contains_key(t) {
                let c = class_map(cs)[t];
                Some(method_entries(c.methods@, is_this) + field_entries(c.fields@, is_this))
            } else {
                None
            },
        }
    }
}

/// The completion items after `x.` at (`line`, `character`) of the
/// document.
pub fn dot_completion(table: &SymbolTable, document: &str, line: u32, character: u32) -> (r: Option<
    Vec<CompletionEntry>,
>)
    ensures
        match dot_completion_at(table.classes@, document@, line as int, character as int) {
            Some(items) => r matches Some(v) && entry_views(v@) == items,
            None => r is None,
        },
{
    let source = normalize_newlines(document);
    proof {
        lemma_crlf_len(document@);
    }
    let var_name = get_word_before_dot(source.as_str(), line as usize, character as usize);
    if var_name.as_str().unicode_len() == 0 {
        return None;
    }
    let is_this = str_eq(var_name.as_str(), "this");
    let class_name_found = if is_this {
        match find_enclosing_class(source.as_str(), line as usize) {
            Some(name) => name,
            None => return None,
        }
    } else {
        match find_variable_type(source.as_str(), var_name.as_str()) {
            Some(t) => t,
            None => return None,
        }
    };
    let class = match table.get_class(class_name_found.as_str()) {
        Some(c) => c,
        None => return None,
    };
    let mut items: Vec<CompletionEntry> = Vec::new();
    let ms = &class.methods;
    let mut i: usize = 0;
    assert(ms@.take(0) =~= Seq::<MethodInfo>::empty());
    assert(entry_views(items@) =~= Seq::<EntryView>::empty());
    while i < ms.len()
        invariant
            i <= ms.len(),
            entry_views(items@) == method_entries(ms@.take(i as int), is_this),
        decreases ms.len() - i,
    {
        proof {
            assert(ms@.take(i + 1).drop_last() =~= ms@.take(i as int));
            assert(ms@.take(i + 1).last() == ms@[i as int]);
        }
        let method = &ms[i];
        let ghost prev = items@;
        if (is_this || method.is_pub) && !method.is_drop && !method.is_constructor {
            let detail = method_label_of(method);
            let mut ins = chars_of(method.name.as_str());
            append_str(&mut ins, "($1)");
            let entry = CompletionEntry {
                label: method.name.clone(),
                kind: CompletionKind::Method,
                detail: Some(detail),
                insert_text: Some(string_from_chars(&ins)),
                is_snippet: true,
            };
            items.push(entry);
            assert(entry_views(items@) =~= entry_views(prev).push(entry_view(entry)));
        }
        assert(entry_views(items@) =~= method_entries(ms@.take(i + 1), is_this));
        i = i + 1;
    }
    assert(ms@.take(ms.len() as int) == ms@);
    let ghost after_methods = items@;
    let fs = &class.fields;
    let mut i: usize = 0;
    assert(fs@.take(0) =~= Seq::<FieldInfo>::empty());
    assert(entry_views(items@) =~= entry_views(after_methods) + field_entries(fs@.take(0), is_this));
    while i < fs.len()
        invariant
            i <= fs.len(),
            entry_views(items@) == entry_views(after_methods) + field_entries(
                fs@.take(i as int),
                is_this,
            ),
        decreases fs.len() - i,
    {
        proof {
            assert(fs@.take(i + 1).drop_last() =~= fs@.take(i as int));
            assert(fs@.take(i + 1).last() == fs@[i as int]);
        }
        let field = &fs[i];
        let ghost prev = items@;
        if is_this || field.is_pub {
            let mut detail = chars_of(field.field_type.as_str());
            append_str(&mut detail, " ");
            append_str(&mut detail, field.name.as_str());
            let entry = CompletionEntry {
                label: field.name.clone(),
                kind: CompletionKind::Field,
                detail: Some(string_from_chars(&detail)),
                insert_text: None,
                is_snippet: false,
            };
            items.push(entry);
            assert(entry_views(items@) =~= entry_views(prev).push(entry_view(entry)));
        }
        assert(entry_views(items@) =~= entry_views(after_methods) + field_entries(
            fs@.take(i + 1),
            is_this,
        ));
        i = i + 1;
    }
    assert(fs@.take(fs.len() as int) == fs@);
    Some(items)
}


// ---------------------------------------------------------------------------
// Completion in general
// ---------------------------------------------------------------------------
/// Variable items for (name, type) bindings.
pub open spec fn variable_entries(bs: Seq<Binding>) -> Seq<EntryView> {
    bs.map_values(
        |b: Binding| (b.0, CompletionKind::Variable, Some(b.1), None::<Seq<char>>, false),
    )
}

/// Items that are bare words of kind `k`.
pub open spec fn word_entries(ws: Seq<Seq<char>>, k: CompletionKind) -> Seq<EntryView> {
    ws.map_values(|w: Seq<char>| (w, k, None::<Seq<char>>, None::<Seq<char>>, false))
}

pub open spec fn builtin_types() -> Seq<Seq<char>> {
    seq!["int"@, "char"@, "float"@, "double"@, "void"@, "String"@]
}

pub open spec fn declaration_keywords() -> Seq<Seq<char>> {
    seq![
        "class"@,
        "interface"@,
        "inherit"@,
        "implements"@,
        "pub"@,
        "new"@,
        "this"@,
        "init"@,
        "import"@,
        "from"@,
    ]
}

pub open spec fn statement_keywords() -> Seq<Seq<char>> {
    seq![
        "if"@,
        "else"@,
        "while"@,
        "for"@,
        "switch"@,
        "case"@,
        "break"@,
        "continue"@,
        "return"@,
    ]
}

/// One class item per class of the table, in its order.
pub open spec fn class_entries(cs: Seq<ClassInfo>) -> Seq<EntryView> {
    cs.map_values(
        |c: ClassInfo| (c.name@, CompletionKind::Class, None::<Seq<char>>, None::<Seq<char>>, false),
    )
}

/// The items offered anywhere at `line`: the local variables declared up to
/// it, the parameters of the enclosing method, the built-in types, the
/// keywords, and the classes.
pub open spec fn static_completion_at(cs: Seq<ClassInfo>, document: Seq<char>, line: int) -> Seq<
    EntryView,
> {
    let ls = spec_lines(document);
    variable_entries(bind_all(local_decls(first_lines(ls, line + 1)))) + variable_entries(
        params_at(ls, line),
    ) + word_entries(builtin_types(), CompletionKind::TypeParameter) + word_entries(
        declaration_keywords(),
        CompletionKind::Keyword,
    ) + word_entries(statement_keywords(), CompletionKind::Keyword) + class_entries(cs)
}

/// Which documents `static_completion` can read at `line`: the line
/// exists (and the line after it has a number), and the enclosing signature (if any) can be cut into a
/// parameter list.
pub open spec fn static_completion_ready(document: Seq<char>, line: int) -> bool {
    &&& line < spec_lines(document).len()
    &&& line < usize::MAX
    &&& params_readable(spec_lines(document), line)
}

/// Whether `static_completion` can read `document` at `line`.
pub fn static_completion_ready_at(document: &str, line: u32) -> (r: bool)
    ensures
        r == static_completion_ready(document@, line as int),
{
    let lines = source_lines(document);
    assert(views_of(lines@).len() == lines@.len());
    if line as usize >= lines.len() {
        return false;
    }
    params_readable_at(document, line as usize)
}

fn push_variables(items: &mut Vec<CompletionEntry>, vars: &Vec<(String, String)>)
    ensures
        entry_views(final(items)@) == entry_views(old(items)@) + variable_entries(binding_views(vars@)),
{
    let ghost start = items@;
    let ghost vv = binding_views(vars@);
    let mut i: usize = 0;
    assert(vv.take(0) =~= Seq::<Binding>::empty());
    assert(entry_views(items@) =~= entry_views(start) + variable_entries(vv.take(0)));
    while i < vars.len()
        invariant
            vv == binding_views(vars@),
            i <= vars.len(),
            entry_views(items@) == entry_views(start) + variable_entries(vv.take(i as int)),
        decreases vars.len() - i,
    {
        let ghost prev = items@;
        let entry = CompletionEntry {
            label: vars[i].0.clone(),
            kind: CompletionKind::Variable,
            detail: Some(vars[i].1.clone()),
            insert_text: None,
            is_snippet: false,
        };
        let ghost ev = entry_view(entry);
        items.push(entry);
        assert(vv[i as int] == (vars@[i as int].0@, vars@[i as int].1@));
        assert(ev == (vv[i as int].0, CompletionKind::Variable, Some(vv[i as int].1), None::<Seq<char>>, false));
        assert(entry_views(items@) =~= entry_views(prev).push(ev));
        assert(vv.take(i + 1) =~= vv.take(i as int).push(vv[i as int]));
        assert(variable_entries(vv.take(i + 1)) =~= variable_entries(vv.take(i as int)).push(ev));
        assert(entry_views(items@) =~= entry_views(start) + variable_entries(vv.take(i + 1)));
        i = i + 1;
    }
    assert(vv.take(i as int) == vv);
}

fn push_word(items: &mut Vec<CompletionEntry>, w: &str, k: CompletionKind)
    ensures
        entry_views(final(items)@) == entry_views(old(items)@).push(
            (w@, k, None::<Seq<char>>, None::<Seq<char>>, false),
        ),
{
    let entry = CompletionEntry {
        label: string_of(w),
        kind: k,
        detail: None,
        insert_text: None,
        is_snippet: false,
    };
    items.push(entry);
    assert(entry_views(items@) =~= entry_views(old(items)@).push(entry_view(entry)));
}

fn push_builtin_types(items: &mut Vec<CompletionEntry>)
    ensures
        entry_views(final(items)@) == entry_views(old(items)@) + word_entries(
            builtin_types(),
            CompletionKind::TypeParameter,
        ),
{
    push_word(items, "int", CompletionKind::TypeParameter);
    push_word(items, "char", CompletionKind::TypeParameter);
    push_word(items, "float", CompletionKind::TypeParameter);
    push_word(items, "double", CompletionKind::TypeParameter);
    push_word(items, "void", CompletionKind::TypeParameter);
    push_word(items, "String", CompletionKind::TypeParameter);
    assert(entry_views(items@) =~= entry_views(old(items)@) + word_entries(
        builtin_types(),
        CompletionKind::TypeParameter,
    ));
}

fn push_declaration_keywords(items: &mut Vec<CompletionEntry>)
    ensures
        entry_views(final(items)@) == entry_views(old(items)@) + word_entries(
            declaration_keywords(),
            CompletionKind::Keyword,
        ),
{
    push_word(items, "class", CompletionKind::Keyword);
    push_word(items, "interface", CompletionKind::Keyword);
    push_word(items, "inherit", CompletionKind::Keyword);
    push_word(items, "implements", CompletionKind::Keyword);
    push_word(items, "pub", CompletionKind::Keyword);
    push_word(items, "new", CompletionKind::Keyword);
    push_word(items, "this", CompletionKind::Keyword);
    push_word(items, "init", CompletionKind::Keyword);
    push_word(items, "import", CompletionKind::Keyword);
    push_word(items, "from", CompletionKind::Keyword);
    assert(entry_views(items@) =~= entry_views(old(items)@) + word_entries(
        declaration_keywords(),
        CompletionKind::Keyword,
    ));
}

fn push_statement_keywords(items: &mut Vec<CompletionEntry>)
    ensures
        entry_views(final(items)@) == entry_views(old(items)@) + word_entries(
            statement_keywords(),
            CompletionKind::Keyword,
        ),
{
    push_word(items, "if", CompletionKind::Keyword);
    push_word(items, "else", CompletionKind::Keyword);
    push_word(items, "while", CompletionKind::Keyword);
    push_word(items, "for", CompletionKind::Keyword);
    push_word(items, "switch", CompletionKind::Keyword);
    push_word(items, "case", CompletionKind::Keyword);
    push_word(items, "break", CompletionKind::Keyword);
    push_word(items, "continue", CompletionKind::Keyword);
    push_word(items, "return", CompletionKind::Keyword);
    assert(entry_views(items@) =~= entry_views(old(items)@) + word_entries(
        statement_keywords(),
        CompletionKind::Keyword,
    ));
}

fn push_class_names(items: &mut Vec<CompletionEntry>, table: &SymbolTable)
    ensures
        entry_views(final(items)@) == entry_views(old(items)@) + class_entries(table.classes@),
{
    let ghost start = entry_views(items@);
    let ghost cs = table.classes@;
    let mut k: usize = 0;
    assert(cs.take(0) =~= Seq::<ClassInfo>::empty());
    assert(entry_views(items@) =~= start + class_entries(cs.take(0)));
    while k < table.classes.len()
        invariant
            cs == table.classes@,
            start == entry_views(old(items)@),
            k <= cs.len(),
            entry_views(items@) == start + class_entries(cs.take(k as int)),
        decreases cs.len() - k,
    {
        let ghost prev = items@;
        let entry = CompletionEntry {
            label: table.classes[k].name.clone(),
            kind: CompletionKind::Class,
            detail: None,
            insert_text: None,
            is_snippet: false,
        };
        let ghost ev = entry_view(entry);
        items.push(entry);
        assert(ev == (cs[k as int].name@, CompletionKind::Class, None::<Seq<char>>, None::<Seq<char>>, false));
        assert(entry_views(items@) =~= entry_views(prev).push(ev));
        assert(cs.take(k + 1) =~= cs.take(k as int).push(cs[k as int]));
        assert(class_entries(cs.take(k + 1)) =~= class_entries(cs.take(k as int)).push(ev));
        assert(entry_views(items@) =~= start + class_entries(cs.take(k + 1)));
        k = k + 1;
    }
    assert(cs.take(cs.len() as int) == cs);
}

/// The completion items offered at `line` of the document when no `.` was
/// typed.
pub fn static_completion(table: &SymbolTable, document: &str, line: u32) -> (r: Vec<
    CompletionEntry,
>)
    requires
        static_completion_ready(document@, line as int),
    ensures
        entry_views(r@) == static_completion_at(table.classes@, document@, line as int),
{
    let mut items: Vec<CompletionEntry> = Vec::new();
    assert(entry_views(items@) =~= Seq::<EntryView>::empty());
    proof {
        lemma_lines_count(document@);
    }
    let locals = collect_local_vars(document, line as usize);
    push_variables(&mut items, &locals);
    let params = collect_params(document, line as usize);
    push_variables(&mut items, &params);
    push_builtin_types(&mut items);
    push_declaration_keywords(&mut items);
    push_statement_keywords(&mut items);
    push_class_names(&mut items, table);
    items
}

/// The completion items at (`line`, `character`): after a typed `.` those
/// of `dot_completion` (none without an open document), otherwise those of
/// `static_completion` over the open document.
pub fn completion(
    table: &SymbolTable,
    dot_typed: bool,
    document: Option<&str>,
    line: u32,
    character: u32,
) -> (r: Option<Vec<CompletionEntry>>)
    requires
        !dot_typed ==> document is Some && static_completion_ready(document->0@, line as int),
    ensures
        dot_typed ==> match document {
            Some(d) => match dot_completion_at(table.classes@, d@, line as int, character as int) {
                Some(items) => r matches Some(v) && entry_views(v@) == items,
                None => r is None,
            },
            None => r is None,
        },
        !dot_typed ==> (r matches Some(v) && entry_views(v@) == static_completion_at(
            table.classes@,
            document->0@,
            line as int,
        )),
{
    if dot_typed {
        match document {
            Some(d) => dot_completion(table, d, line, character),
            None => None,
        }
    } else {
        Some(static_completion(table, document.unwrap(), line))
    }
}

/// The completion items at (`line`, `character`) where `completion` can
/// read the document: after a typed `.` always; otherwise only when an open
/// document is ready at `line` (`static_completion_ready`), and None when
/// it is not.
pub fn completion_if_ready(
    table: &SymbolTable,
    dot_typed: bool,
    document: Option<&str>,
    line: u32,
    character: u32,
) -> (r: Option<Vec<CompletionEntry>>)
    ensures
        dot_typed ==> match document {
            Some(d) => match dot_completion_at(table.classes@, d@, line as int, character as int) {
                Some(items) => r matches Some(v) && entry_views(v@) == items,
                None => r is None,
            },
            None => r is None,
        },
        !dot_typed ==> match document {
            Some(d) => if static_completion_ready(d@, line as int) {
                r matches Some(v) && entry_views(v@) == static_completion_at(
                    table.classes@,
                    d@,
                    line as int,
                )
            } else {
                r is None
            },
            None => r is None,
        },
{
    if !dot_typed {
        match document {
            Some(d) => {
                if !static_completion_ready_at(d, line) {
                    return None;
                }
            },
            None => {
                return None;
            },
        }
    }
    completion(table, dot_typed, document, line, character)
}

// ---------------------------------------------------------------------------
// What the labels and the hover text hold
// ---------------------------------------------------------------------------
/// `s` stands somewhere in `t`, as a contiguous stretch.
pub open spec fn occurs_in(s: Seq<char>, t: Seq<char>) -> bool {
    exists|i: int| 0 <= i && i + s.len() <= t.len() && #[trigger] t.subrange(i, i + s.len()) == s
}

proof fn lemma_occurs_at(s: Seq<char>, t: Seq<char>, i: int)
    requires
        0 <= i,
        i + s.len() <= t.len(),
        t.subrange(i, i + s.len()) =~= s,
    ensures
        occurs_in(s, t),
{
}

proof fn lemma_occurs_within(s: Seq<char>, a: Seq<char>, t: Seq<char>, b: Seq<char>)
    requires
        occurs_in(s, t),
    ensures
        occurs_in(s, a + t + b),
{
    let i = choose|i: int|
        0 <= i && i + s.len() <= t.len() && #[trigger] t.subrange(i, i + s.len()) == s;
    let u = a + t + b;
    assert(u.subrange(a.len() + i, a.len() + i + s.len()) =~= t.subrange(i, i + s.len()));
    lemma_occurs_at(s, u, a.len() + i);
}

/// `join_comma(ws)` begins with `ws[0]` and ends with its last string.
proof fn lemma_join_ends(ws: Seq<Seq<char>>)
    requires
        ws.len() > 0,
    ensures
        join_comma(ws).len() >= ws[0].len(),
        join_comma(ws).len() >= ws.last().len(),
        join_comma(ws).subrange(0, ws[0].len() as int) == ws[0],
        join_comma(ws).subrange(join_comma(ws).len() - ws.last().len(), join_comma(ws).len() as int)
            == ws.last(),
    decreases ws.len(),
{
    let j = join_comma(ws);
    if ws.len() == 1 {
        assert(j.subrange(0, ws[0].len() as int) =~= ws[0]);
        assert(j.subrange(j.len() - ws.last().len(), j.len() as int) =~= ws.last());
    } else {
        let f = ws.drop_last();
        lemma_join_ends(f);
        assert(f[0] == ws[0]);
        let jf = join_comma(f);
        assert(j == jf + ", "@ + ws.last());
        assert(j.subrange(0, ws[0].len() as int) =~= jf.subrange(0, ws[0].len() as int));
        assert(j.subrange(j.len() - ws.last().len(), j.len() as int) =~= ws.last());
    }
}

/// Every string of `ws` stands in `join_comma(ws)`, each next to the one
/// after it with `, ` between them.
proof fn lemma_join_holds(ws: Seq<Seq<char>>, k: int)
    requires
        0 <= k < ws.len(),
    ensures
        occurs_in(ws[k], join_comma(ws)),
        k + 1 < ws.len() ==> occurs_in(ws[k] + ", "@ + ws[k + 1], join_comma(ws)),
    decreases ws.len(),
{
    reveal_strlit(", ");
    let j = join_comma(ws);
    if ws.len() == 1 {
        assert(j.subrange(0, ws[0].len() as int) =~= ws[0]);
        lemma_occurs_at(ws[k], j, 0);
    } else {
        let f = ws.drop_last();
        let jf = join_comma(f);
        let l = ws.last();
        assert(j == jf + ", "@ + l);
        if k == ws.len() - 1 {
            assert(j.subrange(jf.len() + 2int, j.len() as int) =~= l);
            lemma_occurs_at(ws[k], j, jf.len() + 2int);
        } else {
            lemma_join_holds(f, k);
            assert(f[k] == ws[k]);
            lemma_occurs_within(ws[k], Seq::empty(), jf, ", "@ + l);
            assert(Seq::<char>::empty() + jf + (", "@ + l) =~= j);
            if k + 1 < ws.len() - 1 {
                assert(f[k + 1] == ws[k + 1]);
                lemma_occurs_within(ws[k] + ", "@ + ws[k + 1], Seq::empty(), jf, ", "@ + l);
            } else if k + 1 == ws.len() - 1 {
                lemma_join_ends(f);
                assert(f.last() == ws[k]);
                let pair = ws[k] + ", "@ + ws[k + 1];
                let at = jf.len() - ws[k].len();
                assert(j.subrange(at, at + pair.len()) =~= pair) by {
                    assert(jf.subrange(at, jf.len() as int) == ws[k]);
                    assert forall|m: int| 0 <= m < pair.len() implies j.subrange(at, at + pair.len())[m]
                        == pair[m] by {
                        if m < ws[k].len() {
                            assert(jf.subrange(at, jf.len() as int)[m] == jf[at + m]);
                        }
                    }
                }
                lemma_occurs_at(pair, j, at);
            }
        }
    }
}

/// The hover text names every interface that the class implements: each
/// one stands in it, each next to the one after it with `, ` between them,
/// the first right after `implements: ` and a backquote, the last right
/// before a backquote.
pub proof fn law_hover_lists_every_interface(c: ClassInfo)
    ensures
        forall|k: int|
            0 <= k < c.implements@.len() ==> occurs_in(
                #[trigger] c.implements@[k]@,
                hover_markdown(c),
            ),
        forall|k: int|
            0 <= k < c.implements@.len() - 1 ==> occurs_in(
                #[trigger] c.implements@[k]@ + ", "@ + c.implements@[k + 1]@,
                hover_markdown(c),
            ),
        c.implements@.len() > 0 ==> occurs_in(
            "implements: `"@ + c.implements@[0]@,
            hover_markdown(c),
        ),
        c.implements@.len() > 0 ==> occurs_in(
            c.implements@[c.implements@.len() - 1]@ + "`"@,
            hover_markdown(c),
        ),
{
    reveal_strlit("\n\nimplements: `");
    reveal_strlit("implements: `");
    reveal_strlit("`");
    reveal_strlit(", ");
    let ws = names_of(c.implements@);
    let before = "**class "@ + c.name@ + "**"@ + hover_parent(c);
    let after = hover_fields(c) + hover_methods(c);
    if ws.len() > 0 {
        let j = join_comma(ws);
        let mid = "\n\nimplements: `"@ + j + "`"@;
        assert(hover_markdown(c) =~= before + mid + after);
        assert forall|k: int| 0 <= k < c.implements@.len() implies occurs_in(
            #[trigger] c.implements@[k]@,
            hover_markdown(c),
        ) by {
            lemma_join_holds(ws, k);
            assert(ws[k] == c.implements@[k]@);
            lemma_occurs_within(ws[k], "\n\nimplements: `"@, j, "`"@);
            lemma_occurs_within(ws[k], before, mid, after);
        }
        assert forall|k: int| 0 <= k < c.implements@.len() - 1 implies occurs_in(
            #[trigger] c.implements@[k]@ + ", "@ + c.implements@[k + 1]@,
            hover_markdown(c),
        ) by {
            lemma_join_holds(ws, k);
            assert(ws[k] == c.implements@[k]@);
            assert(ws[k + 1] == c.implements@[k + 1]@);
            let pair = ws[k] + ", "@ + ws[k + 1];
            lemma_occurs_within(pair, "\n\nimplements: `"@, j, "`"@);
            lemma_occurs_within(pair, before, mid, after);
        }
        lemma_join_ends(ws);
        assert(ws[0] == c.implements@[0]@);
        assert(ws.last() == c.implements@[c.implements@.len() - 1]@);
        let head = "implements: `"@ + ws[0];
        assert(mid.subrange(2, 2int + head.len()) =~= head) by {
            assert forall|m: int| 0 <= m < head.len() implies mid.subrange(2, 2int + head.len())[m]
                == head[m] by {
                if m >= 13 {
                    assert(j.subrange(0, ws[0].len() as int)[m - 13] == j[m - 13]);
                }
            }
        }
        lemma_occurs_at(head, mid, 2);
        lemma_occurs_within(head, before, mid, after);
        let tail = ws.last() + "`"@;
        let at = 15 + j.len() - ws.last().len();
        assert(mid.subrange(at, at + tail.len()) =~= tail) by {
            assert forall|m: int| 0 <= m < tail.len() implies mid.subrange(at, at + tail.len())[m]
                == tail[m] by {
                if m < ws.last().len() {
                    assert(j.subrange(j.len() - ws.last().len(), j.len() as int)[m] == j[j.len()
                        - ws.last().len() + m]);
                }
            }
        }
        lemma_occurs_at(tail, mid, at);
        lemma_occurs_within(tail, before, mid, after);
    }
}

/// A method's label and its constructor label share one parameter list;
/// that list holds every parameter as `Type name`, each next to the one
/// after it with `, ` between them, the first right after `name(` and the
/// last right before `) -> ` and the return type.
pub proof fn law_method_label_lists_every_parameter(m: MethodInfo)
    ensures
        exists|p: Seq<char>|
            init_label(m) == "init("@ + p + ")"@ && #[trigger] method_label(m) == m.name@ + "("@ + p
                + ") -> "@ + m.return_type@,
        m.params@.len() == 0 ==> method_label(m) == m.name@ + "() -> "@ + m.return_type@,
        forall|k: int|
            0 <= k < m.params@.len() ==> occurs_in(
                #[trigger] m.params@[k].0@ + " "@ + m.params@[k].1@,
                method_label(m),
            ),
        forall|k: int|
            0 <= k < m.params@.len() - 1 ==> occurs_in(
                #[trigger] m.params@[k].0@ + " "@ + m.params@[k].1@ + ", "@ + m.params@[k + 1].0@
                    + " "@ + m.params@[k + 1].1@,
                method_label(m),
            ),
        m.params@.len() > 0 ==> occurs_in(
            m.name@ + "("@ + m.params@[0].0@ + " "@ + m.params@[0].1@,
            method_label(m),
        ),
        m.params@.len() > 0 ==> occurs_in(
            m.params@[m.params@.len() - 1].0@ + " "@ + m.params@[m.params@.len() - 1].1@ + ") -> "@
                + m.return_type@,
            method_label(m),
        ),
{
    reveal_strlit("(");
    reveal_strlit(") -> ");
    reveal_strlit("() -> ");
    reveal_strlit(", ");
    let ws = param_labels(binding_views(m.params@));
    let j = join_comma(ws);
    let before = m.name@ + "("@;
    let after = ") -> "@ + m.return_type@;
    assert(method_label(m) =~= before + j + after);
    assert(init_label(m) == "init("@ + j + ")"@);
    assert(method_label(m) == m.name@ + "("@ + j + ") -> "@ + m.return_type@);
    assert forall|k: int| 0 <= k < ws.len() implies #[trigger] ws[k] == m.params@[k].0@ + " "@
        + m.params@[k].1@ by {}
    if ws.len() == 0 {
        assert(j =~= Seq::<char>::empty());
        assert(method_label(m) =~= m.name@ + "() -> "@ + m.return_type@);
    } else {
        assert forall|k: int| 0 <= k < m.params@.len() implies occurs_in(
            #[trigger] m.params@[k].0@ + " "@ + m.params@[k].1@,
            method_label(m),
        ) by {
            lemma_join_holds(ws, k);
            assert(ws[k] == m.params@[k].0@ + " "@ + m.params@[k].1@);
            lemma_occurs_within(ws[k], before, j, after);
        }
        assert forall|k: int| 0 <= k < m.params@.len() - 1 implies occurs_in(
            #[trigger] m.params@[k].0@ + " "@ + m.params@[k].1@ + ", "@ + m.params@[k + 1].0@
                + " "@ + m.params@[k + 1].1@,
            method_label(m),
        ) by {
            lemma_join_holds(ws, k);
            assert(ws[k] == m.params@[k].0@ + " "@ + m.params@[k].1@);
            assert(ws[k + 1] == m.params@[k + 1].0@ + " "@ + m.params@[k + 1].1@);
            let pair = ws[k] + ", "@ + ws[k + 1];
            assert(pair =~= m.params@[k].0@ + " "@ + m.params@[k].1@ + ", "@ + m.params@[k + 1].0@
                + " "@ + m.params@[k + 1].1@);
            lemma_occurs_within(pair, before, j, after);
        }
        lemma_join_ends(ws);
        let head = before + ws[0];
        let lab = before + j + after;
        assert(lab.subrange(0, head.len() as int) =~= head) by {
            assert forall|q: int| 0 <= q < head.len() implies lab.subrange(0, head.len() as int)[q]
                == head[q] by {
                if q >= before.len() {
                    assert(j.subrange(0, ws[0].len() as int)[q - before.len()] == j[q - before.len()]);
                }
            }
        }
        lemma_occurs_at(head, lab, 0);
        assert(head =~= m.name@ + "("@ + m.params@[0].0@ + " "@ + m.params@[0].1@);
        let last = m.params@.len() - 1;
        assert(ws.last() == ws[last]);
        let tail = ws.last() + after;
        let at = before.len() + j.len() - ws.last().len();
        assert(lab.subrange(at, at + tail.len()) =~= tail) by {
            assert forall|q: int| 0 <= q < tail.len() implies lab.subrange(at, at + tail.len())[q]
                == tail[q] by {
                if q < ws.last().len() {
                    assert(j.subrange(j.len() - ws.last().len(), j.len() as int)[q] == j[j.len()
                        - ws.last().len() + q]);
                }
            }
        }
        lemma_occurs_at(tail, lab, at);
        assert(tail =~= m.params@[last].0@ + " "@ + m.params@[last].1@ + ") -> "@ + m.return_type@);
    }
}

} // verus!
