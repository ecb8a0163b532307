//! Reading a Sea document around the cursor: the word under or before the
//! cursor, the call the cursor sits in, the enclosing class, and the
//! variables and parameters in scope. Everything here is a function of the
//! document text alone.
use vstd::prelude::*;
use crate::bindings::{Binding, bind, bind_all, binding_views, bind_name};
use crate::text::{
    CharClass, spec_lines, spec_trim, spec_words, trim_end_where, class_pred, is_word_char,
    views_of, char_is_word, string_from_chars, source_lines, copy_range, chars_of, chars_equal,
    trim_chars, split_words, trim_end_chars, joined_lines, join_first_lines, append_chars,
    lemma_lines_length, lemma_joined_push, opt_view, spec_starts_with, starts_with,
    spec_ends_with, ends_with, chars_equal_str, index_of, last_index_of, find_char, rfind_char,
    split_commas, split_at_commas, lemma_index_of, lemma_last_index_of,
};

verus! {

// ---------------------------------------------------------------------------
// Identifier runs
// ---------------------------------------------------------------------------
/// Where the run of identifier characters that ends at `i` starts.
pub open spec fn word_start(l: Seq<char>, i: int) -> int
    decreases i,
{
    if 0 < i <= l.len() && is_word_char(l[i - 1]) {
        word_start(l, i - 1)
    } else {
        i
    }
}

/// Where the run of identifier characters that starts at `i` ends.
pub open spec fn word_end(l: Seq<char>, i: int) -> int
    decreases l.len() - i,
{
    if 0 <= i < l.len() && is_word_char(l[i]) {
        word_end(l, i + 1)
    } else {
        i
    }
}

pub proof fn lemma_word_start(l: Seq<char>, i: int)
    requires
        0 <= i <= l.len(),
    ensures
        0 <= word_start(l, i) <= i,
        forall|m: int| word_start(l, i) <= m < i ==> is_word_char(#[trigger] l[m]),
        word_start(l, i) == 0 || !is_word_char(l[word_start(l, i) - 1]),
    decreases i,
{
    if 0 < i && is_word_char(l[i - 1]) {
        lemma_word_start(l, i - 1);
    }
}

pub proof fn lemma_word_end(l: Seq<char>, i: int)
    requires
        0 <= i <= l.len(),
    ensures
        i <= word_end(l, i) <= l.len(),
        forall|m: int| i <= m < word_end(l, i) ==> is_word_char(#[trigger] l[m]),
        word_end(l, i) == l.len() || !is_word_char(l[word_end(l, i)]),
    decreases l.len() - i,
{
    if i < l.len() && is_word_char(l[i]) {
        lemma_word_end(l, i + 1);
    }
}

/// The start of the identifier run that ends at `i`.
pub fn find_word_start(l: &Vec<char>, i: usize) -> (r: usize)
    requires
        i <= l.len(),
    ensures
        r == word_start(l@, i as int),
{
    let mut start = i;
    while start > 0 && char_is_word(l[start - 1])
        invariant
            start <= i <= l.len(),
            word_start(l@, start as int) == word_start(l@, i as int),
        decreases start,
    {
        start = start - 1;
    }
    start
}

/// The end of the identifier run that starts at `i`.
pub fn find_word_end(l: &Vec<char>, i: usize) -> (r: usize)
    requires
        i <= l.len(),
    ensures
        r == word_end(l@, i as int),
{
    let mut end = i;
    while end < l.len() && char_is_word(l[end])
        invariant
            i <= end <= l.len(),
            word_end(l@, end as int) == word_end(l@, i as int),
        decreases l.len() - end,
    {
        end = end + 1;
    }
    end
}

/// The identifier under the cursor at (`line`, `character`): the run of
/// identifier characters around that position on that line. Empty when the
/// position is past the end of the document or of the line.
pub open spec fn word_at(lines: Seq<Seq<char>>, line: int, character: int) -> Seq<char> {
    if line >= lines.len() {
        seq![]
    } else {
        let l = lines[line];
        if character >= l.len() {
            seq![]
        } else {
            l.subrange(word_start(l, character), word_end(l, character))
        }
    }
}

/// The identifier right before the `.` that precedes the cursor; empty when
/// the character before the cursor is not a `.`.
pub open spec fn word_before_dot(lines: Seq<Seq<char>>, line: int, character: int) -> Seq<
    char,
> {
    if line >= lines.len() || character == 0 {
        seq![]
    } else {
        let l = lines[line];
        let dot = character - 1;
        if dot >= l.len() || l[dot] != '.' {
            seq![]
        } else {
            l.subrange(word_start(l, dot), dot)
        }
    }
}

/// The identifier at a position of `source`.
pub fn get_word_at_position(source: &str, line: usize, character: usize) -> (r: String)
    ensures
        r@ == word_at(spec_lines(source@), line as int, character as int),
        forall|m: int| 0 <= m < r@.len() ==> is_word_char(#[trigger] r@[m]),
{
    let lines = source_lines(source);
    let ghost ls = spec_lines(source@);
    if line >= lines.len() {
        return string_from_chars(&Vec::new());
    }
    assert(lines@[line as int]@ == ls[line as int]);
    let chars = &lines[line];
    if character >= chars.len() {
        return string_from_chars(&Vec::new());
    }
    let start = find_word_start(chars, character);
    let end = find_word_end(chars, character);
    proof {
        lemma_word_start(chars@, character as int);
        lemma_word_end(chars@, character as int);
    }
    let w = copy_range(chars, start, end);
    string_from_chars(&w)
}

/// The identifier before the `.` that precedes a position of `source`.
pub fn get_word_before_dot(source: &str, line: usize, character: usize) -> (r: String)
    ensures
        r@ == word_before_dot(spec_lines(source@), line as int, character as int),
        forall|m: int| 0 <= m < r@.len() ==> is_word_char(#[trigger] r@[m]),
{
    let lines = source_lines(source);
    let ghost ls = spec_lines(source@);
    if line >= lines.len() {
        return string_from_chars(&Vec::new());
    }
    assert(lines@[line as int]@ == ls[line as int]);
    let chars = &lines[line];
    if character == 0 {
        return string_from_chars(&Vec::new());
    }
    let dot_pos = character - 1;
    if dot_pos >= chars.len() || chars[dot_pos] != '.' {
        return string_from_chars(&Vec::new());
    }
    let start = find_word_start(chars, dot_pos);
    proof {
        lemma_word_start(chars@, dot_pos as int);
    }
    let w = copy_range(chars, start, dot_pos);
    string_from_chars(&w)
}

// ---------------------------------------------------------------------------
// Declarations of the form `Type name...`
// ---------------------------------------------------------------------------
/// The first two white-space separated words of a trimmed line, the second
/// with trailing characters of class `k` dropped: the type and name that the
/// line declares, if it has two words.
pub open spec fn declaration(line: Seq<char>, k: CharClass) -> Option<(Seq<char>, Seq<char>)> {
    let parts = spec_words(spec_trim(line));
    if parts.len() >= 2 {
        Some((parts[0], trim_end_where(parts[1], class_pred(k))))
    } else {
        None
    }
}

/// The declaration a line holds, if any.
pub fn line_declaration(line: &Vec<char>, k: CharClass) -> (r: Option<(Vec<char>, Vec<char>)>)
    ensures
        match r {
            Some((t, n)) => declaration(line@, k) == Some((t@, n@)),
            None => declaration(line@, k) is None,
        },
{
    let trimmed = trim_chars(line, CharClass::Whitespace);
    let parts = split_words(&trimmed);
    if parts.len() >= 2 {
        proof {
            assert(parts@[0]@ == spec_words(spec_trim(line@))[0]);
            assert(parts@[1]@ == spec_words(spec_trim(line@))[1]);
        }
        let ty = copy_range(&parts[0], 0, parts[0].len());
        let name = trim_end_chars(&parts[1], k);
        assert(ty@ == parts@[0]@);
        Some((ty, name))
    } else {
        None
    }
}

/// The type that the first line declaring `var` gives it.
pub open spec fn variable_type_in(lines: Seq<Seq<char>>, var: Seq<char>) -> Option<Seq<char>>
    decreases lines.len(),
{
    if lines.len() == 0 {
        None
    } else {
        match declaration(lines[0], CharClass::DeclarationEnd) {
            Some((t, n)) if n == var => Some(t),
            _ => variable_type_in(lines.drop_first(), var),
        }
    }
}

/// The type of variable `var_name`, read off the first line of `source` of
/// the form `Type var_name` (the name may end in `;` or `=`).
pub fn find_variable_type(source: &str, var_name: &str) -> (r: Option<String>)
    ensures
        match r {
            Some(t) => variable_type_in(spec_lines(source@), var_name@) == Some(t@),
            None => variable_type_in(spec_lines(source@), var_name@) is None,
        },
{
    let lines = source_lines(source);
    let ghost ls = spec_lines(source@);
    let var = chars_of(var_name);
    let mut i: usize = 0;
    assert(ls.skip(0) == ls);
    while i < lines.len()
        invariant
            views_of(lines@) == ls,
            ls == spec_lines(source@),
            var@ == var_name@,
            i <= lines.len(),
            variable_type_in(ls.skip(i as int), var@) == variable_type_in(ls, var@),
        decreases lines.len() - i,
    {
        let ghost rest = ls.skip(i as int);
        assert(lines@[i as int]@ == ls[i as int]);
        assert(rest[0] == ls[i as int]);
        assert(rest.drop_first() == ls.skip(i + 1));
        match line_declaration(&lines[i], CharClass::DeclarationEnd) {
            Some((ty, name)) => {
                if chars_equal(&name, &var) {
                    assert(declaration(rest[0], CharClass::DeclarationEnd) == Some((ty@, name@)));
                    assert(variable_type_in(rest, var@) == Some(ty@));
                    return Some(string_from_chars(&ty));
                }
            },
            None => {},
        }
        i = i + 1;
    }
    None
}

// ---------------------------------------------------------------------------
// Active parameter
// ---------------------------------------------------------------------------
/// The active parameter shown for a signature with `param_count`
/// parameters: the cursor's comma count, capped at the last parameter.
pub open spec fn clamped_param(active_param: u32, param_count: usize) -> u32 {
    if param_count == 0 {
        0
    } else if active_param <= (param_count as u32) - 1 {
        active_param
    } else {
        ((param_count as u32) - 1) as u32
    }
}

pub fn clamp_active_param(active_param: u32, param_count: usize) -> (r: Option<u32>)
    requires
        param_count == 0 || param_count as u32 != 0,
    ensures
        r == Some(clamped_param(active_param, param_count)),
        param_count > 0 && param_count <= u32::MAX ==> r->0 < param_count,
{
    if param_count == 0 {
        return Some(0);
    }
    let last = param_count as u32 - 1;
    if active_param <= last {
        Some(active_param)
    } else {
        Some(last)
    }
}


// ---------------------------------------------------------------------------
// The call around the cursor
// ---------------------------------------------------------------------------
/// The document text before the cursor, one `\n` after each earlier line.
pub open spec fn text_before(lines: Seq<Seq<char>>, line: int, character: int) -> Seq<char> {
    let l = lines[line];
    joined_lines(lines.take(line)) + l.take(if character <= l.len() {
        character
    } else {
        l.len() as int
    })
}

pub open spec fn paren_delta(c: char) -> int {
    if c == ')' {
        1
    } else if c == '(' {
        -1
    } else {
        0
    }
}

/// The number of `)` in `t` less the number of `(`.
pub open spec fn paren_balance(t: Seq<char>) -> int
    decreases t.len(),
{
    if t.len() == 0 {
        0
    } else {
        paren_delta(t[0]) + paren_balance(t.drop_first())
    }
}

/// Position `q` of `t` holds a `(` that every later parenthesis in `t` is
/// matched inside of: the `(` of a call that is still open at the end of `t`.
pub open spec fn opens_pending_call(t: Seq<char>, q: int) -> bool {
    0 <= q < t.len() && t[q] == '(' && paren_balance(t.skip(q + 1)) == 0
}

/// The innermost call still open at the end of `t`.
pub open spec fn is_innermost_open_call(t: Seq<char>, q: int) -> bool {
    opens_pending_call(t, q) && forall|r: int| q < r < t.len() ==> !opens_pending_call(t, r)
}

/// The commas of `t` outside any parentheses that close within `t`.
pub open spec fn top_level_commas(t: Seq<char>) -> nat
    decreases t.len(),
{
    if t.len() == 0 {
        0
    } else {
        (if t[0] == ',' && paren_balance(t.drop_first()) == 0 {
            1nat
        } else {
            0nat
        }) + top_level_commas(t.drop_first())
    }
}

/// The call whose argument list `t` ends inside: the identifier right before
/// its `(` and how many of its arguments lie before the end of `t` (its
/// top-level commas). None when every `(` in `t` is closed.
pub open spec fn enclosing_call(t: Seq<char>) -> Option<(Seq<char>, nat)> {
    if exists|q: int| is_innermost_open_call(t, q) {
        let q = choose|q: int| is_innermost_open_call(t, q);
        Some((t.subrange(word_start(t, q), q), top_level_commas(t.skip(q + 1))))
    } else {
        None
    }
}

pub proof fn lemma_innermost_unique(t: Seq<char>, q: int, r: int)
    requires
        is_innermost_open_call(t, q),
        is_innermost_open_call(t, r),
    ensures
        q == r,
{
}

/// Every `(` of `a` is closed within `a`.
pub open spec fn all_calls_closed(a: Seq<char>) -> bool {
    forall|q: int| 0 <= q < a.len() ==> !opens_pending_call(a, q)
}

pub proof fn lemma_word_start_is(l: Seq<char>, i: int, s: int)
    requires
        0 <= s <= i <= l.len(),
        forall|m: int| s <= m < i ==> is_word_char(#[trigger] l[m]),
        s == 0 || !is_word_char(l[s - 1]),
    ensures
        word_start(l, i) == s,
    decreases i,
{
    if i > s {
        lemma_word_start_is(l, i - 1, s);
    }
}

/// The call that text ending inside an argument list is in is the
/// identifier before the last `(` left open; calls opened and closed inside
/// the arguments (`foo(bar(1, 2), ` is in `foo`) are passed over, and only
/// the commas outside them count.
pub proof fn law_enclosing_call_skips_closed_calls(pre: Seq<char>, w: Seq<char>, a: Seq<char>)
    requires
        forall|i: int| 0 <= i < w.len() ==> is_word_char(#[trigger] w[i]),
        pre.len() == 0 || !is_word_char(pre.last()),
        paren_balance(a) == 0,
        all_calls_closed(a),
    ensures
        enclosing_call(pre + w + seq!['('] + a) == Some((w, top_level_commas(a))),
{
    let t = pre + w + seq!['('] + a;
    let q0: int = (pre.len() + w.len()) as int;
    assert(t[q0 as int] == '(');
    assert(t.skip(q0 + 1) =~= a);
    assert forall|r: int| q0 < r < t.len() implies !opens_pending_call(t, r) by {
        assert(t[r] == a[r - q0 - 1]);
        assert(t.skip(r + 1) =~= a.skip(r - q0));
        assert(!opens_pending_call(a, r - q0 - 1));
    }
    assert(is_innermost_open_call(t, q0 as int));
    let q = choose|q: int| is_innermost_open_call(t, q);
    lemma_innermost_unique(t, q, q0 as int);
    assert forall|m: int| pre.len() <= m < q0 implies is_word_char(#[trigger] t[m]) by {
        assert(t[m] == w[m - pre.len()]);
    }
    if pre.len() > 0 {
        assert(t[pre.len() - 1] == pre.last());
    }
    lemma_word_start_is(t, q0 as int, pre.len() as int);
    assert(t.subrange(pre.len() as int, q0 as int) =~= w);
}

/// The call around the cursor at (`line`, `character`): the callee's name
/// and the index of the argument the cursor is in. The search runs backward
/// over earlier lines too, so an argument list may span several lines.
pub fn find_enclosing_call(source: &str, line: usize, character: usize) -> (r: Option<(String, u32)>)
    ensures
        line >= spec_lines(source@).len() ==> r is None,
        line < spec_lines(source@).len() ==> match enclosing_call(
            text_before(spec_lines(source@), line as int, character as int),
        ) {
            Some((name, commas)) => r matches Some((w, c)) && w@ == name && c == commas as u32,
            None => r is None,
        },
{
    let lines = source_lines(source);
    let ghost ls = spec_lines(source@);
    if line >= lines.len() {
        return None;
    }
    proof {
        lemma_lines_length(source@, line as int);
    }
    let mut t = join_first_lines(&lines, line);
    let cur = &lines[line];
    let stop = if character <= cur.len() {
        character
    } else {
        cur.len()
    };
    let head = copy_range(cur, 0, stop);
    append_chars(&mut t, &head);
    assert(cur@ == ls[line as int]);
    assert(t@ == text_before(ls, line as int, character as int));
    let n = t.len();
    let mut i = n;
    let mut depth: usize = 0;
    let mut comma_count: usize = 0;
    assert(t@.skip(n as int) =~= Seq::<char>::empty());
    while i > 0
        invariant
            n == t.len(),
            line < spec_lines(source@).len(),
            t@ == text_before(spec_lines(source@), line as int, character as int),
            i <= n,
            depth >= 0,
            depth <= n - i,
            comma_count <= n - i,
            depth as int == paren_balance(t@.skip(i as int)),
            comma_count as nat == top_level_commas(t@.skip(i as int)),
            forall|r: int| i <= r < n ==> !opens_pending_call(t@, r),
        decreases i,
    {
        let ghost suffix = t@.skip(i as int);
        proof {
            assert(t@.skip(i - 1).drop_first() =~= suffix);
            assert(t@.skip(i - 1)[0] == t@[i - 1]);
        }
        i = i - 1;
        let c = t[i];
        if c == ')' {
            depth = depth + 1;
        } else if c == '(' {
            if depth == 0 {
                let start = find_word_start(&t, i);
                proof {
                    lemma_word_start(t@, i as int);
                    assert(is_innermost_open_call(t@, i as int));
                    let q = choose|q: int| is_innermost_open_call(t@, q);
                    lemma_innermost_unique(t@, q, i as int);
                }
                let w = copy_range(&t, start, i);
                return Some((string_from_chars(&w), comma_count as u32));
            } else {
                depth = depth - 1;
            }
        } else if c == ',' && depth == 0 {
            comma_count = comma_count + 1;
        }
    }
    proof {
        assert(t@.skip(0) == t@);
        assert(!exists|q: int| is_innermost_open_call(t@, q));
    }
    None
}


// ---------------------------------------------------------------------------
// Braces
// ---------------------------------------------------------------------------
pub open spec fn brace_delta(c: char) -> int {
    if c == '}' {
        1
    } else if c == '{' {
        -1
    } else {
        0
    }
}

/// The number of `}` in `t` less the number of `{`.
pub open spec fn brace_balance(t: Seq<char>) -> int
    decreases t.len(),
{
    if t.len() == 0 {
        0
    } else {
        brace_delta(t[0]) + brace_balance(t.drop_first())
    }
}

/// `base` plus the brace balance of `t`, computed from the end of `t`.
pub fn add_brace_balance(t: &Vec<char>, base: i128) -> (r: i128)
    requires
        0 <= base,
        base + t.len() <= i128::MAX,
    ensures
        r == base + brace_balance(t@),
        base - t.len() <= r <= base + t.len(),
{
    let mut depth = base;
    let mut j = t.len();
    assert(t@.skip(t.len() as int) =~= Seq::<char>::empty());
    while j > 0
        invariant
            j <= t.len(),
            0 <= base,
            base + t.len() <= i128::MAX,
            depth == base + brace_balance(t@.skip(j as int)),
            base - (t.len() - j) <= depth <= base + (t.len() - j),
        decreases j,
    {
        proof {
            assert(t@.skip(j - 1).drop_first() =~= t@.skip(j as int));
            assert(t@.skip(j - 1)[0] == t@[j - 1]);
        }
        j = j - 1;
        if t[j] == '}' {
            depth = depth + 1;
        } else if t[j] == '{' {
            depth = depth - 1;
        }
    }
    assert(t@.skip(0) == t@);
    depth
}

pub proof fn lemma_joined_take_len(ls: Seq<Seq<char>>, m: int)
    requires
        0 <= m < ls.len(),
    ensures
        joined_lines(ls.take(m + 1)).len() == joined_lines(ls.take(m)).len() + ls[m].len() + 1,
{
    assert(ls.take(m + 1) =~= ls.take(m).push(ls[m]));
    lemma_joined_push(ls.take(m), ls[m]);
}

// ---------------------------------------------------------------------------
// The class around a line
// ---------------------------------------------------------------------------
/// One step of the backward scan for the enclosing class, over a trimmed
/// line. The state is (brace depth, class found, whether a method body was
/// crossed). When the depth goes below zero the line opens the block the
/// scan is in: a `class ` line then names the class (if a method body was
/// crossed on the way), any other line is taken for a method body. Either way
/// the depth starts again from zero.
pub open spec fn class_scan_step(st: (int, Option<Seq<char>>, bool), tl: Seq<char>) -> (
    int,
    Option<Seq<char>>,
    bool,
) {
    let d = st.0 + brace_balance(tl);
    if d < 0 {
        if spec_starts_with(tl, "class "@) {
            let parts = spec_words(tl);
            let found = if st.2 && parts.len() >= 2 {
                Some(trim_end_where(parts[1], class_pred(CharClass::NonWord)))
            } else {
                st.1
            };
            (0, found, st.2)
        } else {
            (0, st.1, true)
        }
    } else {
        (d, st.1, st.2)
    }
}

/// The scan run over `ls` from its last line to its first.
pub open spec fn class_scan(ls: Seq<Seq<char>>, st: (int, Option<Seq<char>>, bool)) -> (
    int,
    Option<Seq<char>>,
    bool,
)
    decreases ls.len(),
{
    if ls.len() == 0 {
        st
    } else {
        class_scan(ls.drop_last(), class_scan_step(st, spec_trim(ls.last())))
    }
}

/// The class whose method body contains `line`, as the backward scan over
/// lines `0..=line` finds it.
pub open spec fn enclosing_class(lines: Seq<Seq<char>>, line: int) -> Option<Seq<char>> {
    class_scan(lines.take(line + 1), (0, None, false)).1
}

/// The class a line of `source` stands in, found by walking back over brace
/// depth (used to resolve `this.`).
pub fn find_enclosing_class(source: &str, line: usize) -> (r: Option<String>)
    requires
        line < spec_lines(source@).len(),
    ensures
        match enclosing_class(spec_lines(source@), line as int) {
            Some(name) => r matches Some(s) && s@ == name,
            None => r is None,
        },
{
    let lines = source_lines(source);
    let ghost ls = spec_lines(source@);
    let mut brace_depth: i128 = 0;
    let mut found_class: Option<Vec<char>> = None;
    let mut inside_method = false;
    assert(views_of(lines@).len() == lines@.len());
    assert(line < lines@.len());
    assert(line < lines.len());
    let mut i: usize = line + 1;
    proof {
        lemma_lines_length(source@, line as int);
        lemma_joined_take_len(ls, line as int);
    }
    while i > 0
        invariant
            views_of(lines@) == ls,
            ls == spec_lines(source@),
            line < ls.len(),
                joined_lines(ls.take(line + 1)).len() <= source@.len() + 1,
            source@.len() <= usize::MAX,
            i <= line + 1,
            0 <= brace_depth,
            brace_depth + joined_lines(ls.take(i as int)).len() <= joined_lines(
                ls.take(line + 1),
            ).len(),
            class_scan(
                ls.take(i as int),
                (
                    brace_depth as int,
                    opt_view(found_class),
                    inside_method,
                ),
            ) == class_scan(ls.take(line + 1), (0, None, false)),
        decreases i,
    {
        let ghost st = (
            brace_depth as int,
            opt_view(found_class),
            inside_method,
        );
        proof {
            assert(ls.take(i as int).drop_last() =~= ls.take(i - 1));
            assert(ls.take(i as int).last() == ls[i - 1]);
            lemma_joined_take_len(ls, i - 1);
            assert(lines@[i - 1]@ == ls[i - 1]);
        }
        i = i - 1;
        let trimmed = trim_chars(&lines[i], CharClass::Whitespace);
        let d = add_brace_balance(&trimmed, brace_depth);
        if d < 0 {
            if starts_with(&trimmed, "class ") {
                if inside_method {
                    let parts = split_words(&trimmed);
                    if parts.len() >= 2 {
                        proof {
                            assert(parts@[1]@ == spec_words(trimmed@)[1]);
                        }
                        found_class = Some(trim_end_chars(&parts[1], CharClass::NonWord));
                    }
                }
                brace_depth = 0;
            } else {
                inside_method = true;
                brace_depth = 0;
            }
        } else {
            brace_depth = d;
        }
        assert(class_scan_step(st, trimmed@) == (
            brace_depth as int,
            opt_view(found_class),
            inside_method,
        ));
    }
    assert(ls.take(0) =~= Seq::<Seq<char>>::empty());
    match found_class {
        Some(f) => Some(string_from_chars(&f)),
        None => None,
    }
}


// ---------------------------------------------------------------------------
// Local variables
// ---------------------------------------------------------------------------
/// Words that start a statement rather than a declaration.
pub open spec fn is_statement_keyword(t: Seq<char>) -> bool {
    t == "if"@ || t == "while"@ || t == "for"@ || t == "return"@ || t == "pub"@ || t == "void"@
        || t == "class"@
}

pub fn statement_keyword(t: &Vec<char>) -> (r: bool)
    ensures
        r == is_statement_keyword(t@),
{
    chars_equal_str(t, "if") || chars_equal_str(t, "while") || chars_equal_str(t, "for")
        || chars_equal_str(t, "return") || chars_equal_str(t, "pub") || chars_equal_str(t, "void")
        || chars_equal_str(t, "class")
}

/// The (name, type) declarations that a line holds when read as a local
/// variable declaration: none, or one.
pub open spec fn local_decl(line: Seq<char>) -> Seq<Binding> {
    match declaration(line, CharClass::LocalEnd) {
        Some((t, n)) => if is_statement_keyword(t) {
            seq![]
        } else {
            seq![(n, t)]
        },
        None => seq![],
    }
}

/// The local declarations of the lines, in order.
pub open spec fn local_decls(ls: Seq<Seq<char>>) -> Seq<Binding>
    decreases ls.len(),
{
    if ls.len() == 0 {
        seq![]
    } else {
        local_decls(ls.drop_last()) + local_decl(ls.last())
    }
}

/// The first `n` lines, or all of them when there are fewer.
pub open spec fn first_lines(ls: Seq<Seq<char>>, n: int) -> Seq<Seq<char>> {
    if n <= ls.len() {
        ls.take(n)
    } else {
        ls
    }
}

pub proof fn lemma_bind_all_append(d: Seq<Binding>, x: Seq<Binding>)
    requires
        x.len() <= 1,
    ensures
        bind_all(d + x) == if x.len() == 0 {
            bind_all(d)
        } else {
            bind(bind_all(d), x[0].0, x[0].1)
        },
{
    if x.len() == 0 {
        assert(d + x =~= d);
    } else {
        assert((d + x).drop_last() =~= d);
    }
}

/// The variables declared on lines `0..=up_to_line`, each bound to the type
/// of its last declaration (a line `Type name`, where `Type` is not a
/// statement keyword and the name may end in `;`, `=` or `(`).
pub fn collect_local_vars(source: &str, up_to_line: usize) -> (r: Vec<(String, String)>)
    requires
        up_to_line < usize::MAX,
    ensures
        binding_views(r@) == bind_all(local_decls(first_lines(spec_lines(source@), up_to_line + 1))),
{
    let lines = source_lines(source);
    let ghost ls = spec_lines(source@);
    let n = if up_to_line + 1 <= lines.len() {
        up_to_line + 1
    } else {
        lines.len()
    };
    assert(ls.take(n as int) == first_lines(ls, up_to_line + 1));
    let mut vars: Vec<(String, String)> = Vec::new();
    let mut i: usize = 0;
    assert(ls.take(0) =~= Seq::<Seq<char>>::empty());
    assert(binding_views(vars@) =~= Seq::<Binding>::empty());
    while i < n
        invariant
            views_of(lines@) == ls,
            n <= lines.len(),
            i <= n,
            binding_views(vars@) == bind_all(local_decls(ls.take(i as int))),
        decreases n - i,
    {
        proof {
            assert(ls.take(i + 1).drop_last() =~= ls.take(i as int));
            assert(ls.take(i + 1).last() == ls[i as int]);
            assert(lines@[i as int]@ == ls[i as int]);
            lemma_bind_all_append(local_decls(ls.take(i as int)), local_decl(ls[i as int]));
        }
        match line_declaration(&lines[i], CharClass::LocalEnd) {
            Some((ty, name)) => {
                if !statement_keyword(&ty) {
                    bind_name(&mut vars, string_from_chars(&name), string_from_chars(&ty));
                }
            },
            None => {},
        }
        i = i + 1;
    }
    vars
}

// ---------------------------------------------------------------------------
// Parameters of the enclosing method
// ---------------------------------------------------------------------------
/// The backward scan for the line that opens the block the cursor is in:
/// the trimmed line where the brace depth first goes below zero, unless a
/// `class ` line comes first or the scan runs out of lines.
pub open spec fn signature_scan(ls: Seq<Seq<char>>, depth: int) -> Option<Seq<char>>
    decreases ls.len(),
{
    if ls.len() == 0 {
        None
    } else {
        let tl = spec_trim(ls.last());
        let d = depth + brace_balance(tl);
        if d < 0 {
            Some(tl)
        } else if spec_starts_with(tl, "class "@) {
            None
        } else {
            signature_scan(ls.drop_last(), d)
        }
    }
}

/// The line that opens the block around `line`, if the scan finds one.
pub open spec fn signature_line(lines: Seq<Seq<char>>, line: int) -> Option<Seq<char>> {
    signature_scan(lines.take(line + 1), 0)
}

/// Whether the text before a `(` ends a control-flow keyword or starts a
/// class declaration: such a line holds no parameters.
pub open spec fn is_control_or_class(before: Seq<char>) -> bool {
    spec_ends_with(before, "if"@) || spec_ends_with(before, "while"@) || spec_ends_with(
        before,
        "for"@,
    ) || spec_ends_with(before, "switch"@) || spec_starts_with(before, "class "@)
}

/// The positions of the first `(` and the last `)` of a line that declares
/// parameters.
pub open spec fn parameter_bounds(tl: Seq<char>) -> Option<(int, int)> {
    let ps = index_of(tl, '(');
    let pe = last_index_of(tl, ')');
    if ps < tl.len() && pe >= 0 && !is_control_or_class(spec_trim(tl.take(ps as int))) {
        Some((ps as int, pe))
    } else {
        None
    }
}

/// The (name, type) pairs of the comma-separated pieces that are exactly two
/// words `Type name`.
pub open spec fn param_decls(pieces: Seq<Seq<char>>) -> Seq<Binding>
    decreases pieces.len(),
{
    if pieces.len() == 0 {
        seq![]
    } else {
        let parts = spec_words(spec_trim(pieces.last()));
        param_decls(pieces.drop_last()) + if parts.len() == 2 {
            seq![(parts[1], parts[0])]
        } else {
            seq![]
        }
    }
}

/// The parameter declarations of a signature line.
pub open spec fn signature_params(tl: Seq<char>) -> Seq<Binding> {
    match parameter_bounds(tl) {
        Some((ps, pe)) => param_decls(split_commas(tl.subrange(ps + 1, pe))),
        None => seq![],
    }
}

/// The parameters visible at `line`.
pub open spec fn params_at(lines: Seq<Seq<char>>, line: int) -> Seq<Binding> {
    match signature_line(lines, line) {
        Some(tl) => bind_all(signature_params(tl)),
        None => seq![],
    }
}

/// A signature line whose last `)` comes before its first `(` cannot be
/// cut into a parameter list.
pub open spec fn params_readable(lines: Seq<Seq<char>>, line: int) -> bool {
    match signature_line(lines, line) {
        Some(tl) => match parameter_bounds(tl) {
            Some((ps, pe)) => ps < pe,
            None => true,
        },
        None => true,
    }
}

/// The bindings of the `Type name` pieces of a parameter list.
fn bind_params(section: &Vec<char>) -> (r: Vec<(String, String)>)
    ensures
        binding_views(r@) == bind_all(param_decls(split_commas(section@))),
{
    let pieces = split_at_commas(section);
    let ghost ps = split_commas(section@);
    let mut params: Vec<(String, String)> = Vec::new();
    let mut i: usize = 0;
    assert(ps.take(0) =~= Seq::<Seq<char>>::empty());
    assert(binding_views(params@) =~= Seq::<Binding>::empty());
    while i < pieces.len()
        invariant
            views_of(pieces@) == ps,
            i <= pieces.len(),
            binding_views(params@) == bind_all(param_decls(ps.take(i as int))),
        decreases pieces.len() - i,
    {
        let trimmed = trim_chars(&pieces[i], CharClass::Whitespace);
        let parts = split_words(&trimmed);
        let ghost pv = spec_words(spec_trim(ps[i as int]));
        proof {
            assert(ps.take(i + 1).drop_last() =~= ps.take(i as int));
            assert(ps.take(i + 1).last() == ps[i as int]);
            assert(pieces@[i as int]@ == ps[i as int]);
            lemma_bind_all_append(
                param_decls(ps.take(i as int)),
                if pv.len() == 2 {
                    seq![(pv[1], pv[0])]
                } else {
                    seq![]
                },
            );
        }
        if parts.len() == 2 {
            assert(parts@[0]@ == pv[0]);
            assert(parts@[1]@ == pv[1]);
            let name = string_from_chars(&parts[1]);
            let ty = string_from_chars(&parts[0]);
            bind_name(&mut params, name, ty);
        }
        i = i + 1;
    }
    assert(ps.take(pieces.len() as int) == ps);
    params
}

/// The parameters of a signature line.
fn line_params(tl: &Vec<char>) -> (r: Vec<(String, String)>)
    requires
        match parameter_bounds(tl@) {
            Some((ps, pe)) => ps < pe,
            None => true,
        },
    ensures
        binding_views(r@) == bind_all(signature_params(tl@)),
{
    let ps = find_char(tl, '(');
    proof {
        lemma_index_of(tl@, '(');
        lemma_last_index_of(tl@, ')');
    }
    if ps < tl.len() {
        match rfind_char(tl, ')') {
            Some(pe) => {
                let head = copy_range(tl, 0, ps);
                let before = trim_chars(&head, CharClass::Whitespace);
                let is_control_flow = ends_with(&before, "if") || ends_with(&before, "while")
                    || ends_with(&before, "for") || ends_with(&before, "switch");
                let is_class = starts_with(&before, "class ");
                if !is_control_flow && !is_class {
                    let section = copy_range(tl, ps + 1, pe);
                    return bind_params(&section);
                }
            },
            None => {},
        }
    }
    let r: Vec<(String, String)> = Vec::new();
    assert(binding_views(r@) =~= Seq::<Binding>::empty());
    r
}

/// The line that opens the block around `line` of `source`, trimmed, if the
/// backward scan finds one.
pub fn find_signature_line(source: &str, line: usize) -> (r: Option<Vec<char>>)
    requires
        line < spec_lines(source@).len(),
    ensures
        opt_view(r) == signature_line(spec_lines(source@), line as int),
{
    let lines = source_lines(source);
    let ghost ls = spec_lines(source@);
    let mut brace_depth: i128 = 0;
    assert(views_of(lines@).len() == lines@.len());
    assert(line < lines.len());
    let mut i: usize = line + 1;
    proof {
        lemma_lines_length(source@, line as int);
        lemma_joined_take_len(ls, line as int);
    }
    while i > 0
        invariant
            views_of(lines@) == ls,
            ls == spec_lines(source@),
            line < ls.len(),
            joined_lines(ls.take(line + 1)).len() <= source@.len() + 1,
            source@.len() <= usize::MAX,
            i <= line + 1,
            0 <= brace_depth,
            brace_depth + joined_lines(ls.take(i as int)).len() <= joined_lines(
                ls.take(line + 1),
            ).len(),
            signature_scan(ls.take(i as int), brace_depth as int) == signature_line(
                ls,
                line as int,
            ),
        decreases i,
    {
        proof {
            assert(ls.take(i as int).drop_last() =~= ls.take(i - 1));
            assert(ls.take(i as int).last() == ls[i - 1]);
            lemma_joined_take_len(ls, i - 1);
            assert(lines@[i - 1]@ == ls[i - 1]);
        }
        i = i - 1;
        let trimmed = trim_chars(&lines[i], CharClass::Whitespace);
        let d = add_brace_balance(&trimmed, brace_depth);
        if d < 0 {
            return Some(trimmed);
        }
        brace_depth = d;
        if starts_with(&trimmed, "class ") {
            return None;
        }
    }
    assert(ls.take(0) =~= Seq::<Seq<char>>::empty());
    None
}

/// Whether a signature line can be cut into a parameter list.
fn params_cut_ok(tl: &Vec<char>) -> (r: bool)
    ensures
        r == match parameter_bounds(tl@) {
            Some((ps, pe)) => ps < pe,
            None => true,
        },
{
    let ps = find_char(tl, '(');
    proof {
        lemma_index_of(tl@, '(');
    }
    if ps < tl.len() {
        match rfind_char(tl, ')') {
            Some(pe) => {
                let head = copy_range(tl, 0, ps);
                let before = trim_chars(&head, CharClass::Whitespace);
                let is_control_flow = ends_with(&before, "if") || ends_with(&before, "while")
                    || ends_with(&before, "for") || ends_with(&before, "switch");
                let is_class = starts_with(&before, "class ");
                if !is_control_flow && !is_class {
                    return ps < pe;
                }
            },
            None => {},
        }
    }
    true
}

/// Whether the parameters at `line` of `source` can be read (see
/// `params_readable`).
pub fn params_readable_at(source: &str, line: usize) -> (r: bool)
    requires
        line < spec_lines(source@).len(),
    ensures
        r == params_readable(spec_lines(source@), line as int),
{
    match find_signature_line(source, line) {
        Some(tl) => params_cut_ok(&tl),
        None => true,
    }
}

/// The parameters of the method whose body holds `line`: found by walking
/// back to the line that opens the current block and reading its
/// `(Type name, ...)` list, each name bound to its type.
pub fn collect_params(source: &str, line: usize) -> (r: Vec<(String, String)>)
    requires
        line < spec_lines(source@).len(),
        params_readable(spec_lines(source@), line as int),
    ensures
        binding_views(r@) == params_at(spec_lines(source@), line as int),
{
    match find_signature_line(source, line) {
        Some(tl) => line_params(&tl),
        None => {
            let r: Vec<(String, String)> = Vec::new();
            assert(binding_views(r@) =~= Seq::<Binding>::empty());
            r
        },
    }
}

// ---------------------------------------------------------------------------
// What the scans keep
// ---------------------------------------------------------------------------
/// `t` is one of the words that never start a local declaration: `if`,
/// `while`, `for`, `return`, `pub`, `void`, `class`.
pub open spec fn never_a_local_type(t: Seq<char>) -> bool {
    ||| t == "if"@
    ||| t == "while"@
    ||| t == "for"@
    ||| t == "return"@
    ||| t == "pub"@
    ||| t == "void"@
    ||| t == "class"@
}

/// A line whose first word is `if`, `while`, `for`, `return`, `pub`,
/// `void` or `class` declares no local variable, and no local variable
/// collected from any lines has one of those words as its type.
pub proof fn law_keyword_lines_declare_no_locals(ls: Seq<Seq<char>>)
    ensures
        forall|k: int|
            0 <= k < ls.len() && spec_words(spec_trim(ls[k])).len() > 0 && never_a_local_type(
                spec_words(spec_trim(ls[k]))[0],
            ) ==> #[trigger] local_decl(ls[k]).len() == 0,
        forall|k: int|
            0 <= k < local_decls(ls).len() ==> !never_a_local_type(#[trigger] local_decls(ls)[k].1),
    decreases ls.len(),
{
    if ls.len() > 0 {
        law_keyword_lines_declare_no_locals(ls.drop_last());
        let d = local_decls(ls.drop_last());
        let x = local_decl(ls.last());
        assert(local_decls(ls) == d + x);
        assert forall|k: int| 0 <= k < local_decls(ls).len() implies !never_a_local_type(
            #[trigger] local_decls(ls)[k].1,
        ) by {
            if k < d.len() {
                assert(local_decls(ls)[k] == d[k]);
            } else {
                assert(local_decls(ls)[k] == x[k - d.len()]);
            }
        }
        assert forall|k: int|
            0 <= k < ls.len() && spec_words(spec_trim(ls[k])).len() > 0 && never_a_local_type(
                spec_words(spec_trim(ls[k]))[0],
            ) implies #[trigger] local_decl(ls[k]).len() == 0 by {
            if k < ls.len() - 1 {
                assert(ls.drop_last()[k] == ls[k]);
            }
        }
    }
}

/// The number of times `c` occurs in `t`.
pub open spec fn count_of(t: Seq<char>, c: char) -> nat
    decreases t.len(),
{
    if t.len() == 0 {
        0
    } else {
        (if t[0] == c {
            1nat
        } else {
            0nat
        }) + count_of(t.drop_first(), c)
    }
}

proof fn lemma_brace_balance_counts(t: Seq<char>)
    ensures
        brace_balance(t) == count_of(t, '}') - count_of(t, '{'),
    decreases t.len(),
{
    if t.len() > 0 {
        lemma_brace_balance_counts(t.drop_first());
    }
}

/// Each line the backward class scan reads moves the brace depth by the
/// line's `}` count less its `{` count: every `}` counts one up and every
/// `{` one down. Where that leaves the depth negative, the line opens the
/// block the scan was in, and the depth starts again at 0.
pub proof fn law_class_scan_counts_every_brace(st: (int, Option<Seq<char>>, bool), tl: Seq<char>)
    ensures
        ({
            let d = st.0 + count_of(tl, '}') - count_of(tl, '{');
            &&& d >= 0 ==> class_scan_step(st, tl) == (d, st.1, st.2)
            &&& d < 0 ==> class_scan_step(st, tl).0 == 0
        }),
{
    lemma_brace_balance_counts(tl);
}

/// The `}` count less the `{` count of the trimmed lines, added up.
pub open spec fn closing_balance(ls: Seq<Seq<char>>) -> int
    decreases ls.len(),
{
    if ls.len() == 0 {
        0
    } else {
        closing_balance(ls.drop_last()) + count_of(spec_trim(ls.last()), '}') - count_of(
            spec_trim(ls.last()),
            '{',
        )
    }
}

/// Lines that never take the brace depth below zero, read backward from
/// the last, open no block around the scan: the class found so far and
/// whether a method body was passed stay as they are, and the depth ends
/// moved by their `}` count less their `{` count. So the lines of classes
/// closed before the cursor never name a class for `this.`.
pub proof fn law_closed_lines_keep_class_scan(ls: Seq<Seq<char>>, st: (int, Option<Seq<char>>, bool))
    requires
        forall|k: int| 0 <= k <= ls.len() ==> st.0 + #[trigger] closing_balance(ls.subrange(k, ls.len() as int)) >= 0,
    ensures
        class_scan(ls, st) == (st.0 + closing_balance(ls), st.1, st.2),
    decreases ls.len(),
{
    if ls.len() > 0 {
        let n = ls.len() as int;
        let l = spec_trim(ls.last());
        assert(ls.subrange(n - 1, n).drop_last() =~= Seq::<Seq<char>>::empty());
        assert(ls.subrange(n - 1, n).last() == ls.last());
        assert(closing_balance(ls.subrange(n - 1, n).drop_last()) == 0);
        assert(closing_balance(ls.subrange(n - 1, n)) == count_of(l, '}') - count_of(l, '{'));
        law_class_scan_counts_every_brace(st, l);
        let st2 = class_scan_step(st, l);
        let front = ls.drop_last();
        assert forall|k: int| 0 <= k <= front.len() implies st2.0 + #[trigger] closing_balance(
            front.subrange(k, front.len() as int),
        ) >= 0 by {
            assert(ls.subrange(k, n).drop_last() =~= front.subrange(k, front.len() as int));
            assert(ls.subrange(k, n).last() == ls.last());
            assert(closing_balance(ls.subrange(k, n)) >= 0 - st.0);
        }
        law_closed_lines_keep_class_scan(front, st2);
        assert(ls.subrange(0, n) =~= ls);
    }
}

} // verus!
