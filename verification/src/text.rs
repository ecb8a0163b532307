//! Character-level text handling: the views of `str` operations that the
//! language features are built from (line splitting, trimming, splitting on
//! whitespace, prefix tests), each stated over `Seq<char>` and implemented by
//! verified loops over `Vec<char>`.
use vstd::prelude::*;

verus! {

// ---------------------------------------------------------------------------
// Character classes (std's Unicode tables)
// ---------------------------------------------------------------------------
/// Unicode `Alphabetic` or `Numeric`, as `char::is_alphanumeric` decides it.
pub uninterp spec fn is_alphanumeric_char(c: char) -> bool;

/// Unicode `White_Space`, the property that `char::is_whitespace` (and so
/// `str::trim` and `str::split_whitespace`) tests: tab, line feed, vertical
/// tab, form feed, carriage return, space, next line, no-break space, ogham
/// space mark, the spaces U+2000 to U+200A, line and paragraph separator,
/// narrow no-break space, medium mathematical space and ideographic space.
pub open spec fn is_whitespace_char(c: char) -> bool {
    let u = c as u32;
    ||| 0x09 <= u <= 0x0d
    ||| u == 0x20
    ||| u == 0x85
    ||| u == 0xa0
    ||| u == 0x1680
    ||| 0x2000 <= u <= 0x200a
    ||| u == 0x2028
    ||| u == 0x2029
    ||| u == 0x202f
    ||| u == 0x205f
    ||| u == 0x3000
}

pub open spec fn is_ascii_letter_or_digit(c: char) -> bool {
    ('a' <= c && c <= 'z') || ('A' <= c && c <= 'Z') || ('0' <= c && c <= '9')
}

/// Calls `char::is_alphanumeric`. The result is named by
/// `is_alphanumeric_char`; std documents that ASCII letters and digits are
/// alphanumeric and that no other ASCII character is. What it answers for the
/// rest of Unicode (its tables) is not stated here.
#[verifier::external_body]
pub(crate) fn char_is_alphanumeric(c: char) -> (r: bool)
    ensures
        r == is_alphanumeric_char(c),
        is_ascii_letter_or_digit(c) ==> r,
        (c as u32) < 128 && !is_ascii_letter_or_digit(c) ==> !r,
{
    c.is_alphanumeric()
}

/// Whether `c` is white space (`char::is_whitespace`).
pub(crate) fn char_is_whitespace(c: char) -> (r: bool)
    ensures
        r == is_whitespace_char(c),
        c == ' ' || c == '\t' || c == '\n' || c == '\r' || c == '\x0b' || c == '\x0c' ==> r,
        (c as u32) < 128 && !(c == ' ' || c == '\t' || c == '\n' || c == '\r' || c == '\x0b'
            || c == '\x0c') ==> !r,
{
    let u = c as u32;
    (0x09 <= u && u <= 0x0d) || u == 0x20 || u == 0x85 || u == 0xa0 || u == 0x1680 || (0x2000 <= u
        && u <= 0x200a) || u == 0x2028 || u == 0x2029 || u == 0x202f || u == 0x205f || u == 0x3000
}

/// Characters that may form an identifier: alphanumeric or `_`.
pub open spec fn is_word_char(c: char) -> bool {
    is_alphanumeric_char(c) || c == '_'
}

pub fn char_is_word(c: char) -> (r: bool)
    ensures
        r == is_word_char(c),
{
    c == '_' || char_is_alphanumeric(c)
}

// ---------------------------------------------------------------------------
// Conversions between strings and character vectors
// ---------------------------------------------------------------------------
/// Calls `Iterator::collect` into a `String` (std's `FromIterator<&char>` for
/// `String`), which std documents to concatenate the characters in order.
#[verifier::external_body]
pub(crate) fn string_from_chars(v: &Vec<char>) -> (s: String)
    ensures
        s@ == v@,
{
    v.iter().collect()
}

/// The characters of `s`, in order.
pub fn chars_of(s: &str) -> (r: Vec<char>)
    ensures
        r@ == s@,
{
    let mut r: Vec<char> = Vec::new();
    for c in it: s.chars()
        invariant
            r@ == it.seq().take(it.index() as int),
            it.seq() == s@,
    {
        r.push(c);
    }
    r
}

/// `s` as a `String`.
pub fn string_of(s: &str) -> (r: String)
    ensures
        r@ == s@,
{
    string_from_chars(&chars_of(s))
}

/// A copy of `s[a..b]`.
pub fn copy_range(s: &Vec<char>, a: usize, b: usize) -> (r: Vec<char>)
    requires
        a <= b <= s.len(),
    ensures
        r@ == s@.subrange(a as int, b as int),
{
    let mut r: Vec<char> = Vec::new();
    let mut i = a;
    while i < b
        invariant
            a <= i <= b <= s.len(),
            r@ == s@.subrange(a as int, i as int),
        decreases b - i,
    {
        r.push(s[i]);
        i = i + 1;
    }
    r
}

/// Appends the characters of `t` to `r`.
pub fn append_chars(r: &mut Vec<char>, t: &Vec<char>)
    ensures
        final(r)@ == old(r)@ + t@,
{
    let mut i: usize = 0;
    while i < t.len()
        invariant
            i <= t.len(),
            r@ == old(r)@ + t@.take(i as int),
        decreases t.len() - i,
    {
        r.push(t[i]);
        i = i + 1;
        assert(t@.take(i as int) == t@.take((i - 1) as int).push(t@[i - 1]));
    }
    assert(t@.take(t.len() as int) == t@);
}

/// Appends the characters of `t` to `r`.
pub fn append_str(r: &mut Vec<char>, t: &str)
    ensures
        final(r)@ == old(r)@ + t@,
{
    let v = chars_of(t);
    append_chars(r, &v);
}

/// Whether two character sequences are equal.
pub fn chars_equal(a: &Vec<char>, b: &Vec<char>) -> (r: bool)
    ensures
        r == (a@ == b@),
{
    if a.len() != b.len() {
        return false;
    }
    let mut i: usize = 0;
    while i < a.len()
        invariant
            a.len() == b.len(),
            i <= a.len(),
            forall|k: int| 0 <= k < i ==> a@[k] == b@[k],
        decreases a.len() - i,
    {
        if a[i] != b[i] {
            return false;
        }
        i = i + 1;
    }
    assert(a@ =~= b@);
    true
}

/// Whether two strings are equal.
pub fn str_eq(a: &str, b: &str) -> (r: bool)
    ensures
        r == (a@ == b@),
{
    let av = chars_of(a);
    let bv = chars_of(b);
    chars_equal(&av, &bv)
}

/// Whether the characters of `a` spell the string `b`.
pub fn chars_equal_str(a: &Vec<char>, b: &str) -> (r: bool)
    ensures
        r == (a@ == b@),
{
    let bv = chars_of(b);
    chars_equal(a, &bv)
}

// ---------------------------------------------------------------------------
// First position satisfying a predicate
// ---------------------------------------------------------------------------
/// The index of the first character of `s` that satisfies `p`, or `s.len()`.
pub open spec fn first_match(s: Seq<char>, p: spec_fn(char) -> bool) -> nat
    decreases s.len(),
{
    if s.len() == 0 {
        0
    } else if p(s[0]) {
        0
    } else {
        1 + first_match(s.drop_first(), p)
    }
}

pub proof fn lemma_first_match(s: Seq<char>, p: spec_fn(char) -> bool)
    ensures
        first_match(s, p) <= s.len(),
        forall|m: int| 0 <= m < first_match(s, p) ==> !p(#[trigger] s[m]),
        first_match(s, p) < s.len() ==> p(s[first_match(s, p) as int]),
    decreases s.len(),
{
    if s.len() > 0 && !p(s[0]) {
        lemma_first_match(s.drop_first(), p);
        assert forall|m: int| 0 <= m < first_match(s, p) implies !p(#[trigger] s[m]) by {
            if m > 0 {
                assert(s[m] == s.drop_first()[m - 1]);
            }
        }
    }
}

pub proof fn lemma_first_match_is(s: Seq<char>, p: spec_fn(char) -> bool, k: nat)
    requires
        k <= s.len(),
        forall|m: int| 0 <= m < k ==> !p(#[trigger] s[m]),
        k == s.len() || p(s[k as int]),
    ensures
        first_match(s, p) == k,
    decreases k,
{
    if k > 0 {
        assert(!p(s[0]));
        let t = s.drop_first();
        assert forall|m: int| 0 <= m < k - 1 implies !p(#[trigger] t[m]) by {
            assert(t[m] == s[m + 1]);
        }
        if k < s.len() {
            assert(t[k - 1] == s[k as int]);
        }
        lemma_first_match_is(t, p, (k - 1) as nat);
    }
}

// ---------------------------------------------------------------------------
// Lines
// ---------------------------------------------------------------------------
pub open spec fn newline_index(s: Seq<char>) -> nat {
    first_match(s, |c: char| c == '\n')
}

/// A line without the carriage return that ended it.
pub open spec fn strip_cr(l: Seq<char>) -> Seq<char> {
    if l.len() > 0 && l.last() == '\r' {
        l.drop_last()
    } else {
        l
    }
}

/// The lines of `s` as `str::lines` yields them: split at each `\n`, a `\r`
/// right before a `\n` dropped, and no empty line after a final `\n`.
pub open spec fn spec_lines(s: Seq<char>) -> Seq<Seq<char>>
    decreases s.len(),
{
    if s.len() == 0 {
        seq![]
    } else {
        let k = newline_index(s);
        if k >= s.len() {
            seq![s]
        } else {
            seq![strip_cr(s.take(k as int))] + spec_lines(s.skip(k + 1 as int))
        }
    }
}

pub open spec fn opt_view(o: Option<Vec<char>>) -> Option<Seq<char>> {
    match o {
        Some(v) => Some(v@),
        None => None,
    }
}

pub open spec fn views_of(v: Seq<Vec<char>>) -> Seq<Seq<char>> {
    v.map_values(|l: Vec<char>| l@)
}

/// Splits `s` into lines as `str::lines` does.
pub fn split_lines(s: &Vec<char>) -> (r: Vec<Vec<char>>)
    ensures
        views_of(r@) == spec_lines(s@),
        s@.len() <= usize::MAX,
{
    let mut done: Vec<Vec<char>> = Vec::new();
    let mut start: usize = 0;
    let mut i: usize = 0;
    assert(s@.skip(0) == s@);
    while i < s.len()
        invariant
            start <= i <= s.len(),
            views_of(done@) + spec_lines(s@.skip(start as int)) == spec_lines(s@),
            forall|m: int| start <= m < i ==> s@[m] != '\n',
        decreases s.len() - i,
    {
        if s[i] == '\n' {
            let ghost t = s@.skip(start as int);
            proof {
                lemma_first_match_is(t, |c: char| c == '\n', (i - start) as nat);
                assert(t.take((i - start) as int) == s@.subrange(start as int, i as int));
                assert(t.skip((i - start) + 1) == s@.skip(i + 1));
            }
            let mut line = copy_range(s, start, i);
            if line.len() > 0 && line[line.len() - 1] == '\r' {
                line.pop();
                proof {
                    assert(line@ == strip_cr(s@.subrange(start as int, i as int)));
                }
            }
            let ghost prev = done@;
            done.push(line);
            proof {
                assert(views_of(done@) == views_of(prev).push(line@));
                assert(views_of(done@) + spec_lines(s@.skip(i + 1)) == views_of(prev) + (seq![
                    line@,
                ] + spec_lines(s@.skip(i + 1))));
            }
            start = i + 1;
        }
        i = i + 1;
    }
    if start < s.len() {
        let ghost t = s@.skip(start as int);
        proof {
            lemma_first_match_is(t, |c: char| c == '\n', (s.len() - start) as nat);
            assert(t == s@.subrange(start as int, s.len() as int));
        }
        let line = copy_range(s, start, s.len());
        let ghost prev = done@;
        done.push(line);
        proof {
            assert(views_of(done@) == views_of(prev).push(line@));
            assert(views_of(done@) == views_of(prev) + seq![line@]);
        }
    } else {
        proof {
            assert(s@.skip(start as int).len() == 0);
            assert(views_of(done@) + seq![] == views_of(done@));
        }
    }
    done
}


// ---------------------------------------------------------------------------
// Trimming
// ---------------------------------------------------------------------------
/// `s` without its leading characters that satisfy `p`.
pub open spec fn trim_start_where(s: Seq<char>, p: spec_fn(char) -> bool) -> Seq<char>
    decreases s.len(),
{
    if s.len() > 0 && p(s[0]) {
        trim_start_where(s.drop_first(), p)
    } else {
        s
    }
}

/// `s` without its trailing characters that satisfy `p`.
pub open spec fn trim_end_where(s: Seq<char>, p: spec_fn(char) -> bool) -> Seq<char>
    decreases s.len(),
{
    if s.len() > 0 && p(s.last()) {
        trim_end_where(s.drop_last(), p)
    } else {
        s
    }
}

/// The sets of characters that the language features trim.
#[derive(Clone, Copy, PartialEq, Eq, Debug)]
pub enum CharClass {
    /// Unicode white space (`str::trim`).
    Whitespace,
    /// The double quote around an import path.
    Quote,
    /// `;` and `=`, after a declared variable's name.
    DeclarationEnd,
    /// `;`, `=` and `(`, after a local variable's or method's name.
    LocalEnd,
    /// Everything but identifier characters, after a class's name.
    NonWord,
}

pub open spec fn in_class(k: CharClass, c: char) -> bool {
    match k {
        CharClass::Whitespace => is_whitespace_char(c),
        CharClass::Quote => c == '"',
        CharClass::DeclarationEnd => c == ';' || c == '=',
        CharClass::LocalEnd => c == ';' || c == '=' || c == '(',
        CharClass::NonWord => !is_word_char(c),
    }
}

pub open spec fn class_pred(k: CharClass) -> spec_fn(char) -> bool {
    |c: char| in_class(k, c)
}

pub fn char_in_class(k: CharClass, c: char) -> (r: bool)
    ensures
        r == in_class(k, c),
{
    match k {
        CharClass::Whitespace => char_is_whitespace(c),
        CharClass::Quote => c == '"',
        CharClass::DeclarationEnd => c == ';' || c == '=',
        CharClass::LocalEnd => c == ';' || c == '=' || c == '(',
        CharClass::NonWord => !char_is_word(c),
    }
}

pub proof fn lemma_trim_start_skip(s: Seq<char>, p: spec_fn(char) -> bool, a: int)
    requires
        0 <= a < s.len(),
        forall|m: int| 0 <= m <= a ==> p(#[trigger] s[m]),
    ensures
        trim_start_where(s, p) == trim_start_where(s.skip(a + 1), p),
    decreases a,
{
    assert(s.drop_first() == s.skip(1));
    if a > 0 {
        let t = s.drop_first();
        assert forall|m: int| 0 <= m <= a - 1 implies p(#[trigger] t[m]) by {
            assert(t[m] == s[m + 1]);
        }
        lemma_trim_start_skip(t, p, a - 1);
        assert(t.skip(a) == s.skip(a + 1));
    }
}

pub proof fn lemma_trim_end_take(s: Seq<char>, p: spec_fn(char) -> bool, b: int)
    requires
        0 <= b < s.len(),
        forall|m: int| b <= m < s.len() ==> p(#[trigger] s[m]),
    ensures
        trim_end_where(s, p) == trim_end_where(s.take(b), p),
    decreases s.len() - b,
{
    assert(s.drop_last() == s.take(s.len() - 1));
    if b < s.len() - 1 {
        let t = s.drop_last();
        assert forall|m: int| b <= m < t.len() implies p(#[trigger] t[m]) by {
            assert(t[m] == s[m]);
        }
        lemma_trim_end_take(t, p, b);
        assert(t.take(b) == s.take(b));
    }
}

/// The index of the first character of `s` outside class `k`, or `s.len()`.
pub fn skip_class_forward(s: &Vec<char>, k: CharClass, from: usize) -> (a: usize)
    requires
        from <= s.len(),
    ensures
        from <= a <= s.len(),
        trim_start_where(s@.skip(from as int), class_pred(k)) == s@.skip(a as int),
{
    let mut a = from;
    while a < s.len() && char_in_class(k, s[a])
        invariant
            from <= a <= s.len(),
            trim_start_where(s@.skip(from as int), class_pred(k)) == trim_start_where(
                s@.skip(a as int),
                class_pred(k),
            ),
        decreases s.len() - a,
    {
        let ghost t = s@.skip(a as int);
        proof {
            assert(t.drop_first() == s@.skip(a + 1));
        }
        a = a + 1;
    }
    a
}

/// The end of `s[from..to]` once its trailing characters of class `k` are
/// dropped.
pub fn skip_class_backward(s: &Vec<char>, k: CharClass, from: usize, to: usize) -> (b: usize)
    requires
        from <= to <= s.len(),
    ensures
        from <= b <= to,
        trim_end_where(s@.subrange(from as int, to as int), class_pred(k)) == s@.subrange(
            from as int,
            b as int,
        ),
{
    let mut b = to;
    while b > from && char_in_class(k, s[b - 1])
        invariant
            from <= b <= to <= s.len(),
            trim_end_where(s@.subrange(from as int, to as int), class_pred(k)) == trim_end_where(
                s@.subrange(from as int, b as int),
                class_pred(k),
            ),
        decreases b - from,
    {
        let ghost t = s@.subrange(from as int, b as int);
        proof {
            assert(t.drop_last() == s@.subrange(from as int, b - 1));
        }
        b = b - 1;
    }
    b
}

/// `s` without leading and trailing characters of class `k`.
pub open spec fn trim_class(s: Seq<char>, k: CharClass) -> Seq<char> {
    trim_end_where(trim_start_where(s, class_pred(k)), class_pred(k))
}

/// `str::trim`: `s` without leading and trailing white space.
pub open spec fn spec_trim(s: Seq<char>) -> Seq<char> {
    trim_class(s, CharClass::Whitespace)
}

/// `s` without leading and trailing characters of class `k`.
pub fn trim_chars(s: &Vec<char>, k: CharClass) -> (r: Vec<char>)
    ensures
        r@ == trim_class(s@, k),
        r@.len() <= s@.len(),
{
    assert(s@.skip(0) == s@);
    let a = skip_class_forward(s, k, 0);
    let b = skip_class_backward(s, k, a, s.len());
    assert(s@.skip(a as int) == s@.subrange(a as int, s.len() as int));
    copy_range(s, a, b)
}

/// `s` without trailing characters of class `k`.
pub fn trim_end_chars(s: &Vec<char>, k: CharClass) -> (r: Vec<char>)
    ensures
        r@ == trim_end_where(s@, class_pred(k)),
{
    let b = skip_class_backward(s, k, 0, s.len());
    assert(s@.subrange(0, s.len() as int) == s@);
    copy_range(s, 0, b)
}

// ---------------------------------------------------------------------------
// Splitting on white space
// ---------------------------------------------------------------------------
pub open spec fn token_len(s: Seq<char>) -> nat {
    first_match(s, |c: char| is_whitespace_char(c))
}

/// The pieces of `s` between runs of white space, as `str::split_whitespace`
/// yields them.
pub open spec fn spec_words(s: Seq<char>) -> Seq<Seq<char>>
    decreases s.len(),
{
    if s.len() == 0 {
        seq![]
    } else if is_whitespace_char(s[0]) {
        spec_words(s.drop_first())
    } else {
        let k = token_len(s);
        proof {
            lemma_first_match(s, |c: char| is_whitespace_char(c));
        }
        seq![s.take(k as int)] + spec_words(s.skip(k as int))
    }
}

/// Splits `s` on runs of white space, as `str::split_whitespace` does.
pub fn split_words(s: &Vec<char>) -> (r: Vec<Vec<char>>)
    ensures
        views_of(r@) == spec_words(s@),
{
    let mut done: Vec<Vec<char>> = Vec::new();
    let mut i: usize = 0;
    assert(s@.skip(0) == s@);
    while i < s.len()
        invariant
            i <= s.len(),
            views_of(done@) + spec_words(s@.skip(i as int)) == spec_words(s@),
        decreases s.len() - i,
    {
        let ghost t = s@.skip(i as int);
        if char_is_whitespace(s[i]) {
            proof {
                assert(t.drop_first() == s@.skip(i + 1));
            }
            i = i + 1;
        } else {
            let mut j = i + 1;
            while j < s.len() && !char_is_whitespace(s[j])
                invariant
                    i < j <= s.len(),
                    forall|m: int| i <= m < j ==> !is_whitespace_char(#[trigger] s@[m]),
                decreases s.len() - j,
            {
                j = j + 1;
            }
            proof {
                lemma_first_match_is(t, |c: char| is_whitespace_char(c), (j - i) as nat);
                assert(t.take((j - i) as int) == s@.subrange(i as int, j as int));
                assert(t.skip((j - i) as int) == s@.skip(j as int));
            }
            let w = copy_range(s, i, j);
            let ghost prev = done@;
            done.push(w);
            proof {
                assert(views_of(done@) == views_of(prev).push(w@));
                assert(views_of(done@) + spec_words(s@.skip(j as int)) == views_of(prev) + (seq![
                    w@,
                ] + spec_words(s@.skip(j as int))));
            }
            i = j;
        }
    }
    proof {
        assert(s@.skip(i as int).len() == 0);
        assert(views_of(done@) + seq![] == views_of(done@));
    }
    done
}

// ---------------------------------------------------------------------------
// Prefixes and suffixes
// ---------------------------------------------------------------------------
pub open spec fn spec_starts_with(s: Seq<char>, p: Seq<char>) -> bool {
    p.len() <= s.len() && s.take(p.len() as int) == p
}

pub open spec fn spec_ends_with(s: Seq<char>, p: Seq<char>) -> bool {
    p.len() <= s.len() && s.skip(s.len() - p.len()) == p
}

/// Whether `s` begins with `p` (`str::starts_with`).
pub fn starts_with(s: &Vec<char>, p: &str) -> (r: bool)
    ensures
        r == spec_starts_with(s@, p@),
{
    let pv = chars_of(p);
    if pv.len() > s.len() {
        return false;
    }
    let mut i: usize = 0;
    while i < pv.len()
        invariant
            pv@ == p@,
            pv.len() <= s.len(),
            i <= pv.len(),
            forall|m: int| 0 <= m < i ==> s@[m] == pv@[m],
        decreases pv.len() - i,
    {
        if s[i] != pv[i] {
            assert(s@.take(pv.len() as int)[i as int] != p@[i as int]);
            return false;
        }
        i = i + 1;
    }
    assert(s@.take(pv.len() as int) =~= p@);
    true
}

/// Whether `s` ends with `p` (`str::ends_with`).
pub fn ends_with(s: &Vec<char>, p: &str) -> (r: bool)
    ensures
        r == spec_ends_with(s@, p@),
{
    let pv = chars_of(p);
    if pv.len() > s.len() {
        return false;
    }
    let off = s.len() - pv.len();
    let mut i: usize = 0;
    while i < pv.len()
        invariant
            pv@ == p@,
            off + pv.len() == s.len(),
            i <= pv.len(),
            forall|m: int| 0 <= m < i ==> s@[off + m] == pv@[m],
        decreases pv.len() - i,
    {
        if s[off + i] != pv[i] {
            assert(s@.skip(off as int)[i as int] != p@[i as int]);
            return false;
        }
        i = i + 1;
    }
    assert(s@.skip(off as int) =~= p@);
    true
}

// ---------------------------------------------------------------------------
// Line endings
// ---------------------------------------------------------------------------
/// `s` with every `\r\n` replaced by `\n`, scanning left to right
/// (`str::replace("\r\n", "\n")`).
pub open spec fn crlf_to_lf(s: Seq<char>) -> Seq<char>
    decreases s.len(),
{
    if s.len() == 0 {
        seq![]
    } else if s.len() >= 2 && s[0] == '\r' && s[1] == '\n' {
        seq!['\n'] + crlf_to_lf(s.skip(2))
    } else {
        seq![s[0]] + crlf_to_lf(s.drop_first())
    }
}

pub proof fn lemma_crlf_len(s: Seq<char>)
    ensures
        crlf_to_lf(s).len() <= s.len(),
    decreases s.len(),
{
    if s.len() > 0 {
        if s.len() >= 2 && s[0] == '\r' && s[1] == '\n' {
            lemma_crlf_len(s.skip(2));
        } else {
            lemma_crlf_len(s.drop_first());
        }
    }
}

/// Replaces every `\r\n` in `s` by `\n`.
pub fn normalize_newlines(s: &str) -> (r: String)
    ensures
        r@ == crlf_to_lf(s@),
{
    let v = chars_of(s);
    let mut out: Vec<char> = Vec::new();
    let mut i: usize = 0;
    assert(v@.skip(0) == v@);
    while i < v.len()
        invariant
            v@ == s@,
            i <= v.len(),
            out@ + crlf_to_lf(v@.skip(i as int)) == crlf_to_lf(s@),
        decreases v.len() - i,
    {
        let ghost t = v@.skip(i as int);
        if i + 1 < v.len() && v[i] == '\r' && v[i + 1] == '\n' {
            proof {
                assert(t.skip(2) == v@.skip(i + 2));
                assert(out@.push('\n') + crlf_to_lf(v@.skip(i + 2)) == out@ + (seq!['\n']
                    + crlf_to_lf(v@.skip(i + 2))));
            }
            out.push('\n');
            i = i + 2;
        } else {
            proof {
                assert(t.drop_first() == v@.skip(i + 1));
                assert(out@.push(v@[i as int]) + crlf_to_lf(v@.skip(i + 1)) == out@ + (seq![
                    v@[i as int],
                ] + crlf_to_lf(v@.skip(i + 1))));
            }
            out.push(v[i]);
            i = i + 1;
        }
    }
    proof {
        assert(v@.skip(i as int).len() == 0);
        assert(out@ + seq![] == out@);
    }
    string_from_chars(&out)
}


/// The lines of `source` as `str::lines` yields them.
pub fn source_lines(source: &str) -> (r: Vec<Vec<char>>)
    ensures
        views_of(r@) == spec_lines(source@),
        source@.len() <= usize::MAX,
{
    let v = chars_of(source);
    split_lines(&v)
}


// ---------------------------------------------------------------------------
// Lines put back together
// ---------------------------------------------------------------------------
/// The lines, each followed by `\n`.
pub open spec fn joined_lines(ls: Seq<Seq<char>>) -> Seq<char>
    decreases ls.len(),
{
    if ls.len() == 0 {
        seq![]
    } else {
        ls[0] + seq!['\n'] + joined_lines(ls.drop_first())
    }
}

pub proof fn lemma_joined_push(ls: Seq<Seq<char>>, x: Seq<char>)
    ensures
        joined_lines(ls.push(x)) == joined_lines(ls) + x + seq!['\n'],
    decreases ls.len(),
{
    if ls.len() == 0 {
        assert(ls.push(x).drop_first() =~= Seq::<Seq<char>>::empty());
        assert(joined_lines(ls.push(x).drop_first()).len() == 0);
        assert(ls.push(x)[0] == x);
        assert(joined_lines(ls.push(x)) =~= x + seq!['\n']);
        assert(joined_lines(ls) + x + seq!['\n'] =~= x + seq!['\n']);
    } else {
        assert(ls.push(x).drop_first() =~= ls.drop_first().push(x));
        lemma_joined_push(ls.drop_first(), x);
        assert(joined_lines(ls.push(x)) =~= joined_lines(ls) + x + seq!['\n']);
    }
}

/// No line is longer, with the lines before it and their `\n`s, than the
/// text it came from.
pub proof fn lemma_lines_length(s: Seq<char>, j: int)
    requires
        0 <= j < spec_lines(s).len(),
    ensures
        joined_lines(spec_lines(s).take(j)).len() + spec_lines(s)[j].len() <= s.len(),
    decreases s.len(),
{
    let ls = spec_lines(s);
    let k = newline_index(s);
    lemma_first_match(s, |c: char| c == '\n');
    if k >= s.len() {
        assert(ls.take(j) =~= Seq::<Seq<char>>::empty());
    } else {
        let rest = spec_lines(s.skip(k + 1 as int));
        assert(ls == seq![strip_cr(s.take(k as int))] + rest);
        if j == 0 {
            assert(ls.take(j) =~= Seq::<Seq<char>>::empty());
        } else {
            lemma_lines_length(s.skip(k + 1 as int), j - 1);
            assert(ls.take(j)[0] == strip_cr(s.take(k as int)));
            assert(ls.take(j).drop_first() =~= rest.take(j - 1));
            assert(ls[j] == rest[j - 1]);
        }
    }
}

/// There are no more lines than characters.
pub proof fn lemma_lines_count(s: Seq<char>)
    ensures
        spec_lines(s).len() <= s.len(),
    decreases s.len(),
{
    if s.len() > 0 {
        let k = newline_index(s);
        lemma_first_match(s, |c: char| c == '\n');
        if k < s.len() {
            lemma_lines_count(s.skip(k + 1 as int));
        }
    }
}

/// The first `n` lines, each followed by `\n`.
pub fn join_first_lines(ls: &Vec<Vec<char>>, n: usize) -> (r: Vec<char>)
    requires
        n <= ls.len(),
    ensures
        r@ == joined_lines(views_of(ls@).take(n as int)),
{
    let mut out: Vec<char> = Vec::new();
    let mut m: usize = 0;
    assert(views_of(ls@).take(0) =~= Seq::<Seq<char>>::empty());
    while m < n
        invariant
            m <= n <= ls.len(),
            out@ == joined_lines(views_of(ls@).take(m as int)),
        decreases n - m,
    {
        let ghost vs = views_of(ls@);
        proof {
            assert(vs.take(m + 1) =~= vs.take(m as int).push(vs[m as int]));
            lemma_joined_push(vs.take(m as int), vs[m as int]);
        }
        append_chars(&mut out, &ls[m]);
        out.push('\n');
        m = m + 1;
    }
    out
}

// ---------------------------------------------------------------------------
// Single characters
// ---------------------------------------------------------------------------
/// The first position of `c` in `s`, or `s.len()` (`str::find`).
pub open spec fn index_of(s: Seq<char>, c: char) -> nat
    decreases s.len(),
{
    if s.len() == 0 {
        0
    } else if s[0] == c {
        0
    } else {
        1 + index_of(s.drop_first(), c)
    }
}

pub proof fn lemma_index_of(s: Seq<char>, c: char)
    ensures
        index_of(s, c) <= s.len(),
        forall|m: int| 0 <= m < index_of(s, c) ==> #[trigger] s[m] != c,
        index_of(s, c) < s.len() ==> s[index_of(s, c) as int] == c,
    decreases s.len(),
{
    if s.len() > 0 && s[0] != c {
        lemma_index_of(s.drop_first(), c);
        assert forall|m: int| 0 <= m < index_of(s, c) implies #[trigger] s[m] != c by {
            if m > 0 {
                assert(s[m] == s.drop_first()[m - 1]);
            }
        }
    }
}

pub proof fn lemma_index_of_is(s: Seq<char>, c: char, k: nat)
    requires
        k <= s.len(),
        forall|m: int| 0 <= m < k ==> #[trigger] s[m] != c,
        k == s.len() || s[k as int] == c,
    ensures
        index_of(s, c) == k,
    decreases k,
{
    if k > 0 {
        let t = s.drop_first();
        assert(s[0] != c);
        assert forall|m: int| 0 <= m < k - 1 implies #[trigger] t[m] != c by {
            assert(t[m] == s[m + 1]);
        }
        if k < s.len() {
            assert(t[k - 1] == s[k as int]);
        }
        lemma_index_of_is(t, c, (k - 1) as nat);
    }
}

/// The last position of `c` in `s`, or -1 (`str::rfind`).
pub open spec fn last_index_of(s: Seq<char>, c: char) -> int
    decreases s.len(),
{
    if s.len() == 0 {
        -1
    } else if s.last() == c {
        s.len() - 1
    } else {
        last_index_of(s.drop_last(), c)
    }
}

pub proof fn lemma_last_index_of(s: Seq<char>, c: char)
    ensures
        -1 <= last_index_of(s, c) < s.len(),
        last_index_of(s, c) >= 0 ==> s[last_index_of(s, c)] == c,
        forall|m: int| last_index_of(s, c) < m < s.len() ==> #[trigger] s[m] != c,
    decreases s.len(),
{
    if s.len() > 0 && s.last() != c {
        lemma_last_index_of(s.drop_last(), c);
        assert forall|m: int| last_index_of(s, c) < m < s.len() implies #[trigger] s[m] != c by {
            if m < s.len() - 1 {
                assert(s[m] == s.drop_last()[m]);
            }
        }
    }
}

/// The first position of `c` in `s`, or `s.len()`.
pub fn find_char(s: &Vec<char>, c: char) -> (r: usize)
    ensures
        r == index_of(s@, c),
{
    let mut i: usize = 0;
    while i < s.len() && s[i] != c
        invariant
            i <= s.len(),
            forall|m: int| 0 <= m < i ==> #[trigger] s@[m] != c,
        decreases s.len() - i,
    {
        i = i + 1;
    }
    proof {
        lemma_index_of_is(s@, c, i as nat);
    }
    i
}

/// The last position of `c` in `s`, if any.
pub fn rfind_char(s: &Vec<char>, c: char) -> (r: Option<usize>)
    ensures
        match r {
            Some(i) => i as int == last_index_of(s@, c),
            None => last_index_of(s@, c) == -1,
        },
{
    let mut i: usize = s.len();
    assert(s@.take(s.len() as int) == s@);
    while i > 0
        invariant
            i <= s.len(),
            last_index_of(s@, c) == last_index_of(s@.take(i as int), c),
        decreases i,
    {
        assert(s@.take(i as int).drop_last() =~= s@.take(i - 1));
        if s[i - 1] == c {
            return Some(i - 1);
        }
        i = i - 1;
    }
    None
}

// ---------------------------------------------------------------------------
// Splitting on commas
// ---------------------------------------------------------------------------
/// The pieces of `s` between commas (`str::split(',')`); there is always at
/// least one.
pub open spec fn split_commas(s: Seq<char>) -> Seq<Seq<char>>
    decreases s.len(),
{
    let k = index_of(s, ',');
    if k >= s.len() {
        seq![s]
    } else {
        seq![s.take(k as int)] + split_commas(s.skip(k + 1 as int))
    }
}

/// Splits `s` at its commas.
pub fn split_at_commas(s: &Vec<char>) -> (r: Vec<Vec<char>>)
    ensures
        views_of(r@) == split_commas(s@),
{
    let mut done: Vec<Vec<char>> = Vec::new();
    let mut start: usize = 0;
    let mut i: usize = 0;
    assert(s@.skip(0) == s@);
    while i < s.len()
        invariant
            start <= i <= s.len(),
            views_of(done@) + split_commas(s@.skip(start as int)) == split_commas(s@),
            forall|m: int| start <= m < i ==> s@[m] != ',',
        decreases s.len() - i,
    {
        if s[i] == ',' {
            let ghost t = s@.skip(start as int);
            proof {
                lemma_index_of_is(t, ',', (i - start) as nat);
                assert(t.take((i - start) as int) == s@.subrange(start as int, i as int));
                assert(t.skip((i - start) + 1) == s@.skip(i + 1));
            }
            let piece = copy_range(s, start, i);
            let ghost prev = done@;
            done.push(piece);
            proof {
                assert(views_of(done@) == views_of(prev).push(piece@));
                assert(views_of(done@) + split_commas(s@.skip(i + 1)) == views_of(prev) + (seq![
                    piece@,
                ] + split_commas(s@.skip(i + 1))));
            }
            start = i + 1;
        }
        i = i + 1;
    }
    let ghost t = s@.skip(start as int);
    proof {
        lemma_index_of_is(t, ',', (s.len() - start) as nat);
        assert(t == s@.subrange(start as int, s.len() as int));
    }
    let piece = copy_range(s, start, s.len());
    let ghost prev = done@;
    done.push(piece);
    proof {
        assert(views_of(done@) == views_of(prev).push(piece@));
        assert(views_of(done@) == views_of(prev) + seq![piece@]);
    }
    done
}

} // verus!
