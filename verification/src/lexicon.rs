//! The scalar lexicon: which strings may stand unquoted, how strings are
//! escaped and unescaped, and the number grammar.
//!
//! A single pair of predicates (`value_needs_quotes`, `key_needs_quotes`)
//! governs every quoting decision of the emitter, and the token scanner of
//! the parser is their inverse: scanning a rendered token yields the scalar
//! it came from (`lemma_scan_render_prim`).

use vstd::prelude::*;

verus! {

// --- character classes ---

/// Whitespace that is trimmed around tokens.
pub open spec fn is_ws(c: char) -> bool {
    c == ' ' || c == '\t' || c == '\r'
}

/// A control character: U+0000..U+001F or U+007F.
pub open spec fn is_control(c: char) -> bool {
    (c as u32) < 0x20 || (c as u32) == 0x7f
}

pub open spec fn is_digit(c: char) -> bool {
    ('0' as u32) <= (c as u32) && (c as u32) <= ('9' as u32)
}

pub open spec fn is_hex_digit(c: char) -> bool {
    is_digit(c) || (('a' as u32) <= (c as u32) && (c as u32) <= ('f' as u32)) || (('A' as u32) <= (
    c as u32) && (c as u32) <= ('F' as u32))
}

pub open spec fn is_ident_start(c: char) -> bool {
    (('a' as u32) <= (c as u32) && (c as u32) <= ('z' as u32)) || (('A' as u32) <= (c as u32) && (
    c as u32) <= ('Z' as u32)) || c == '_'
}

pub open spec fn is_ident_char(c: char) -> bool {
    is_ident_start(c) || is_digit(c)
}

/// An unquoted key: an identifier, `[A-Za-z_][A-Za-z0-9_]*`.
pub open spec fn is_ident(s: Seq<char>) -> bool {
    s.len() > 0 && is_ident_start(s[0]) && forall|i: int| 0 <= i < s.len() ==> is_ident_char(
        #[trigger] s[i],
    )
}

pub open spec fn true_chars() -> Seq<char> {
    seq!['t', 'r', 'u', 'e']
}

pub open spec fn false_chars() -> Seq<char> {
    seq!['f', 'a', 'l', 's', 'e']
}

pub open spec fn null_chars() -> Seq<char> {
    seq!['n', 'u', 'l', 'l']
}

// --- the number grammar ---

/// The first index at or after `i` that does not hold a decimal digit.
pub open spec fn digits_end(s: Seq<char>, i: int) -> int
    decreases s.len() - i,
{
    if i < s.len() && 0 <= i && is_digit(s[i]) {
        digits_end(s, i + 1)
    } else {
        i
    }
}

/// Where a number token starting at index 0 ends, by the grammar
/// `-? int frac? exp?` with `int` = `0` or a nonzero digit then digits,
/// `frac` = `.` then digits, `exp` = `e|E` then an optional sign then digits.
/// The result is less than `s.len()` exactly when `s` is not a number.
pub open spec fn number_end(s: Seq<char>) -> int {
    let i0: int = if s.len() > 0 && s[0] == '-' {
        1
    } else {
        0
    };
    if i0 < s.len() && is_digit(s[i0]) {
        let i1 = if s[i0] == '0' {
            i0 + 1
        } else {
            digits_end(s, i0)
        };
        let i2 = if i1 + 1 < s.len() && s[i1] == '.' && is_digit(s[i1 + 1]) {
            digits_end(s, i1 + 1)
        } else {
            i1
        };
        if i2 < s.len() && (s[i2] == 'e' || s[i2] == 'E') {
            let j0 = if i2 + 1 < s.len() && (s[i2 + 1] == '+' || s[i2 + 1] == '-') {
                i2 + 2
            } else {
                i2 + 1
            };
            if j0 < s.len() && is_digit(s[j0]) {
                digits_end(s, j0)
            } else {
                i2
            }
        } else {
            i2
        }
    } else {
        0
    }
}

/// Whether `s` parses, in its entirety, as a number.
pub open spec fn is_number_token(s: Seq<char>) -> bool {
    s.len() > 0 && number_end(s) == s.len()
}

/// A reserved word: a token that could not be read back as a string.
pub open spec fn is_reserved(s: Seq<char>) -> bool {
    s == true_chars() || s == false_chars() || s == null_chars() || is_number_token(s)
}

// --- quoting predicates ---

/// A character that bars a string value from standing unquoted: structural
/// punctuation, the active delimiter, quotes, and control characters.
pub open spec fn is_value_bad_char(c: char, delim: char) -> bool {
    is_control(c) || c == '"' || c == '\\' || c == ':' || c == ',' || c == delim || c == '[' || c
        == ']' || c == '{' || c == '}' || c == '#'
}

/// Whether a string value must be written quoted: it is empty, begins or
/// ends with whitespace, holds a barred character, or reads as a reserved
/// token.
pub open spec fn value_needs_quotes(s: Seq<char>, delim: char) -> bool {
    ||| s.len() == 0
    ||| s[0] == ' '
    ||| s[s.len() - 1] == ' '
    ||| exists|i: int| 0 <= i < s.len() && is_value_bad_char(#[trigger] s[i], delim)
    ||| is_reserved(s)
}

/// Whether a key must be written quoted: anything but a non-reserved
/// identifier.
pub open spec fn key_needs_quotes(k: Seq<char>) -> bool {
    !is_ident(k) || k == true_chars() || k == false_chars() || k == null_chars()
}

// --- escaping ---

/// The lower hex digit character for `n` in 0..16.
pub open spec fn hex_char(n: int) -> char {
    if n == 0 {
        '0'
    } else if n == 1 {
        '1'
    } else if n == 2 {
        '2'
    } else if n == 3 {
        '3'
    } else if n == 4 {
        '4'
    } else if n == 5 {
        '5'
    } else if n == 6 {
        '6'
    } else if n == 7 {
        '7'
    } else if n == 8 {
        '8'
    } else if n == 9 {
        '9'
    } else if n == 10 {
        'a'
    } else if n == 11 {
        'b'
    } else if n == 12 {
        'c'
    } else if n == 13 {
        'd'
    } else if n == 14 {
        'e'
    } else {
        'f'
    }
}

/// The value of a hex digit character.
pub open spec fn hex_val(c: char) -> int {
    if is_digit(c) {
        (c as u32) - ('0' as u32)
    } else if ('a' as u32) <= (c as u32) && (c as u32) <= ('f' as u32) {
        (c as u32) - ('a' as u32) + 10
    } else {
        (c as u32) - ('A' as u32) + 10
    }
}

/// How one character is written inside a quoted string.
pub open spec fn esc_char(c: char) -> Seq<char> {
    if c == '"' {
        seq!['\\', '"']
    } else if c == '\\' {
        seq!['\\', '\\']
    } else if c == '\n' {
        seq!['\\', 'n']
    } else if c == '\r' {
        seq!['\\', 'r']
    } else if c == '\t' {
        seq!['\\', 't']
    } else if (c as u32) == 0x08 {
        seq!['\\', 'b']
    } else if (c as u32) == 0x0c {
        seq!['\\', 'f']
    } else if is_control(c) {
        seq!['\\', 'u', '0', '0', hex_char((c as u32) as int / 16), hex_char((c as u32) as int % 16)]
    } else {
        seq![c]
    }
}

/// The escaped body of a quoted string.
pub open spec fn escape(s: Seq<char>) -> Seq<char>
    decreases s.len(),
{
    if s.len() == 0 {
        Seq::empty()
    } else {
        esc_char(s[0]) + escape(s.drop_first())
    }
}

/// A quoted string token: `"` body `"`.
pub open spec fn quote_str(s: Seq<char>) -> Seq<char> {
    seq!['"'] + escape(s) + seq!['"']
}

pub proof fn lemma_escape_append(a: Seq<char>, b: Seq<char>)
    ensures
        escape(a + b) == escape(a) + escape(b),
    decreases a.len(),
{
    if a.len() == 0 {
        assert(a + b =~= b);
        assert(escape(a) + escape(b) =~= escape(b));
    } else {
        lemma_escape_append(a.drop_first(), b);
        assert((a + b).drop_first() =~= a.drop_first() + b);
        assert(escape(a + b) =~= escape(a) + escape(b));
    }
}

// --- rendered scalar tokens ---

/// How a string value is written, given the active delimiter.
pub open spec fn render_string(s: Seq<char>, delim: char) -> Seq<char> {
    if value_needs_quotes(s, delim) {
        quote_str(s)
    } else {
        s
    }
}

/// How a key is written.
pub open spec fn render_key(k: Seq<char>) -> Seq<char> {
    if key_needs_quotes(k) {
        quote_str(k)
    } else {
        k
    }
}

/// How a scalar is written, given the active delimiter.  Number tokens are
/// written verbatim: a value carries its number already in decimal form.
pub open spec fn render_prim(p: crate::value::PrimModel, delim: char) -> Seq<char> {
    match p {
        crate::value::PrimModel::Null => null_chars(),
        crate::value::PrimModel::Bool(b) => if b {
            true_chars()
        } else {
            false_chars()
        },
        crate::value::PrimModel::Num(t) => t,
        crate::value::PrimModel::Str(s) => render_string(s, delim),
    }
}

// --- executable character classes ---

pub fn ws_char(c: char) -> (r: bool)
    ensures
        r == is_ws(c),
{
    c == ' ' || c == '\t' || c == '\r'
}

pub fn control_char(c: char) -> (r: bool)
    ensures
        r == is_control(c),
{
    (c as u32) < 0x20 || (c as u32) == 0x7f
}

pub fn digit_char(c: char) -> (r: bool)
    ensures
        r == is_digit(c),
{
    ('0' as u32) <= (c as u32) && (c as u32) <= ('9' as u32)
}

pub fn ident_start_char(c: char) -> (r: bool)
    ensures
        r == is_ident_start(c),
{
    (('a' as u32) <= (c as u32) && (c as u32) <= ('z' as u32)) || (('A' as u32) <= (c as u32) && (
    c as u32) <= ('Z' as u32)) || c == '_'
}

pub fn ident_char(c: char) -> (r: bool)
    ensures
        r == is_ident_char(c),
{
    ident_start_char(c) || digit_char(c)
}

// --- executable scanners ---

pub proof fn lemma_digits_end_at(s: Seq<char>, i: int, j: int)
    requires
        0 <= i <= j <= s.len(),
        forall|k: int| i <= k < j ==> is_digit(#[trigger] s[k]),
        j == s.len() || !is_digit(s[j]),
    ensures
        digits_end(s, i) == j,
    decreases j - i,
{
    if i < j {
        lemma_digits_end_at(s, i + 1, j);
    }
}

/// The first index at or after `i` without a decimal digit.
pub fn scan_digits(s: &Vec<char>, i: usize) -> (r: usize)
    requires
        i <= s@.len(),
    ensures
        r == digits_end(s@, i as int),
        i <= r <= s@.len(),
{
    let mut j = i;
    while j < s.len() && digit_char(s[j])
        invariant
            i <= j <= s@.len(),
            forall|k: int| i <= k < j ==> is_digit(#[trigger] s@[k]),
        decreases s@.len() - j,
    {
        j = j + 1;
    }
    proof {
        lemma_digits_end_at(s@, i as int, j as int);
    }
    j
}

/// Whether the whole of `s` is a number token.
pub fn number_token(s: &Vec<char>) -> (r: bool)
    ensures
        r == is_number_token(s@),
{
    if s.len() == 0 {
        return false;
    }
    let i0: usize = if s[0] == '-' {
        1
    } else {
        0
    };
    if !(i0 < s.len() && digit_char(s[i0])) {
        return false;
    }
    let i1: usize = if s[i0] == '0' {
        i0 + 1
    } else {
        scan_digits(s, i0)
    };
    let i2: usize = if i1 < s.len() && s[i1] == '.' && i1 + 1 < s.len() && digit_char(s[i1 + 1]) {
        scan_digits(s, i1 + 1)
    } else {
        i1
    };
    let end: usize = if i2 < s.len() && (s[i2] == 'e' || s[i2] == 'E') {
        let j0: usize = if i2 + 1 < s.len() && (s[i2 + 1] == '+' || s[i2 + 1] == '-') {
            i2 + 2
        } else {
            i2 + 1
        };
        if j0 < s.len() && digit_char(s[j0]) {
            scan_digits(s, j0)
        } else {
            i2
        }
    } else {
        i2
    };
    end == s.len()
}

/// A number token begins with a sign or a digit, so it can never be
/// mistaken for a quoted string or a word.
pub proof fn lemma_number_first_char(s: Seq<char>)
    requires
        is_number_token(s),
    ensures
        s[0] == '-' || is_digit(s[0]),
{
}

// --- trimming ---

/// The first index at or after `i` without trimmable whitespace.
pub open spec fn skip_ws(s: Seq<char>, i: int) -> int
    decreases s.len() - i,
{
    if 0 <= i && i < s.len() && is_ws(s[i]) {
        skip_ws(s, i + 1)
    } else {
        i
    }
}

/// The length of `s` with trailing trimmable whitespace removed.
pub open spec fn rstrip_end(s: Seq<char>) -> int
    decreases s.len(),
{
    if s.len() > 0 && is_ws(s[s.len() - 1]) {
        rstrip_end(s.take(s.len() - 1))
    } else {
        s.len() as int
    }
}

/// `s` without leading and trailing trimmable whitespace.
pub open spec fn trim(s: Seq<char>) -> Seq<char> {
    let t = s.take(rstrip_end(s));
    t.subrange(skip_ws(t, 0), t.len() as int)
}

pub proof fn lemma_skip_ws_at(s: Seq<char>, i: int, j: int)
    requires
        0 <= i <= j <= s.len(),
        forall|k: int| i <= k < j ==> is_ws(#[trigger] s[k]),
        j == s.len() || !is_ws(s[j]),
    ensures
        skip_ws(s, i) == j,
    decreases j - i,
{
    if i < j {
        lemma_skip_ws_at(s, i + 1, j);
    }
}

proof fn lemma_rstrip_at(s: Seq<char>, j: int)
    requires
        0 <= j <= s.len(),
        forall|k: int| j <= k < s.len() ==> is_ws(#[trigger] s[k]),
        j == 0 || !is_ws(s[j - 1]),
    ensures
        rstrip_end(s) == j,
    decreases s.len(),
{
    if j < s.len() {
        lemma_rstrip_at(s.take(s.len() - 1), j);
    }
}

/// A copy of `s` with surrounding whitespace removed.
pub fn trim_copy(s: &Vec<char>) -> (r: Vec<char>)
    ensures
        r@ == trim(s@),
{
    let mut j: usize = s.len();
    while j > 0 && ws_char(s[j - 1])
        invariant
            j <= s@.len(),
            forall|k: int| j <= k < s@.len() ==> is_ws(#[trigger] s@[k]),
        decreases j,
    {
        j = j - 1;
    }
    proof {
        lemma_rstrip_at(s@, j as int);
    }
    let mut i: usize = 0;
    while i < j && ws_char(s[i])
        invariant
            i <= j <= s@.len(),
            forall|k: int| 0 <= k < i ==> is_ws(#[trigger] s@[k]),
        decreases j - i,
    {
        i = i + 1;
    }
    proof {
        let t = s@.take(j as int);
        assert(forall|k: int| 0 <= k < i ==> is_ws(#[trigger] t[k]));
        assert(i as int == t.len() || !is_ws(t[i as int]));
        lemma_skip_ws_at(t, 0, i as int);
        assert(t.subrange(i as int, t.len() as int) =~= s@.subrange(i as int, j as int));
    }
    crate::chars::copy_range(s, i, j)
}

// --- executable escaping ---

pub fn hex_char_of(n: u32) -> (r: char)
    requires
        n < 16,
    ensures
        r == hex_char(n as int),
{
    if n == 0 {
        '0'
    } else if n == 1 {
        '1'
    } else if n == 2 {
        '2'
    } else if n == 3 {
        '3'
    } else if n == 4 {
        '4'
    } else if n == 5 {
        '5'
    } else if n == 6 {
        '6'
    } else if n == 7 {
        '7'
    } else if n == 8 {
        '8'
    } else if n == 9 {
        '9'
    } else if n == 10 {
        'a'
    } else if n == 11 {
        'b'
    } else if n == 12 {
        'c'
    } else if n == 13 {
        'd'
    } else if n == 14 {
        'e'
    } else {
        'f'
    }
}

/// Appends the escaped form of one character.
fn push_esc_char(out: &mut Vec<char>, c: char)
    ensures
        final(out)@ == old(out)@ + esc_char(c),
{
    if c == '"' {
        out.push('\\');
        out.push('"');
    } else if c == '\\' {
        out.push('\\');
        out.push('\\');
    } else if c == '\n' {
        out.push('\\');
        out.push('n');
    } else if c == '\r' {
        out.push('\\');
        out.push('r');
    } else if c == '\t' {
        out.push('\\');
        out.push('t');
    } else if (c as u32) == 0x08 {
        out.push('\\');
        out.push('b');
    } else if (c as u32) == 0x0c {
        out.push('\\');
        out.push('f');
    } else if control_char(c) {
        out.push('\\');
        out.push('u');
        out.push('0');
        out.push('0');
        out.push(hex_char_of((c as u32) / 16));
        out.push(hex_char_of((c as u32) % 16));
    } else {
        out.push(c);
    }
    proof {
        assert(final(out)@ =~= old(out)@ + esc_char(c));
    }
}

/// Appends the escaped body of `s`.
pub fn push_escaped(out: &mut Vec<char>, s: &Vec<char>)
    ensures
        final(out)@ == old(out)@ + escape(s@),
{
    let mut i: usize = 0;
    while i < s.len()
        invariant
            i <= s@.len(),
            out@ == old(out)@ + escape(s@.take(i as int)),
        decreases s@.len() - i,
    {
        proof {
            let x = s@[i as int];
            lemma_escape_append(s@.take(i as int), seq![x]);
            assert(s@.take(i + 1 as int) =~= s@.take(i as int) + seq![x]);
            assert(seq![x].len() == 1);
            assert(seq![x][0] == x);
            assert(seq![x].drop_first() =~= Seq::<char>::empty());
            assert(escape(seq![x]) == esc_char(x) + escape(seq![x].drop_first()));
            assert(escape(seq![x]) =~= esc_char(x));
        }
        push_esc_char(out, s[i]);
        i = i + 1;
    }
    proof {
        assert(s@.take(s@.len() as int) =~= s@);
    }
}

/// Appends the quoted form of `s`: quotes around the escaped body.
pub fn push_quoted(out: &mut Vec<char>, s: &Vec<char>)
    ensures
        final(out)@ == old(out)@ + quote_str(s@),
{
    out.push('"');
    push_escaped(out, s);
    out.push('"');
    proof {
        assert(final(out)@ =~= old(out)@ + quote_str(s@));
    }
}

// --- unescaping (the scanner for quoted tokens) ---

/// The character named by a simple escape, if any.
pub open spec fn esc_simple(c: char) -> Option<char> {
    if c == '"' {
        Some('"')
    } else if c == '\\' {
        Some('\\')
    } else if c == 'n' {
        Some('\n')
    } else if c == 'r' {
        Some('\r')
    } else if c == 't' {
        Some('\t')
    } else if c == 'b' {
        Some('\u{8}')
    } else if c == 'f' {
        Some('\u{c}')
    } else {
        None
    }
}

/// The scalar named by the four hex digits at `i`, if they are hex digits
/// naming a character that exists (not a surrogate).
pub open spec fn esc_hex(s: Seq<char>, i: int) -> Option<char> {
    if i + 4 <= s.len() && is_hex_digit(s[i]) && is_hex_digit(s[i + 1]) && is_hex_digit(s[i + 2])
        && is_hex_digit(s[i + 3]) {
        let v = hex_val(s[i]) * 4096 + hex_val(s[i + 1]) * 256 + hex_val(s[i + 2]) * 16 + hex_val(
            s[i + 3],
        );
        if v < 0xD800 || v >= 0xE000 {
            Some(((v as u32) as char))
        } else {
            None
        }
    } else {
        None
    }
}

/// Scans the body of a quoted token from index `i` up to the closing quote.
/// Yields the unescaped content and the index after the closing quote, or
/// nothing on an unterminated token or an invalid escape.
pub open spec fn unesc(s: Seq<char>, i: int) -> Option<(Seq<char>, int)>
    decreases s.len() - i,
{
    if i < 0 || i >= s.len() {
        None
    } else if s[i] == '"' {
        Some((Seq::empty(), i + 1))
    } else if s[i] == '\\' {
        if i + 1 < s.len() && s[i + 1] == 'u' {
            match esc_hex(s, i + 2) {
                Option::None => None,
                Option::Some(c) => match unesc(s, i + 6) {
                    Option::None => None,
                    Option::Some((rest, k)) => Some((seq![c] + rest, k)),
                },
            }
        } else if i + 1 < s.len() {
            match esc_simple(s[i + 1]) {
                Option::None => None,
                Option::Some(c) => match unesc(s, i + 2) {
                    Option::None => None,
                    Option::Some((rest, k)) => Some((seq![c] + rest, k)),
                },
            }
        } else {
            None
        }
    } else {
        match unesc(s, i + 1) {
            Option::None => None,
            Option::Some((rest, k)) => Some((seq![s[i]] + rest, k)),
        }
    }
}

fn hex_val_of(c: char) -> (r: u32)
    requires
        is_hex_digit(c),
    ensures
        r == hex_val(c),
        r < 16,
{
    if ('0' as u32) <= (c as u32) && (c as u32) <= ('9' as u32) {
        (c as u32) - ('0' as u32)
    } else if ('a' as u32) <= (c as u32) && (c as u32) <= ('f' as u32) {
        (c as u32) - ('a' as u32) + 10
    } else {
        (c as u32) - ('A' as u32) + 10
    }
}

/// After a successful scan the end index lies within the token.
pub proof fn lemma_unesc_end(s: Seq<char>, i: int)
    ensures
        match unesc(s, i) {
            Option::None => true,
            Option::Some((c, k)) => i < k <= s.len(),
        },
    decreases s.len() - i,
{
    if 0 <= i && i < s.len() {
        if s[i] == '"' {
        } else if s[i] == '\\' {
            if i + 6 <= s.len() {
                lemma_unesc_end(s, i + 6);
            }
            if i + 2 <= s.len() {
                lemma_unesc_end(s, i + 2);
            }
        } else {
            lemma_unesc_end(s, i + 1);
        }
    }
}

/// Scans the body of a quoted token, returning the content and the index
/// after the closing quote.
pub fn scan_quoted(s: &Vec<char>, start: usize) -> (r: Option<(Vec<char>, usize)>)
    requires
        start <= s@.len(),
    ensures
        match r {
            Option::None => unesc(s@, start as int) is None,
            Option::Some((c, k)) => unesc(s@, start as int) == Some((c@, k as int)) && k <= s@.len(),
        },
{
    let mut out: Vec<char> = Vec::new();
    let mut i: usize = start;
    proof {
        lemma_unesc_end(s@, start as int);
        match unesc(s@, start as int) {
            Option::None => {},
            Option::Some((rest, k)) => {
                assert(Seq::<char>::empty() + rest =~= rest);
            },
        }
    }
    loop
        invariant
            start <= i <= s@.len(),
            match unesc(s@, i as int) {
                Option::None => unesc(s@, start as int) is None,
                Option::Some((rest, k)) => unesc(s@, start as int) == Some((out@ + rest, k)) && k
                    <= s@.len(),
            },
        decreases s@.len() - i,
    {
        if i >= s.len() {
            return None;
        }
        let c = s[i];
        if c == '"' {
            proof {
                assert(out@ + Seq::<char>::empty() =~= out@);
            }
            return Some((out, i + 1));
        }
        if c == '\\' {
            if i + 1 < s.len() && s[i + 1] == 'u' {
                if !(s.len() - i >= 6) {
                    proof {
                        assert(esc_hex(s@, i + 2 as int) is None);
                    }
                    return None;
                }
                let h0 = s[i + 2];
                let h1 = s[i + 3];
                let h2 = s[i + 4];
                let h3 = s[i + 5];
                if !(hex_digit_char(h0) && hex_digit_char(h1) && hex_digit_char(h2)
                    && hex_digit_char(h3)) {
                    return None;
                }
                let v: u32 = hex_val_of(h0) * 4096 + hex_val_of(h1) * 256 + hex_val_of(h2) * 16
                    + hex_val_of(h3);
                if !(v < 0xD800 || v >= 0xE000) {
                    return None;
                }
                let ch = crate::chars::char_from_u32(v);
                proof {
                    let ghost old_out = out@;
                    assert(esc_hex(s@, i + 2 as int) == Some(ch));
                }
                let ghost prev = out@;
                out.push(ch);
                proof {
                    match unesc(s@, i + 6 as int) {
                        Option::None => {},
                        Option::Some((rest, k)) => {
                            assert(unesc(s@, i as int) == Some((seq![ch] + rest, k)));
                            assert(prev + (seq![ch] + rest) =~= out@ + rest);
                        },
                    }
                }
                i = i + 6;
            } else if i + 1 < s.len() {
                let e = s[i + 1];
                let dec: Option<char> = if e == '"' {
                    Some('"')
                } else if e == '\\' {
                    Some('\\')
                } else if e == 'n' {
                    Some('\n')
                } else if e == 'r' {
                    Some('\r')
                } else if e == 't' {
                    Some('\t')
                } else if e == 'b' {
                    Some('\u{8}')
                } else if e == 'f' {
                    Some('\u{c}')
                } else {
                    None
                };
                proof {
                    assert(dec == esc_simple(s@[i + 1 as int]));
                }
                match dec {
                    Option::None => {
                        return None;
                    },
                    Option::Some(ch) => {
                        let ghost prev = out@;
                        out.push(ch);
                        proof {
                            match unesc(s@, i + 2 as int) {
                                Option::None => {},
                                Option::Some((rest, k)) => {
                                    assert(unesc(s@, i as int) == Some((seq![ch] + rest, k)));
                                    assert(prev + (seq![ch] + rest) =~= out@ + rest);
                                },
                            }
                        }
                        i = i + 2;
                    },
                }
            } else {
                return None;
            }
        } else {
            let ghost prev = out@;
            out.push(c);
            proof {
                match unesc(s@, i + 1 as int) {
                    Option::None => {},
                    Option::Some((rest, k)) => {
                        assert(unesc(s@, i as int) == Some((seq![c] + rest, k)));
                        assert(prev + (seq![c] + rest) =~= out@ + rest);
                    },
                }
            }
            i = i + 1;
        }
    }
}

pub fn hex_digit_char(c: char) -> (r: bool)
    ensures
        r == is_hex_digit(c),
{
    digit_char(c) || (('a' as u32) <= (c as u32) && (c as u32) <= ('f' as u32)) || (('A' as u32)
        <= (c as u32) && (c as u32) <= ('F' as u32))
}

// --- executable word and quoting checks ---

pub fn word_true(s: &Vec<char>) -> (r: bool)
    ensures
        r == (s@ == true_chars()),
{
    let r = s.len() == 4 && s[0] == 't' && s[1] == 'r' && s[2] == 'u' && s[3] == 'e';
    proof {
        if r {
            assert(s@ =~= true_chars());
        }
    }
    r
}

pub fn word_false(s: &Vec<char>) -> (r: bool)
    ensures
        r == (s@ == false_chars()),
{
    let r = s.len() == 5 && s[0] == 'f' && s[1] == 'a' && s[2] == 'l' && s[3] == 's' && s[4] == 'e';
    proof {
        if r {
            assert(s@ =~= false_chars());
        }
    }
    r
}

pub fn word_null(s: &Vec<char>) -> (r: bool)
    ensures
        r == (s@ == null_chars()),
{
    let r = s.len() == 4 && s[0] == 'n' && s[1] == 'u' && s[2] == 'l' && s[3] == 'l';
    proof {
        if r {
            assert(s@ =~= null_chars());
        }
    }
    r
}

fn value_bad_char(c: char, delim: char) -> (r: bool)
    ensures
        r == is_value_bad_char(c, delim),
{
    control_char(c) || c == '"' || c == '\\' || c == ':' || c == ',' || c == delim || c == '['
        || c == ']' || c == '{' || c == '}' || c == '#'
}

/// Whether a string value must be written quoted.
pub fn string_needs_quotes(s: &Vec<char>, delim: char) -> (r: bool)
    ensures
        r == value_needs_quotes(s@, delim),
{
    if s.len() == 0 {
        return true;
    }
    if s[0] == ' ' || s[s.len() - 1] == ' ' {
        return true;
    }
    let mut i: usize = 0;
    while i < s.len()
        invariant
            i <= s@.len(),
            forall|j: int| 0 <= j < i ==> !is_value_bad_char(#[trigger] s@[j], delim),
        decreases s@.len() - i,
    {
        if value_bad_char(s[i], delim) {
            return true;
        }
        i = i + 1;
    }
    if word_true(s) || word_false(s) || word_null(s) || number_token(s) {
        return true;
    }
    false
}

/// Whether a key must be written quoted.
pub fn key_quotes_needed(s: &Vec<char>) -> (r: bool)
    ensures
        r == key_needs_quotes(s@),
{
    if s.len() == 0 {
        return true;
    }
    if !ident_start_char(s[0]) {
        return true;
    }
    let mut i: usize = 0;
    while i < s.len()
        invariant
            i <= s@.len(),
            forall|j: int| 0 <= j < i ==> is_ident_char(#[trigger] s@[j]),
        decreases s@.len() - i,
    {
        if !ident_char(s[i]) {
            return true;
        }
        i = i + 1;
    }
    if word_true(s) || word_false(s) || word_null(s) {
        return true;
    }
    false
}

// --- token classification (the decode side of the lexicon) ---

use crate::value::PrimModel;
use crate::value::StringOrNumberOrBoolOrNull;

/// What a whole trimmed token denotes as a scalar, if it is well formed:
/// a word, a number, a quoted string, or a bare string.
pub open spec fn classify_prim(s: Seq<char>) -> Option<PrimModel> {
    if s.len() == 0 {
        None
    } else if s == true_chars() {
        Some(PrimModel::Bool(true))
    } else if s == false_chars() {
        Some(PrimModel::Bool(false))
    } else if s == null_chars() {
        Some(PrimModel::Null)
    } else if is_number_token(s) {
        Some(PrimModel::Num(s))
    } else if s[0] == '"' {
        match unesc(s, 1) {
            Option::None => None,
            Option::Some((content, k)) => if k == s.len() {
                Some(PrimModel::Str(content))
            } else {
                None
            },
        }
    } else {
        Some(PrimModel::Str(s))
    }
}

/// Scans a whole trimmed token as a scalar; `None` is a lexical error
/// (an unterminated quote, a bad escape, text after the closing quote,
/// or an empty token).
pub fn scan_prim(s: &Vec<char>) -> (r: Option<StringOrNumberOrBoolOrNull>)
    ensures
        match r {
            Option::None => classify_prim(s@) is None,
            Option::Some(p) => classify_prim(s@) == Some(p.m()),
        },
{
    if s.len() == 0 {
        None
    } else if word_true(s) {
        Some(StringOrNumberOrBoolOrNull::Bool(true))
    } else if word_false(s) {
        Some(StringOrNumberOrBoolOrNull::Bool(false))
    } else if word_null(s) {
        Some(StringOrNumberOrBoolOrNull::Null)
    } else if number_token(s) {
        Some(StringOrNumberOrBoolOrNull::Number(crate::chars::chars_to_string(s)))
    } else if s[0] == '"' {
        match scan_quoted(s, 1) {
            Option::None => None,
            Option::Some((content, k)) => {
                if k == s.len() {
                    Some(StringOrNumberOrBoolOrNull::String(crate::chars::chars_to_string(&content)))
                } else {
                    None
                }
            },
        }
    } else {
        Some(StringOrNumberOrBoolOrNull::String(crate::chars::chars_to_string(s)))
    }
}

// --- the scalar round trip ---

/// A hex digit character made by `hex_char` reads back as its value.
proof fn lemma_hex_char_val(n: int)
    requires
        0 <= n < 16,
    ensures
        is_hex_digit(hex_char(n)),
        hex_val(hex_char(n)) == n,
{
}

/// Casting a character's scalar value back to a character is the
/// identity, below the surrogate range.
proof fn lemma_char_u32_id(c: char)
    requires
        (c as u32) < 0xD800,
    ensures
        ((c as u32) as char) == c,
{
}

/// Scanning the quoted form of a string yields the string: the escapes
/// are read back to the characters they stand for.
pub proof fn lemma_unesc_escape(prefix: Seq<char>, s: Seq<char>)
    ensures
        unesc(prefix + escape(s) + seq!['"'], prefix.len() as int) == Some(
            (s, (prefix + escape(s) + seq!['"']).len() as int),
        ),
    decreases s.len(),
{
    let t = prefix + escape(s) + seq!['"'];
    let i = prefix.len() as int;
    if s.len() == 0 {
        assert(escape(s) == Seq::<char>::empty());
        assert(t[i] == '"');
        assert(s =~= Seq::<char>::empty());
        assert(t.len() == i + 1);
    } else {
        let c = s[0];
        let s1 = s.drop_first();
        let e = esc_char(c);
        assert(escape(s) == e + escape(s1));
        lemma_unesc_escape(prefix + e, s1);
        let t1 = (prefix + e) + escape(s1) + seq!['"'];
        assert(t =~= t1);
        assert(unesc(t, i + e.len()) == Some((s1, t.len() as int)));
        if c == '"' || c == '\\' {
            assert(t[i] == '\\' && t[i + 1] == c);
            assert(esc_simple(t[i + 1]) == Some(c));
            assert(t[i + 1] != 'u');
            assert(unesc(t, i) == Some((seq![c] + s1, t.len() as int)));
        } else if c == '\n' || c == '\r' || c == '\t' || (c as u32) == 0x08 || (c as u32)
            == 0x0c {
            assert(e.len() == 2);
            assert(t[i] == e[0] && t[i + 1] == e[1]);
            assert(t[i] == '\\');
            lemma_char_u32_id(c);
            assert(c == ((c as u32) as char));
            if (c as u32) == 0x08 {
                assert(e[1] == 'b');
                assert(('\u{8}' as u32) == 0x08);
                assert(c == '\u{8}');
            }
            if (c as u32) == 0x0c {
                assert(e[1] == 'f');
                assert(('\u{c}' as u32) == 0x0c);
                assert(c == '\u{c}');
            }
            assert(esc_simple(t[i + 1]) == Some(c));
            assert(t[i + 1] != 'u');
            assert(unesc(t, i) == Some((seq![c] + s1, t.len() as int)));
        } else if is_control(c) {
            let v = c as u32;
            assert(e.len() == 6);
            assert(t[i] == e[0] && t[i + 1] == e[1] && t[i + 2] == e[2] && t[i + 3] == e[3] && t[i
                + 4] == e[4] && t[i + 5] == e[5]);
            assert(t[i] == '\\' && t[i + 1] == 'u' && t[i + 2] == '0' && t[i + 3] == '0');
            assert(t[i + 4] == hex_char(v as int / 16) && t[i + 5] == hex_char(v as int % 16));
            lemma_hex_char_val(v as int / 16);
            lemma_hex_char_val(v as int % 16);
            assert(hex_val(t[i + 2]) == 0 && hex_val(t[i + 3]) == 0);
            assert(hex_val(t[i + 4]) * 16 + hex_val(t[i + 5]) == v);
            let w = hex_val(t[i + 2]) * 4096 + hex_val(t[i + 3]) * 256 + hex_val(t[i + 4]) * 16
                + hex_val(t[i + 5]);
            assert(w == v);
            assert(w < 0xD800);
            assert(((w as u32) as char) == ((v as u32) as char));
            lemma_char_u32_id(c);
            assert(((v as u32) as char) == c);
            assert(esc_hex(t, i + 2) == Some(c));
            assert(unesc(t, i) == Some((seq![c] + s1, t.len() as int)));
        } else {
            assert(e =~= seq![c]);
            assert(t[i] == c);
            assert(c != '"' && c != '\\');
            assert(unesc(t, i) == Some((seq![c] + s1, t.len() as int)));
        }
        assert(seq![c] + s1 =~= s);
    }
}

/// Whether a scalar is well formed: a number carries a token of the
/// number grammar.
pub open spec fn wf_prim(p: PrimModel) -> bool {
    match p {
        PrimModel::Num(t) => is_number_token(t),
        _ => true,
    }
}

/// Whether every element of the sequence is a scalar.
pub open spec fn all_prims(items: Seq<crate::value::ValueModel>) -> bool {
    forall|i: int| 0 <= i < items.len() ==> (#[trigger] items[i]) is Prim
}

/// Whether a value is well formed: every number in it carries a token of
/// the number grammar.
pub open spec fn wf_value(v: crate::value::ValueModel) -> bool
    decreases v, 1int,
{
    match v {
        crate::value::ValueModel::Prim(p) => wf_prim(p),
        crate::value::ValueModel::Arr(items) => wf_seq(items),
        crate::value::ValueModel::Obj(entries) => wf_entries(entries),
    }
}

/// Whether every value of the sequence is well formed.
pub open spec fn wf_seq(items: Seq<crate::value::ValueModel>) -> bool
    decreases items, 0int,
{
    if items.len() == 0 {
        true
    } else {
        wf_value(items[0]) && wf_seq(items.drop_first())
    }
}

/// Whether every entry's value is well formed.
pub open spec fn wf_entries(entries: Seq<(Seq<char>, crate::value::ValueModel)>) -> bool
    decreases entries, 0int,
{
    if entries.len() == 0 {
        true
    } else {
        wf_value(entries[0].1) && wf_entries(entries.drop_first())
    }
}

/// `wf_seq` holds exactly when each element is well formed.
pub proof fn lemma_wf_seq(items: Seq<crate::value::ValueModel>)
    ensures
        wf_seq(items) <==> (forall|i: int|
            0 <= i < items.len() ==> wf_value(#[trigger] items[i])),
    decreases items.len(),
{
    if items.len() > 0 {
        lemma_wf_seq(items.drop_first());
        assert forall|i: int| 0 <= i < items.len() && wf_seq(items) implies wf_value(
            #[trigger] items[i],
        ) by {
            if i > 0 {
                assert(items.drop_first()[i - 1] == items[i]);
            }
        }
        if forall|i: int| 0 <= i < items.len() ==> wf_value(#[trigger] items[i]) {
            assert forall|i: int| 0 <= i < items.drop_first().len() implies wf_value(
                #[trigger] items.drop_first()[i],
            ) by {
                assert(items.drop_first()[i] == items[i + 1]);
            }
        }
    }
}

/// `wf_entries` holds exactly when each entry's value is well formed.
pub proof fn lemma_wf_entries(entries: Seq<(Seq<char>, crate::value::ValueModel)>)
    ensures
        wf_entries(entries) <==> (forall|i: int|
            0 <= i < entries.len() ==> wf_value(#[trigger] entries[i].1)),
    decreases entries.len(),
{
    if entries.len() > 0 {
        lemma_wf_entries(entries.drop_first());
        assert forall|i: int| 0 <= i < entries.len() && wf_entries(entries) implies wf_value(
            #[trigger] entries[i].1,
        ) by {
            if i > 0 {
                assert(entries.drop_first()[i - 1] == entries[i]);
            }
        }
        if forall|i: int| 0 <= i < entries.len() ==> wf_value(#[trigger] entries[i].1) {
            assert forall|i: int| 0 <= i < entries.drop_first().len() implies wf_value(
                #[trigger] entries.drop_first()[i].1,
            ) by {
                assert(entries.drop_first()[i] == entries[i + 1]);
            }
        }
    }
}

/// A token without surrounding whitespace trims to itself.
pub proof fn lemma_trim_id(s: Seq<char>)
    requires
        s.len() > 0,
        !is_ws(s[0]),
        !is_ws(s[s.len() - 1]),
    ensures
        trim(s) == s,
{
    lemma_rstrip_at(s, s.len() as int);
    let t = s.take(s.len() as int);
    assert(t =~= s);
    lemma_skip_ws_at(t, 0, 0);
    assert(t.subrange(0, t.len() as int) =~= s);
}

/// Digits stand at every index a digit scan passes over.
pub proof fn lemma_digits_chars(s: Seq<char>, i: int)
    ensures
        forall|k: int| i <= k < digits_end(s, i) ==> is_digit(#[trigger] s[k]),
    decreases s.len() - i,
{
    if 0 <= i && i < s.len() && is_digit(s[i]) {
        lemma_digits_chars(s, i + 1);
    }
}

/// Every character of a number token is a digit, a sign, a point, or an
/// exponent mark.
pub proof fn lemma_number_chars(t: Seq<char>)
    requires
        is_number_token(t),
    ensures
        forall|i: int|
            0 <= i < t.len() ==> (is_digit(#[trigger] t[i]) || t[i] == '-' || t[i] == '.' || t[i]
                == 'e' || t[i] == 'E' || t[i] == '+'),
{
    let i0: int = if t.len() > 0 && t[0] == '-' {
        1
    } else {
        0
    };
    assert(i0 < t.len() && is_digit(t[i0]));
    let i1 = if t[i0] == '0' {
        i0 + 1
    } else {
        digits_end(t, i0)
    };
    lemma_digits_chars(t, i0);
    let i2 = if i1 + 1 < t.len() && t[i1] == '.' && is_digit(t[i1 + 1]) {
        digits_end(t, i1 + 1)
    } else {
        i1
    };
    lemma_digits_chars(t, i1 + 1);
    assert forall|i: int|
        0 <= i < t.len() implies (is_digit(#[trigger] t[i]) || t[i] == '-' || t[i] == '.' || t[i]
        == 'e' || t[i] == 'E' || t[i] == '+') by {
        if i2 < t.len() && (t[i2] == 'e' || t[i2] == 'E') {
            let j0 = if i2 + 1 < t.len() && (t[i2 + 1] == '+' || t[i2 + 1] == '-') {
                i2 + 2
            } else {
                i2 + 1
            };
            lemma_digits_chars(t, j0);
        }
    }
}

/// No escape writes a newline: quoted tokens stay on one line.
pub proof fn lemma_escape_no_newline(s: Seq<char>)
    ensures
        forall|i: int| 0 <= i < escape(s).len() ==> (#[trigger] escape(s)[i]) != '\n',
    decreases s.len(),
{
    if s.len() > 0 {
        lemma_escape_no_newline(s.drop_first());
        let c = s[0];
        let e = esc_char(c);
        assert forall|i: int| 0 <= i < escape(s).len() implies (#[trigger] escape(s)[i])
            != '\n' by {
            assert(escape(s) == e + escape(s.drop_first()));
            if i < e.len() {
                assert(escape(s)[i] == e[i]);
                if c == '"' || c == '\\' || c == '\n' || c == '\r' || c == '\t' || (c as u32)
                    == 0x08 || (c as u32) == 0x0c {
                } else if is_control(c) {
                    if i == 4 {
                        assert(e[4] == hex_char((c as u32) as int / 16));
                        assert(hex_char((c as u32) as int / 16) != '\n');
                    }
                    if i == 5 {
                        assert(e[5] == hex_char((c as u32) as int % 16));
                        assert(hex_char((c as u32) as int % 16) != '\n');
                    }
                } else {
                    assert(e[i] == c);
                    assert(('\n' as u32) == 10);
                    assert(is_control('\n'));
                }
            } else {
                assert(escape(s)[i] == escape(s.drop_first())[i - e.len()]);
            }
        }
    }
}

/// The scalar round trip: scanning a rendered well-formed scalar yields
/// exactly the scalar it came from, whatever the delimiter.
pub proof fn lemma_scan_render_prim(p: PrimModel, delim: char)
    requires
        wf_prim(p),
    ensures
        classify_prim(render_prim(p, delim)) == Some(p),
{
    match p {
        PrimModel::Null => {
            assert(null_chars() != true_chars());
            assert(null_chars() != false_chars());
            assert(null_chars().len() == 4);
        },
        PrimModel::Bool(b) => {
            if !b {
                assert(false_chars() != true_chars());
            }
        },
        PrimModel::Num(t) => {
            lemma_number_first_char(t);
            assert(t != true_chars());
            assert(t != false_chars());
            assert(t != null_chars());
            assert(t.len() > 0);
        },
        PrimModel::Str(s) => {
            let r = render_string(s, delim);
            if value_needs_quotes(s, delim) {
                let q = quote_str(s);
                assert(q =~= seq!['"'] + escape(s) + seq!['"']);
                assert(q[0] == '"');
                assert(q.len() > 0);
                assert(q != true_chars());
                assert(q != false_chars());
                assert(q != null_chars());
                if is_number_token(q) {
                    lemma_number_first_char(q);
                    assert(false);
                }
                lemma_unesc_escape(seq!['"'], s);
                assert(unesc(q, 1) == Some((s, q.len() as int)));
            } else {
                assert(!is_reserved(s));
                assert(s.len() > 0);
                assert(!is_value_bad_char(s[0], delim));
                assert(s[0] != '"');
            }
        },
    }
}

} // verus!
