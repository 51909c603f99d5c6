//! The parser: from TOON text back to a value.
//!
//! Parsing is line-oriented.  Each line's depth is its leading whitespace
//! divided by the configured indent; blocks are delimited by depth alone.
//! In strict mode a tab in leading whitespace, or an indent that is not a
//! whole number of levels, is an `Indent` error before anything else is
//! examined, so strict decoding of any text with a leading tab fails.
//! Lenient mode reads each leading tab as one level and rounds widths
//! down.
//!
//! The scalar lexicon (`crate::lexicon`) gives every token scanner here an
//! exact specification; the structural pass promises well-formedness of
//! the value it builds, that the only option it rejects outright is a zero
//! indent, and the strict guarantees above.

use vstd::prelude::*;

use crate::error::ErrorKind;
use crate::error::ToonError;
use crate::error::make_error;
use crate::lexicon::is_ws;
use crate::options::DecodeOptions;
use crate::value::JsonValue;

verus! {

broadcast use vstd::std_specs::vec::group_vec_axioms;

// --- splitting the input into lines ---

/// The first index at or after `i` holding a newline, or the length.
pub open spec fn nl_end(s: Seq<char>, i: int) -> int
    decreases s.len() - i,
{
    if 0 <= i && i < s.len() && s[i] != '\n' {
        nl_end(s, i + 1)
    } else {
        i
    }
}

/// The lines of `s` from index `i`: maximal runs without newlines.  Text
/// without a newline is one line; every newline ends a line.
pub open spec fn split_lines_from(s: Seq<char>, i: int) -> Seq<Seq<char>>
    decreases s.len() - i,
{
    if i < 0 || i > s.len() {
        Seq::empty()
    } else {
        let j = nl_end(s, i);
        if j >= s.len() {
            seq![s.subrange(i, s.len() as int)]
        } else {
            seq![s.subrange(i, j)] + split_lines_from(
                s,
                if j >= i {
                    j + 1
                } else {
                    i + 1
                },
            )
        }
    }
}

/// The lines of `s`.
pub open spec fn split_lines(s: Seq<char>) -> Seq<Seq<char>> {
    split_lines_from(s, 0)
}

/// A space or tab: what counts as leading whitespace for indentation.
pub open spec fn is_indent_ws(c: char) -> bool {
    c == ' ' || c == '\t'
}

/// The first index at or after `i` that is not indentation whitespace.
pub open spec fn indent_end(s: Seq<char>, i: int) -> int
    decreases s.len() - i,
{
    if 0 <= i && i < s.len() && is_indent_ws(s[i]) {
        indent_end(s, i + 1)
    } else {
        i
    }
}

/// Whether a line's leading whitespace holds a tab.
pub open spec fn leading_tab(l: Seq<char>) -> bool {
    exists|j: int| 0 <= j < indent_end(l, 0) && l[j] == '\t'
}

/// Whether any line's leading whitespace holds a tab.
pub open spec fn any_leading_tab(ls: Seq<Seq<char>>) -> bool {
    exists|i: int| 0 <= i < ls.len() && leading_tab(#[trigger] ls[i])
}

proof fn lemma_nl_end_at(s: Seq<char>, i: int, j: int)
    requires
        0 <= i <= j <= s.len(),
        forall|k: int| i <= k < j ==> s[k] != '\n',
        j == s.len() || s[j] == '\n',
    ensures
        nl_end(s, i) == j,
    decreases j - i,
{
    if i < j {
        lemma_nl_end_at(s, i + 1, j);
    }
}

proof fn lemma_indent_end_at(s: Seq<char>, i: int, j: int)
    requires
        0 <= i <= j <= s.len(),
        forall|k: int| i <= k < j ==> is_indent_ws(#[trigger] s[k]),
        j == s.len() || !is_indent_ws(s[j]),
    ensures
        indent_end(s, i) == j,
    decreases j - i,
{
    if i < j {
        lemma_indent_end_at(s, i + 1, j);
    }
}

/// Splits the text into its lines.
#[verifier::loop_isolation(false)]
pub fn split_into_lines(s: &Vec<char>) -> (r: Vec<Vec<char>>)
    ensures
        crate::encode::views_of(r@) == split_lines(s@),
{
    let mut out: Vec<Vec<char>> = Vec::new();
    let mut i: usize = 0;
    let mut done = false;
    while !done
        invariant
            i <= s@.len(),
            done ==> split_lines(s@) == crate::encode::views_of(out@),
            !done ==> split_lines(s@) == crate::encode::views_of(out@) + split_lines_from(
                s@,
                i as int,
            ),
        decreases s@.len() - i + (if done {
            0int
        } else {
            1int
        }),
    {
        let mut j: usize = i;
        while j < s.len() && s[j] != '\n'
            invariant
                i <= j <= s@.len(),
                forall|k: int| i <= k < j ==> s@[k] != '\n',
            decreases s@.len() - j,
        {
            j = j + 1;
        }
        proof {
            lemma_nl_end_at(s@, i as int, j as int);
        }
        let line = crate::chars::copy_range(s, i, j);
        let ghost prev = out@;
        out.push(line);
        proof {
            assert(crate::encode::views_of(out@) =~= crate::encode::views_of(prev) + seq![
                s@.subrange(i as int, j as int),
            ]);
        }
        if j >= s.len() {
            done = true;
            proof {
                assert(split_lines_from(s@, i as int) == seq![
                    s@.subrange(i as int, s@.len() as int),
                ]);
                assert(split_lines(s@) =~= crate::encode::views_of(out@));
            }
        } else {
            proof {
                assert(split_lines_from(s@, i as int) == seq![s@.subrange(i as int, j as int)]
                    + split_lines_from(s@, j + 1));
                assert(split_lines(s@) =~= crate::encode::views_of(out@) + split_lines_from(
                    s@,
                    j + 1,
                ));
            }
            i = j + 1;
        }
    }
    out
}

// --- the specification mirror: errors and prepared lines ---

/// The mathematical form of a decode error: its kind, 1-based place, and
/// cause.
#[verifier::ext_equal]
pub struct ErrModel {
    pub kind: ErrorKind,
    pub line: int,
    pub col: int,
    pub msg: Seq<char>,
}

/// The mathematical form of a concrete error.
pub open spec fn err_m(e: ToonError) -> ErrModel {
    ErrModel { kind: e.kind, line: e.line as int, col: e.col as int, msg: e.msg@ }
}

/// The mathematical form of a prepared line.
#[verifier::ext_equal]
pub struct LineModel {
    pub no: int,
    pub depth: int,
    pub text: Seq<char>,
}

/// The mathematical forms of a vector of prepared lines.
pub open spec fn plines_m(p: Seq<PLine>) -> Seq<LineModel> {
    Seq::new(p.len(), |i: int| LineModel { no: p[i].no as int, depth: p[i].depth as int, text: p[i].text@ })
}

/// How many tabs stand in `l` before index `j`.
pub open spec fn tabs_in(l: Seq<char>, j: int) -> int
    decreases j,
{
    if j <= 0 {
        0
    } else {
        tabs_in(l, j - 1) + if l[j - 1] == '\t' {
            1int
        } else {
            0int
        }
    }
}

/// What `prep_lines` yields from line `i` on: blank lines dropped, each
/// kept line carrying its number, its depth, and its text after the
/// indentation; in strict mode a leading tab or an inexact width is an
/// `Indent` error.
pub open spec fn sp_prep_from(lines: Seq<Seq<char>>, i: int, n: int, strict: bool) -> Result<
    Seq<LineModel>,
    ErrModel,
>
    decreases lines.len() - i,
{
    if i < 0 || i >= lines.len() {
        Ok(Seq::empty())
    } else {
        let l = lines[i];
        let j = indent_end(l, 0);
        if strict && leading_tab(l) {
            Err(ErrModel { kind: ErrorKind::Indent, line: i + 1, col: 1, msg: "tab in indentation"@ })
        } else if j < l.len() {
            let tabs = tabs_in(l, j);
            let spaces = j - tabs;
            if strict && spaces % n != 0 {
                Err(
                    ErrModel {
                        kind: ErrorKind::Indent,
                        line: i + 1,
                        col: 1,
                        msg: "indent is not a whole level"@,
                    },
                )
            } else {
                let depth = if strict {
                    spaces / n
                } else {
                    tabs + spaces / n
                };
                match sp_prep_from(lines, i + 1, n, strict) {
                    Result::Ok(rest) => Ok(
                        seq![LineModel { no: i + 1, depth: depth, text: l.skip(j) }] + rest,
                    ),
                    Result::Err(e) => Err(e),
                }
            }
        } else {
            sp_prep_from(lines, i + 1, n, strict)
        }
    }
}

/// What `prep_lines` yields.
pub open spec fn sp_prep(lines: Seq<Seq<char>>, n: int, strict: bool) -> Result<
    Seq<LineModel>,
    ErrModel,
> {
    sp_prep_from(lines, 0, n, strict)
}

// --- preprocessed lines ---

/// One non-blank line, ready for the structural pass: its 1-based number
/// in the source, its depth, and its text after the indentation.
pub struct PLine {
    pub no: usize,
    pub depth: usize,
    pub text: Vec<char>,
}

/// Strips blank lines, checks indentation, and computes each line's
/// depth.  In strict mode a leading tab or an inexact width is an
/// `Indent` error; in lenient mode a tab counts as one level and widths
/// round down.
#[verifier::loop_isolation(false)]
pub fn prep_lines(lines: &Vec<Vec<char>>, n: usize, strict: bool) -> (r: Result<
    Vec<PLine>,
    ToonError,
>)
    requires
        n >= 1,
    ensures
        strict && any_leading_tab(crate::encode::views_of(lines@)) ==> (r matches Err(e)
            && e.kind == ErrorKind::Indent),
        r matches Err(e) ==> e.kind == ErrorKind::Indent,
        match r {
            Result::Ok(p) => sp_prep(crate::encode::views_of(lines@), n as int, strict)
                == Result::<Seq<LineModel>, ErrModel>::Ok(plines_m(p@)),
            Result::Err(e) => sp_prep(crate::encode::views_of(lines@), n as int, strict)
                == Result::<Seq<LineModel>, ErrModel>::Err(err_m(e)),
        },
{
    let ghost lv = crate::encode::views_of(lines@);
    let mut out: Vec<PLine> = Vec::new();
    let mut i: usize = 0;
    while i < lines.len()
        invariant
            i <= lines@.len(),
            forall|x: int| 0 <= x < i ==> !leading_tab(#[trigger] lv[x]) || !strict,
            match sp_prep_from(lv, i as int, n as int, strict) {
                Result::Ok(rest) => sp_prep(lv, n as int, strict) == Result::<
                    Seq<LineModel>,
                    ErrModel,
                >::Ok(plines_m(out@) + rest),
                Result::Err(e) => sp_prep(lv, n as int, strict) == Result::<
                    Seq<LineModel>,
                    ErrModel,
                >::Err(e),
            },
        decreases lines@.len() - i,
    {
        let l: &Vec<char> = &lines[i];
        let mut j: usize = 0;
        let mut tabs: usize = 0;
        let mut spaces: usize = 0;
        while j < l.len() && (l[j] == ' ' || l[j] == '\t')
            invariant
                j <= l@.len(),
                tabs + spaces == j,
                tabs == tabs_in(l@, j as int),
                forall|k: int| 0 <= k < j ==> is_indent_ws(#[trigger] l@[k]),
                (tabs > 0) == (exists|k: int| 0 <= k < j && l@[k] == '\t'),
            decreases l@.len() - j,
        {
            if l[j] == '\t' {
                tabs = tabs + 1;
            } else {
                spaces = spaces + 1;
            }
            j = j + 1;
        }
        proof {
            lemma_indent_end_at(l@, 0, j as int);
            assert(lv[i as int] == l@);
        }
        let ghost spf_i = sp_prep_from(lv, i as int, n as int, strict);
        if strict && tabs > 0 {
            proof {
                assert(leading_tab(lv[i as int]));
                assert(any_leading_tab(lv));
            }
            let e = make_error(ErrorKind::Indent, i + 1, 1, "tab in indentation");
            proof {
                assert(spf_i == Result::<Seq<LineModel>, ErrModel>::Err(
                    ErrModel {
                        kind: ErrorKind::Indent,
                        line: i + 1,
                        col: 1,
                        msg: "tab in indentation"@,
                    },
                ));
                assert(err_m(e) =~= ErrModel {
                    kind: ErrorKind::Indent,
                    line: i + 1,
                    col: 1,
                    msg: "tab in indentation"@,
                });
            }
            return Err(e);
        }
        proof {
            if strict && leading_tab(lv[i as int]) {
                assert(exists|k: int| 0 <= k < indent_end(l@, 0) && l@[k] == '\t');
                assert(false);
            }
        }
        if j < l.len() {
            let depth: usize;
            if strict {
                if spaces % n != 0 {
                    let e = make_error(ErrorKind::Indent, i + 1, 1, "indent is not a whole level");
                    proof {
                        assert(tabs == 0);
                        assert(spf_i == Result::<Seq<LineModel>, ErrModel>::Err(
                            ErrModel {
                                kind: ErrorKind::Indent,
                                line: i + 1,
                                col: 1,
                                msg: "indent is not a whole level"@,
                            },
                        ));
                        assert(err_m(e) =~= ErrModel {
                            kind: ErrorKind::Indent,
                            line: i + 1,
                            col: 1,
                            msg: "indent is not a whole level"@,
                        });
                    }
                    return Err(e);
                }
                depth = spaces / n;
                proof {
                    assert(tabs == 0);
                }
            } else {
                depth = tabs + spaces / n;
            }
            let text = crate::chars::copy_range(l, j, l.len());
            let ghost out0 = out@;
            proof {
                assert(text@ =~= l@.skip(j as int));
            }
            out.push(PLine { no: i + 1, depth, text });
            proof {
                let lm = LineModel { no: i + 1, depth: depth as int, text: l@.skip(j as int) };
                assert(spf_i == (match sp_prep_from(lv, i + 1, n as int, strict) {
                    Result::Ok(rest) => Result::<Seq<LineModel>, ErrModel>::Ok(seq![lm] + rest),
                    Result::Err(e) => Result::<Seq<LineModel>, ErrModel>::Err(e),
                }));
                assert(plines_m(out@) =~= plines_m(out0) + seq![lm]);
                match sp_prep_from(lv, i + 1, n as int, strict) {
                    Result::Ok(rest) => {
                        assert(plines_m(out0) + (seq![lm] + rest) =~= plines_m(out@) + rest);
                    },
                    Result::Err(e) => {},
                }
            }
        } else {
            proof {
                assert(spf_i == sp_prep_from(lv, i + 1, n as int, strict));
            }
        }
        i = i + 1;
    }
    proof {
        assert(sp_prep_from(lv, lines@.len() as int, n as int, strict)
            == Result::<Seq<LineModel>, ErrModel>::Ok(Seq::<LineModel>::empty()));
        assert(plines_m(out@) + Seq::<LineModel>::empty() =~= plines_m(out@));
    }
    Ok(out)
}

// --- token and shape scanning ---

use crate::lexicon::classify_prim;
use crate::lexicon::scan_prim;
use crate::lexicon::trim_copy;
use crate::lexicon::wf_value;
use crate::value::StringOrNumberOrBoolOrNull;

/// An error kind the structural pass may produce: anything but a
/// rejected option.
pub open spec fn parse_kind(e: ToonError) -> bool {
    e.kind != ErrorKind::InvalidOption
}

/// What stands after a key's colon, or a whole keyless line.
enum Rest {
    /// Nothing: a nested object block follows on deeper lines.
    Nested,
    /// An inline value token.
    Token(Vec<char>),
    /// An array header.
    Header(HeaderInfo),
}

/// A parsed array header: declared length, raw column text of a table
/// header, the declared delimiter, and inline cells if any.
struct HeaderInfo {
    len: usize,
    cols_src: Option<Vec<char>>,
    delim: char,
    cells_src: Option<Vec<char>>,
}

/// The shape of one line.
enum Shape {
    /// A bare value token (only the root, or a list element).
    Bare(Vec<char>),
    /// `key:` — key text, whether it was quoted, and what follows.
    Entry(Vec<char>, bool, Rest),
    /// A keyless array header (the root, or a list element).
    Header(HeaderInfo),
}

// --- the specification mirror of the scanners ---

/// The mathematical form of an array header.
#[verifier::ext_equal]
pub struct SpHeader {
    pub len: int,
    pub cols: Option<Seq<char>>,
    pub delim: char,
    pub cells: Option<Seq<char>>,
}

/// The mathematical form of what stands after a key's colon.
#[verifier::ext_equal]
pub enum RestModel {
    Nested,
    Token(Seq<char>),
    Header(SpHeader),
}

/// The mathematical form of a line's shape.
#[verifier::ext_equal]
pub enum ShapeModel {
    Bare(Seq<char>),
    Entry(Seq<char>, bool, RestModel),
    Header(SpHeader),
}

spec fn header_m(h: HeaderInfo) -> SpHeader {
    SpHeader {
        len: h.len as int,
        cols: match h.cols_src {
            Option::Some(v) => Some(v@),
            Option::None => None,
        },
        delim: h.delim,
        cells: match h.cells_src {
            Option::Some(v) => Some(v@),
            Option::None => None,
        },
    }
}

spec fn rest_m(r: Rest) -> RestModel {
    match r {
        Rest::Nested => RestModel::Nested,
        Rest::Token(v) => RestModel::Token(v@),
        Rest::Header(h) => RestModel::Header(header_m(h)),
    }
}

spec fn shape_m(s: Shape) -> ShapeModel {
    match s {
        Shape::Bare(v) => ShapeModel::Bare(v@),
        Shape::Entry(k, wq, r) => ShapeModel::Entry(k@, wq, rest_m(r)),
        Shape::Header(h) => ShapeModel::Header(header_m(h)),
    }
}

/// Prepends characters to the first piece of a split.
pub open spec fn cons_head(pre: Seq<char>, ps: Seq<Seq<char>>) -> Seq<Seq<char>> {
    if ps.len() == 0 {
        seq![pre]
    } else {
        seq![pre + ps[0]] + ps.drop_first()
    }
}

/// The delimiter split of `t` from index `i` in quote state `inq`: the
/// first returned piece continues the current piece.  A backslash inside
/// quotes escapes the next character; delimiters inside quotes do not
/// split.
pub open spec fn sp_split_from(t: Seq<char>, i: int, d: char, inq: bool) -> Seq<Seq<char>>
    decreases t.len() - i,
{
    if i < 0 || i >= t.len() {
        seq![Seq::<char>::empty()]
    } else {
        let c = t[i];
        if inq {
            if c == '\\' {
                if i + 1 < t.len() {
                    cons_head(seq![c, t[i + 1]], sp_split_from(t, i + 2, d, true))
                } else {
                    cons_head(seq![c], sp_split_from(t, i + 1, d, true))
                }
            } else if c == '"' {
                cons_head(seq![c], sp_split_from(t, i + 1, d, false))
            } else {
                cons_head(seq![c], sp_split_from(t, i + 1, d, true))
            }
        } else {
            if c == d {
                seq![Seq::<char>::empty()] + sp_split_from(t, i + 1, d, false)
            } else if c == '"' {
                cons_head(seq![c], sp_split_from(t, i + 1, d, true))
            } else {
                cons_head(seq![c], sp_split_from(t, i + 1, d, false))
            }
        }
    }
}

/// The delimiter split of a whole text.
pub open spec fn sp_split_top(t: Seq<char>, d: char) -> Seq<Seq<char>> {
    sp_split_from(t, 0, d, false)
}

/// Prepending twice is prepending the concatenation.
proof fn lemma_cons_head_assoc(a: Seq<char>, b: Seq<char>, ps: Seq<Seq<char>>)
    ensures
        cons_head(a, cons_head(b, ps)) == cons_head(a + b, ps),
{
    if ps.len() == 0 {
        assert(cons_head(a, cons_head(b, ps)) =~~= cons_head(a + b, ps));
    } else {
        assert(cons_head(a, cons_head(b, ps)) =~~= cons_head(a + b, ps));
    }
}

/// Splits on the delimiter, outside quotes; a backslash inside quotes
/// escapes the next character.
#[verifier::loop_isolation(false)]
fn split_top(t: &Vec<char>, d: char) -> (r: Vec<Vec<char>>)
    ensures
        crate::encode::views_of(r@) == sp_split_top(t@, d),
{
    let mut out: Vec<Vec<char>> = Vec::new();
    let mut cur: Vec<char> = Vec::new();
    let mut in_q = false;
    let mut i: usize = 0;
    proof {
        assert(Seq::<char>::empty() + sp_split_from(t@, 0, d, false)[0] =~= sp_split_from(
            t@,
            0,
            d,
            false,
        )[0]);
        assert(cons_head(cur@, sp_split_from(t@, 0, d, false)) =~= sp_split_from(t@, 0, d, false));
        assert(crate::encode::views_of(out@) + cons_head(cur@, sp_split_from(t@, 0, d, false))
            =~= sp_split_top(t@, d));
    }
    while i < t.len()
        invariant
            i <= t@.len(),
            sp_split_top(t@, d) == crate::encode::views_of(out@) + cons_head(
                cur@,
                sp_split_from(t@, i as int, d, in_q),
            ),
        decreases t@.len() - i,
    {
        let ghost cur0 = cur@;
        let ghost out0 = out@;
        let ghost i0 = i as int;
        let ghost q0 = in_q;
        let c = t[i];
        if in_q {
            cur.push(c);
            if c == '\\' {
                i = i + 1;
                if i < t.len() {
                    cur.push(t[i]);
                    i = i + 1;
                    proof {
                        lemma_cons_head_assoc(cur0, seq![c, t@[i0 + 1]], sp_split_from(t@, i0 + 2, d, true));
                        assert(cur@ =~= cur0 + seq![c, t@[i0 + 1]]);
                    }
                } else {
                    proof {
                        lemma_cons_head_assoc(cur0, seq![c], sp_split_from(t@, i0 + 1, d, true));
                        assert(cur@ =~= cur0 + seq![c]);
                    }
                }
            } else {
                if c == '"' {
                    in_q = false;
                }
                i = i + 1;
                proof {
                    lemma_cons_head_assoc(cur0, seq![c], sp_split_from(t@, i0 + 1, d, in_q));
                    assert(cur@ =~= cur0 + seq![c]);
                }
            }
        } else {
            if c == d {
                out.push(cur);
                cur = Vec::new();
                proof {
                    assert(sp_split_from(t@, i0, d, false) == seq![Seq::<char>::empty()]
                        + sp_split_from(t@, i0 + 1, d, false));
                    assert(cons_head(cur0, sp_split_from(t@, i0, d, false)) =~= seq![cur0]
                        + cons_head(Seq::<char>::empty(), sp_split_from(t@, i0 + 1, d, false)));
                    assert(crate::encode::views_of(out@) =~= crate::encode::views_of(out0) + seq![
                        cur0,
                    ]);
                    assert(cons_head(Seq::<char>::empty(), sp_split_from(t@, i0 + 1, d, false))
                        =~= cons_head(cur@, sp_split_from(t@, i0 + 1, d, false)));
                }
            } else {
                cur.push(c);
                if c == '"' {
                    in_q = true;
                }
                proof {
                    lemma_cons_head_assoc(cur0, seq![c], sp_split_from(t@, i0 + 1, d, in_q));
                    assert(cur@ =~= cur0 + seq![c]);
                }
            }
            i = i + 1;
        }
    }
    proof {
        assert(sp_split_from(t@, t@.len() as int, d, in_q) == seq![Seq::<char>::empty()]);
        assert(cons_head(cur@, seq![Seq::<char>::empty()]) =~~= seq![cur@]);
    }
    let ghost curg = cur@;
    let ghost outpre = out@;
    out.push(cur);
    proof {
        assert(crate::encode::views_of(out@) =~= crate::encode::views_of(outpre) + seq![curg]);
        assert(crate::encode::views_of(outpre) + cons_head(
            curg,
            sp_split_from(t@, t@.len() as int, d, in_q),
        ) =~= crate::encode::views_of(outpre) + seq![curg]);
        assert(crate::encode::views_of(out@) =~= sp_split_top(t@, d));
    }
    out
}

/// The value of the decimal digits in `t[i..j]`.
pub open spec fn digits_val(t: Seq<char>, i: int, j: int) -> int
    decreases j - i,
{
    if j <= i {
        0
    } else {
        digits_val(t, i, j - 1) * 10 + ((t[j - 1] as u32) - ('0' as u32))
    }
}

/// Digit values are never negative.
proof fn lemma_digits_val_nonneg(t: Seq<char>, i: int, j: int)
    requires
        forall|k: int| i <= k < j ==> crate::lexicon::is_digit(#[trigger] t[k]),
    ensures
        digits_val(t, i, j) >= 0,
    decreases j - i,
{
    if j > i {
        lemma_digits_val_nonneg(t, i, j - 1);
        assert(digits_val(t, i, j - 1) * 10 >= 0);
    }
}

/// Digit values only grow as the run extends.
proof fn lemma_digits_val_grows(t: Seq<char>, i: int, j: int, e: int)
    requires
        i <= j <= e,
        forall|k: int| i <= k < e ==> crate::lexicon::is_digit(#[trigger] t[k]),
    ensures
        0 <= digits_val(t, i, j) <= digits_val(t, i, e),
    decreases e - j,
{
    lemma_digits_val_nonneg(t, i, j);
    if j < e {
        lemma_digits_val_grows(t, i, j, e - 1);
        assert(digits_val(t, i, e) == digits_val(t, i, e - 1) * 10 + ((t[e - 1] as u32) - (
        '0' as u32)));
        assert(digits_val(t, i, e - 1) * 10 >= digits_val(t, i, e - 1));
    }
}

/// What `parse_len` reads at `from`: the value of the digit run there,
/// unless there are no digits or the value does not fit a machine word.
pub open spec fn sp_parse_len(t: Seq<char>, from: int) -> Option<(int, int)> {
    let e = crate::lexicon::digits_end(t, from);
    if e <= from {
        None
    } else if digits_val(t, from, e) > usize::MAX {
        None
    } else {
        Some((digits_val(t, from, e), e))
    }
}

/// Reads a decimal length; nothing on no digits or overflow.
#[verifier::loop_isolation(false)]
fn parse_len(t: &Vec<char>, from: usize) -> (r: Option<(usize, usize)>)
    requires
        from <= t@.len(),
    ensures
        match r {
            Option::Some((v, next)) => sp_parse_len(t@, from as int) == Some(
                (v as int, next as int),
            ) && from <= next <= t@.len(),
            Option::None => sp_parse_len(t@, from as int) is None,
        },
{
    let e = crate::lexicon::scan_digits(t, from);
    if e == from {
        return None;
    }
    proof {
        crate::lexicon::lemma_digits_chars(t@, from as int);
    }
    let mut acc: usize = 0;
    let mut i: usize = from;
    while i < e
        invariant
            from <= i <= e,
            acc == digits_val(t@, from as int, i as int),
        decreases e - i,
    {
        let dv: usize = (((t[i] as u32) - ('0' as u32)) as usize);
        proof {
            assert(crate::lexicon::is_digit(t@[i as int]));
            assert(dv <= 9);
        }
        if acc > (usize::MAX - dv) / 10 {
            proof {
                assert((usize::MAX - dv) / 10 < acc);
                assert(10 * ((usize::MAX - dv) / 10 + 1) > usize::MAX - dv) by (nonlinear_arith);
                assert(10 * ((usize::MAX - dv) / 10 + 1) <= 10 * acc) by (nonlinear_arith)
                    requires
                        (usize::MAX - dv) / 10 + 1 <= acc,
                ;
                assert(10 * acc + dv > usize::MAX);
                assert(digits_val(t@, from as int, i + 1) == acc * 10 + dv);
                lemma_digits_val_grows(t@, from as int, i + 1, e as int);
                assert(digits_val(t@, from as int, e as int) > usize::MAX);
            }
            return None;
        }
        proof {
            assert(acc <= (usize::MAX - dv) / 10);
            assert(10 * acc <= 10 * ((usize::MAX - dv) / 10)) by (nonlinear_arith)
                requires
                    acc <= (usize::MAX - dv) / 10,
            ;
            assert(10 * ((usize::MAX - dv) / 10) <= usize::MAX - dv);
        }
        acc = acc * 10 + dv;
        i = i + 1;
    }
    Some((acc, e))
}

/// The index of the matching top-level `}` from `i` in quote state
/// `inq`, if any.
pub open spec fn sp_close_brace(t: Seq<char>, i: int, inq: bool) -> Option<int>
    decreases t.len() - i,
{
    if i < 0 || i >= t.len() {
        None
    } else {
        let c = t[i];
        if inq {
            if c == '\\' {
                if i + 1 < t.len() {
                    sp_close_brace(t, i + 2, true)
                } else {
                    sp_close_brace(t, i + 1, true)
                }
            } else if c == '"' {
                sp_close_brace(t, i + 1, false)
            } else {
                sp_close_brace(t, i + 1, true)
            }
        } else if c == '}' {
            Some(i)
        } else if c == '"' {
            sp_close_brace(t, i + 1, true)
        } else {
            sp_close_brace(t, i + 1, false)
        }
    }
}

/// What follows a header's colon: the declared delimiter and any inline
/// cells, then the finished header — or a malformed-header error.
pub open spec fn sp_header_finish(
    t: Seq<char>,
    r: int,
    len: int,
    cols: Option<Seq<char>>,
    no: int,
) -> Result<SpHeader, ErrModel> {
    if !(r < t.len() && t[r] == ':') {
        Err(ErrModel { kind: ErrorKind::Lexical, line: no, col: r, msg: "malformed array header"@ })
    } else {
        let after = r + 1;
        let delim: char = if after < t.len() && t[after] != ' ' {
            t[after]
        } else {
            ','
        };
        let cells: Option<Seq<char>> = if after < t.len() {
            if t[after] != ' ' {
                if after + 1 < t.len() {
                    if crate::lexicon::trim(t.subrange(after + 1, t.len() as int)).len() > 0 {
                        Some(crate::lexicon::trim(t.subrange(after + 1, t.len() as int)))
                    } else {
                        None
                    }
                } else {
                    None
                }
            } else {
                if crate::lexicon::trim(t.subrange(after, t.len() as int)).len() > 0 {
                    Some(crate::lexicon::trim(t.subrange(after, t.len() as int)))
                } else {
                    None
                }
            }
        } else {
            None
        };
        if cols is Some && cells is Some {
            Err(
                ErrModel {
                    kind: ErrorKind::Lexical,
                    line: no,
                    col: after + 1,
                    msg: "malformed array header"@,
                },
            )
        } else {
            Ok(SpHeader { len, cols, delim, cells })
        }
    }
}

/// What `parse_header` reads at the `[` at index `p`.
pub open spec fn sp_parse_header(t: Seq<char>, p: int, no: int) -> Result<SpHeader, ErrModel> {
    match sp_parse_len(t, p + 1) {
        Option::None => Err(
            ErrModel {
                kind: ErrorKind::Lexical,
                line: no,
                col: p + 1,
                msg: "malformed array header"@,
            },
        ),
        Option::Some((len, after_len)) => {
            if !(after_len < t.len() && t[after_len] == ']') {
                Err(
                    ErrModel {
                        kind: ErrorKind::Lexical,
                        line: no,
                        col: after_len,
                        msg: "malformed array header"@,
                    },
                )
            } else {
                let r0 = after_len + 1;
                if r0 < t.len() && t[r0] == '{' {
                    match sp_close_brace(t, r0 + 1, false) {
                        Option::None => Err(
                            ErrModel {
                                kind: ErrorKind::Lexical,
                                line: no,
                                col: r0 + 1,
                                msg: "malformed array header"@,
                            },
                        ),
                        Option::Some(close) => sp_header_finish(
                            t,
                            close + 1,
                            len,
                            Some(t.subrange(r0 + 1, close)),
                            no,
                        ),
                    }
                } else {
                    sp_header_finish(t, r0, len, None, no)
                }
            }
        },
    }
}

/// Scans an array header starting at the `[` at index `p`.
#[verifier::loop_isolation(false)]
fn parse_header(t: &Vec<char>, p: usize, no: usize) -> (r: Result<HeaderInfo, ToonError>)
    requires
        p < t@.len(),
    ensures
        r matches Err(e) ==> parse_kind(e),
        match r {
            Result::Ok(h) => sp_parse_header(t@, p as int, no as int) == Result::<
                SpHeader,
                ErrModel,
            >::Ok(header_m(h)),
            Result::Err(e) => sp_parse_header(t@, p as int, no as int) == Result::<
                SpHeader,
                ErrModel,
            >::Err(err_m(e)),
        },
{
    // binding the length as a machine word bounds the indices below
    let tl: usize = t.len();
    proof {
        assert(t@.len() <= usize::MAX);
    }
    let mut len: usize = 0;
    let mut after_len: usize = 0;
    match parse_len(t, p + 1) {
        Option::Some((v, next)) => {
            len = v;
            after_len = next;
        },
        Option::None => {
            return Err(make_error(ErrorKind::Lexical, no, p + 1, "malformed array header"));
        },
    }
    if !(after_len < t.len() && t[after_len] == ']') {
        return Err(make_error(ErrorKind::Lexical, no, after_len, "malformed array header"));
    }
    let mut r = after_len + 1;
    let mut cols_src: Option<Vec<char>> = None;
    if r < t.len() && t[r] == '{' {
        let cstart = r + 1;
        let mut close: usize = cstart;
        let mut in_q = false;
        let mut found = false;
        while close < t.len() && !found
            invariant
                cstart <= close <= t@.len(),
                !found ==> sp_close_brace(t@, cstart as int, false) == sp_close_brace(
                    t@,
                    close as int,
                    in_q,
                ),
                found ==> close < t@.len() && sp_close_brace(t@, cstart as int, false) == Some(
                    close as int,
                ) && (cols_src matches Some(cv) && cv@ == t@.subrange(cstart as int, close as int))
                    && r == close + 1,
            decreases t@.len() - close + (if found {
                0int
            } else {
                1int
            }),
        {
            let ghost close0 = close as int;
            let ghost q0 = in_q;
            let c = t[close];
            if in_q {
                if c == '\\' {
                    close = close + 1;
                    if close < t.len() {
                        close = close + 1;
                    }
                } else {
                    if c == '"' {
                        in_q = false;
                    }
                    close = close + 1;
                }
            } else if c == '}' {
                cols_src = Some(crate::chars::copy_range(t, cstart, close));
                r = close + 1;
                found = true;
                proof {
                    assert(sp_close_brace(t@, close0, false) == Some(close0));
                }
            } else {
                if c == '"' {
                    in_q = true;
                }
                close = close + 1;
            }
            proof {
                if !found {
                    assert(sp_close_brace(t@, close0, q0) == sp_close_brace(
                        t@,
                        close as int,
                        in_q,
                    ));
                }
            }
        }
        if !found {
            proof {
                assert(sp_close_brace(t@, close as int, in_q) is None);
            }
            return Err(make_error(ErrorKind::Lexical, no, cstart, "malformed array header"));
        }
    }
    if !(r < t.len() && t[r] == ':') {
        return Err(make_error(ErrorKind::Lexical, no, r, "malformed array header"));
    }
    let after = r + 1;
    let mut delim: char = ',';
    let mut cells_src: Option<Vec<char>> = None;
    if after < t.len() {
        if t[after] != ' ' {
            delim = t[after];
            if after + 1 < t.len() {
                let sub = crate::chars::copy_range(t, after + 1, t.len());
                let trimmed = trim_copy(&sub);
                if trimmed.len() > 0 {
                    cells_src = Some(trimmed);
                }
            }
        } else {
            let sub = crate::chars::copy_range(t, after, t.len());
            let trimmed = trim_copy(&sub);
            if trimmed.len() > 0 {
                cells_src = Some(trimmed);
            }
        }
    }
    match cols_src {
        Option::Some(_) => {
            if cells_src.is_some() {
                return Err(make_error(ErrorKind::Lexical, no, after + 1, "malformed array header"));
            }
        },
        Option::None => {},
    }
    Ok(HeaderInfo { len, cols_src, delim, cells_src })
}

/// A text of a single line without indentation, trimmed: the shape of a
/// bare root value.
pub open spec fn bare_root(text: Seq<char>) -> Option<Seq<char>> {
    let ls = split_lines(text);
    if ls.len() == 1 && ls[0].len() > 0 && !is_indent_ws(ls[0][0]) {
        Some(crate::lexicon::trim(ls[0]))
    } else {
        None
    }
}

/// Whether a trimmed token reads as a bare value: no key colon and no
/// array header can be found in it.
pub open spec fn bare_token_shape(t: Seq<char>) -> bool {
    ||| (t.len() > 0 && t[0] != '"' && t[0] != '[' && forall|i: int|
        0 <= i < t.len() ==> (#[trigger] t[i]) != ':' && t[i] != '[')
    ||| (t.len() > 0 && t[0] == '"' && (crate::lexicon::unesc(t, 1) matches Some((c, k)) && k
        == t.len()))
}

/// The first colon, or bracket after the first character, at or after
/// `p`: where an unquoted key ends.
pub open spec fn sp_key_end(t: Seq<char>, p: int) -> Option<(int, char)>
    decreases t.len() - p,
{
    if p < 0 || p >= t.len() {
        None
    } else if t[p] == ':' {
        Some((p, ':'))
    } else if t[p] == '[' && p > 0 {
        Some((p, '['))
    } else {
        sp_key_end(t, p + 1)
    }
}

/// What stands after a key's colon: nothing, or the trimmed token.
pub open spec fn sp_scan_rest(t: Seq<char>, from: int) -> RestModel {
    if from >= t.len() {
        RestModel::Nested
    } else {
        let sub = crate::lexicon::trim(t.subrange(from, t.len() as int));
        if sub.len() == 0 {
            RestModel::Nested
        } else {
            RestModel::Token(sub)
        }
    }
}

/// What `scan_shape` reads from a line: its trimmed text classified as a
/// bare value, a keyed entry, or a keyless array header.
pub open spec fn sp_scan_shape(text: Seq<char>, no: int) -> Result<ShapeModel, ErrModel> {
    let t = crate::lexicon::trim(text);
    if t.len() == 0 {
        Ok(ShapeModel::Bare(t))
    } else if t[0] == '"' {
        match crate::lexicon::unesc(t, 1) {
            Option::Some((content, k)) => {
                let p = crate::lexicon::skip_ws(t, k);
                if p >= t.len() {
                    Ok(ShapeModel::Bare(t))
                } else if t[p] == ':' {
                    Ok(ShapeModel::Entry(content, true, sp_scan_rest(t, p + 1)))
                } else if t[p] == '[' {
                    match sp_parse_header(t, p, no) {
                        Result::Ok(h) => Ok(ShapeModel::Entry(content, true, RestModel::Header(h))),
                        Result::Err(e) => Err(e),
                    }
                } else {
                    Ok(ShapeModel::Bare(t))
                }
            },
            Option::None => Ok(ShapeModel::Bare(t)),
        }
    } else if t[0] == '[' {
        if t.len() == 2 && t[1] == ']' {
            Ok(ShapeModel::Bare(t))
        } else {
            match sp_parse_header(t, 0, no) {
                Result::Ok(h) => Ok(ShapeModel::Header(h)),
                Result::Err(e) => Err(e),
            }
        }
    } else {
        match sp_key_end(t, 0) {
            Option::None => Ok(ShapeModel::Bare(t)),
            Option::Some((p, c)) => {
                let key = crate::lexicon::trim(t.subrange(0, p));
                if c == ':' {
                    Ok(ShapeModel::Entry(key, false, sp_scan_rest(t, p + 1)))
                } else {
                    match sp_parse_header(t, p, no) {
                        Result::Ok(h) => Ok(ShapeModel::Entry(key, false, RestModel::Header(h))),
                        Result::Err(e) => Err(e),
                    }
                }
            },
        }
    }
}

/// Classifies one line, already stripped of its indentation.
#[verifier::loop_isolation(false)]
fn scan_shape(text: &Vec<char>, no: usize) -> (r: Result<Shape, ToonError>)
    ensures
        r matches Err(e) ==> parse_kind(e),
        bare_token_shape(crate::lexicon::trim(text@)) ==> (r matches Ok(sh) && sh matches Shape::Bare(b) && b@
            == crate::lexicon::trim(text@)),
        crate::lexicon::trim(text@) == seq!['[', ']'] ==> (r matches Ok(sh) && sh matches Shape::Bare(b)
            && b@ == crate::lexicon::trim(text@)),
        match r {
            Result::Ok(sh) => sp_scan_shape(text@, no as int) == Result::<
                ShapeModel,
                ErrModel,
            >::Ok(shape_m(sh)),
            Result::Err(e) => sp_scan_shape(text@, no as int) == Result::<
                ShapeModel,
                ErrModel,
            >::Err(err_m(e)),
        },
{
    let t = trim_copy(text);
    if t.len() == 0 {
        return Ok(Shape::Bare(t));
    }
    if t[0] == '"' {
        match crate::lexicon::scan_quoted(&t, 1) {
            Option::Some((content, k)) => {
                let mut p = k;
                while p < t.len() && crate::lexicon::ws_char(t[p])
                    invariant
                        k <= p <= t@.len(),
                        forall|x: int| k <= x < p ==> is_ws(#[trigger] t@[x]),
                    decreases t@.len() - p,
                {
                    p = p + 1;
                }
                proof {
                    crate::lexicon::lemma_skip_ws_at(t@, k as int, p as int);
                }
                if p >= t.len() {
                    return Ok(Shape::Bare(t));
                }
                if t[p] == ':' {
                    let rest = scan_rest(&t, p + 1);
                    return Ok(Shape::Entry(content, true, rest));
                }
                if t[p] == '[' {
                    let h = parse_header(&t, p, no)?;
                    return Ok(Shape::Entry(content, true, Rest::Header(h)));
                }
                return Ok(Shape::Bare(t));
            },
            Option::None => {
                return Ok(Shape::Bare(t));
            },
        }
    }
    if t[0] == '[' {
        if t.len() == 2 && t[1] == ']' {
            return Ok(Shape::Bare(t));
        }
        proof {
            if t@ == seq!['[', ']'] {
                assert(t@[1] == ']' && t@.len() == 2);
                assert(false);
            }
        }
        let h = parse_header(&t, 0, no)?;
        return Ok(Shape::Header(h));
    }
    let mut p: usize = 0;
    while p < t.len()
        invariant
            p <= t@.len(),
            sp_key_end(t@, 0) == sp_key_end(t@, p as int),
        decreases t@.len() - p,
    {
        if t[p] == ':' {
            let keysub = crate::chars::copy_range(&t, 0, p);
            let key = trim_copy(&keysub);
            let rest = scan_rest(&t, p + 1);
            proof {
                assert(sp_key_end(t@, p as int) == Some((p as int, ':')));
            }
            return Ok(Shape::Entry(key, false, rest));
        }
        if t[p] == '[' && p > 0 {
            let keysub = crate::chars::copy_range(&t, 0, p);
            let key = trim_copy(&keysub);
            proof {
                assert(sp_key_end(t@, p as int) == Some((p as int, '[')));
            }
            let h = parse_header(&t, p, no)?;
            return Ok(Shape::Entry(key, false, Rest::Header(h)));
        }
        p = p + 1;
    }
    proof {
        assert(sp_key_end(t@, t@.len() as int) is None);
    }
    Ok(Shape::Bare(t))
}

/// What stands after a colon: nothing, or a trimmed value token.
fn scan_rest(t: &Vec<char>, from: usize) -> (r: Rest)
    ensures
        rest_m(r) == sp_scan_rest(t@, from as int),
{
    if from >= t.len() {
        return Rest::Nested;
    }
    let sub = crate::chars::copy_range(t, from, t.len());
    let trimmed = trim_copy(&sub);
    if trimmed.len() == 0 {
        Rest::Nested
    } else {
        Rest::Token(trimmed)
    }
}

/// Scans a whole value token: an empty container marker or a scalar.
fn scan_value_token(tok: &Vec<char>, no: usize) -> (r: Result<JsonValue, ToonError>)
    ensures
        r matches Ok(v) ==> wf_value(v.m()),
        r matches Err(e) ==> parse_kind(e),
        match r {
            Result::Ok(v) => sp_scan_value(tok@, no as int) == Result::<
                crate::value::ValueModel,
                ErrModel,
            >::Ok(v.m()),
            Result::Err(e) => sp_scan_value(tok@, no as int) == Result::<
                crate::value::ValueModel,
                ErrModel,
            >::Err(err_m(e)),
        },
{
    if tok.len() == 2 && tok[0] == '{' && tok[1] == '}' {
        proof {
            assert(tok@ =~= seq!['{', '}']);
            lemma_entries_m(Seq::empty());
        }
        let es: Vec<(String, JsonValue)> = Vec::new();
        proof {
            assert(entries_m(es@) =~= Seq::<(Seq<char>, crate::value::ValueModel)>::empty());
        }
        return Ok(JsonValue::Object(es));
    }
    if tok.len() == 2 && tok[0] == '[' && tok[1] == ']' {
        proof {
            assert(tok@ =~= seq!['[', ']']);
        }
        let its: Vec<JsonValue> = Vec::new();
        proof {
            assert(seq_m(its@) =~= Seq::<crate::value::ValueModel>::empty());
        }
        return Ok(JsonValue::Array(its));
    }
    proof {
        if tok@.len() == 2 {
            if tok@ == seq!['{', '}'] {
                assert(tok@[0] == '{' && tok@[1] == '}');
            }
            if tok@ == seq!['[', ']'] {
                assert(tok@[0] == '[' && tok@[1] == ']');
            }
        }
    }
    match scan_prim(tok) {
        Option::Some(p) => {
            proof {
                assert(classify_prim(tok@) == Some(p.m()));
                match p.m() {
                    crate::value::PrimModel::Num(s) => {
                        assert(crate::lexicon::is_number_token(s));
                    },
                    _ => {},
                }
            }
            Ok(JsonValue::Primitive(p))
        },
        Option::None => Err(make_error(ErrorKind::Lexical, no, 1, "bad value token")),
    }
}


// --- the structural pass ---

use crate::value::entries_m;
use crate::value::lemma_entries_m;
use crate::value::seq_m;
use crate::lexicon::lemma_wf_entries;
use crate::lexicon::lemma_wf_seq;
use crate::value::lemma_seq_m;

/// Whether every scanned entry's value is well formed.
pub open spec fn wf_triples(s: Seq<(Vec<char>, bool, JsonValue)>) -> bool {
    forall|i: int| 0 <= i < s.len() ==> wf_value((#[trigger] s[i]).2.m())
}

/// Whether every finished entry's value is well formed.
pub open spec fn wf_sentries(s: Seq<(String, JsonValue)>) -> bool {
    forall|i: int| 0 <= i < s.len() ==> wf_value((#[trigger] s[i]).1.m())
}

/// Entries of well-formed values make a well-formed object.
proof fn lemma_wf_from_entries(entries: Seq<(String, JsonValue)>)
    requires
        wf_sentries(entries),
    ensures
        crate::lexicon::wf_entries(entries_m(entries)),
{
    lemma_entries_m(entries);
    lemma_wf_entries(entries_m(entries));
    assert forall|x: int| 0 <= x < entries_m(entries).len() implies wf_value(
        (#[trigger] entries_m(entries)[x]).1,
    ) by {
        assert(entries_m(entries)[x] == (entries[x].0@, entries[x].1.m()));
        assert(wf_value(entries[x].1.m()));
    }
}

/// An object of well-formed entries is a well-formed value.
proof fn lemma_wf_from_values(items: Seq<JsonValue>)
    requires
        forall|x: int| 0 <= x < items.len() ==> wf_value((#[trigger] items[x]).m()),
    ensures
        crate::lexicon::wf_seq(seq_m(items)),
{
    lemma_seq_m(items);
    lemma_wf_seq(seq_m(items));
    assert forall|x: int| 0 <= x < seq_m(items).len() implies wf_value(
        #[trigger] seq_m(items)[x],
    ) by {
        assert(seq_m(items)[x] == items[x].m());
    }
}

/// The deepest nesting the decoder accepts; deeper input is an `Indent`
/// error.  The bound keeps the parser's recursion well inside default
/// thread stacks while leaving ample room over the format's guarantee of
/// at least a hundred levels.
pub const DEPTH_LIMIT: usize = 500;

/// The parser's fixed state: the prepared lines and the options.
struct P {
    lines: Vec<PLine>,
    strict: bool,
    expand: bool,
}

/// The mathematical forms of scanned entries.
pub open spec fn triples_m(s: Seq<(Vec<char>, bool, JsonValue)>) -> Seq<
    (Seq<char>, bool, crate::value::ValueModel),
> {
    Seq::new(s.len(), |i: int| (s[i].0@, s[i].1, s[i].2.m()))
}

/// Pushing one scanned entry appends its mathematical form.
proof fn lemma_triples_m_push(
    pre: Seq<(Vec<char>, bool, JsonValue)>,
    post: Seq<(Vec<char>, bool, JsonValue)>,
    k: Seq<char>,
    wq: bool,
    v: crate::value::ValueModel,
)
    requires
        post.len() == pre.len() + 1,
        forall|x: int| 0 <= x < pre.len() ==> post[x] == pre[x],
        post[pre.len() as int].0@ == k,
        post[pre.len() as int].1 == wq,
        post[pre.len() as int].2.m() == v,
    ensures
        triples_m(post) == triples_m(pre).push((k, wq, v)),
{
    assert(triples_m(post) =~= triples_m(pre).push((k, wq, v)));
}

/// The mathematical forms of scanned column names.
pub open spec fn pairs_m(s: Seq<(Vec<char>, bool)>) -> Seq<(Seq<char>, bool)> {
    Seq::new(s.len(), |i: int| (s[i].0@, s[i].1))
}

/// Pushing one column name appends its mathematical form.
proof fn lemma_pairs_m_push(
    pre: Seq<(Vec<char>, bool)>,
    post: Seq<(Vec<char>, bool)>,
    k: Seq<char>,
    wq: bool,
)
    requires
        post.len() == pre.len() + 1,
        forall|x: int| 0 <= x < pre.len() ==> post[x] == pre[x],
        post[pre.len() as int].0@ == k,
        post[pre.len() as int].1 == wq,
    ensures
        pairs_m(post) == pairs_m(pre).push((k, wq)),
{
    assert(pairs_m(post) =~= pairs_m(pre).push((k, wq)));
}

/// The dot split of a key from index `i`; the first piece continues the
/// current segment.
pub open spec fn sp_split_dot(k: Seq<char>, i: int) -> Seq<Seq<char>>
    decreases k.len() - i,
{
    if i < 0 || i >= k.len() {
        seq![Seq::<char>::empty()]
    } else if k[i] == '.' {
        seq![Seq::<char>::empty()] + sp_split_dot(k, i + 1)
    } else {
        cons_head(seq![k[i]], sp_split_dot(k, i + 1))
    }
}

/// Whether any piece is empty.
pub open spec fn sp_any_empty(segs: Seq<Seq<char>>) -> bool {
    exists|i: int| 0 <= i < segs.len() && (#[trigger] segs[i]).len() == 0
}

/// The first index binding `k` among the entries, or the length.
pub open spec fn key_idx(entries: Seq<(Seq<char>, crate::value::ValueModel)>, k: Seq<char>, i: int) -> int
    decreases entries.len() - i,
{
    if i < 0 || i >= entries.len() {
        entries.len() as int
    } else if entries[i].0 == k {
        i
    } else {
        key_idx(entries, k, i + 1)
    }
}

/// The nested single-entry objects binding the tail of a path to a value.
pub open spec fn sp_nest_tail(segs: Seq<Seq<char>>, si: int, v: crate::value::ValueModel) -> crate::value::ValueModel
    decreases segs.len() - si,
{
    if si < 0 || si >= segs.len() {
        v
    } else {
        crate::value::ValueModel::Obj(seq![(segs[si], sp_nest_tail(segs, si + 1, v))])
    }
}

/// Grafting a dotted path into entries: a fresh head key appends the
/// nested tail; an existing object descends; an existing binding of any
/// other shape, or of the whole path, is a path conflict.
pub open spec fn sp_insert_path(
    entries: Seq<(Seq<char>, crate::value::ValueModel)>,
    segs: Seq<Seq<char>>,
    si: int,
    v: crate::value::ValueModel,
    no: int,
) -> Result<Seq<(Seq<char>, crate::value::ValueModel)>, ErrModel>
    decreases segs.len() - si,
{
    let ks = segs[si];
    let idx = key_idx(entries, ks, 0);
    if idx >= entries.len() {
        if si + 1 >= segs.len() {
            Ok(entries.push((ks, v)))
        } else {
            Ok(entries.push((ks, sp_nest_tail(segs, si + 1, v))))
        }
    } else if si + 1 >= segs.len() {
        Err(
            ErrModel {
                kind: ErrorKind::PathConflict,
                line: no,
                col: 1,
                msg: "conflicting path expansion"@,
            },
        )
    } else {
        match entries[idx].1 {
            crate::value::ValueModel::Obj(sub) => match sp_insert_path(
                sub,
                segs,
                if si + 1 < segs.len() {
                    si + 1
                } else {
                    si
                },
                v,
                no,
            ) {
                Result::Ok(sub2) => Ok(
                    entries.update(idx, (entries[idx].0, crate::value::ValueModel::Obj(sub2))),
                ),
                Result::Err(e) => Err(e),
            },
            _ => Err(
                ErrModel {
                    kind: ErrorKind::PathConflict,
                    line: no,
                    col: 1,
                    msg: "conflicting path expansion"@,
                },
            ),
        }
    }
}

/// One scanned entry folded into finished entries: dotted unquoted keys
/// expand when asked; a repeated key is a duplicate.
pub open spec fn sp_fin_step(
    out: Seq<(Seq<char>, crate::value::ValueModel)>,
    k: Seq<char>,
    wq: bool,
    v: crate::value::ValueModel,
    expand: bool,
    no: int,
) -> Result<Seq<(Seq<char>, crate::value::ValueModel)>, ErrModel> {
    if expand && !wq && sp_split_dot(k, 0).len() > 1 && !sp_any_empty(sp_split_dot(k, 0)) {
        sp_insert_path(out, sp_split_dot(k, 0), 0, v, no)
    } else if crate::encode::lookup(out, k) is Some {
        Err(ErrModel { kind: ErrorKind::Structure, line: no, col: 1, msg: "duplicate key"@ })
    } else {
        Ok(out.push((k, v)))
    }
}

/// Scanned entries folded left to right into finished entries.
pub open spec fn sp_finalize_from(
    es: Seq<(Seq<char>, bool, crate::value::ValueModel)>,
    out: Seq<(Seq<char>, crate::value::ValueModel)>,
    expand: bool,
    no: int,
) -> Result<Seq<(Seq<char>, crate::value::ValueModel)>, ErrModel>
    decreases es.len(),
{
    if es.len() == 0 {
        Ok(out)
    } else {
        match sp_fin_step(out, es[0].0, es[0].1, es[0].2, expand, no) {
            Result::Ok(out2) => sp_finalize_from(es.drop_first(), out2, expand, no),
            Result::Err(e) => Err(e),
        }
    }
}

/// What `finalize_object` yields from scanned entries.
pub open spec fn sp_finalize(
    es: Seq<(Seq<char>, bool, crate::value::ValueModel)>,
    expand: bool,
    no: int,
) -> Result<Seq<(Seq<char>, crate::value::ValueModel)>, ErrModel> {
    sp_finalize_from(es, Seq::empty(), expand, no)
}

/// Splits a key on dots; expansion applies only when every segment is
/// non-empty and there are at least two.
#[verifier::loop_isolation(false)]
fn split_dot(k: &Vec<char>) -> (r: Vec<Vec<char>>)
    ensures
        crate::encode::views_of(r@) == sp_split_dot(k@, 0),
{
    let mut out: Vec<Vec<char>> = Vec::new();
    let mut cur: Vec<char> = Vec::new();
    let mut i: usize = 0;
    proof {
        assert(cons_head(cur@, sp_split_dot(k@, 0)) =~= sp_split_dot(k@, 0));
        assert(crate::encode::views_of(out@) + cons_head(cur@, sp_split_dot(k@, 0))
            =~= sp_split_dot(k@, 0));
    }
    while i < k.len()
        invariant
            i <= k@.len(),
            sp_split_dot(k@, 0) == crate::encode::views_of(out@) + cons_head(
                cur@,
                sp_split_dot(k@, i as int),
            ),
        decreases k@.len() - i,
    {
        let ghost cur0 = cur@;
        let ghost out0 = out@;
        let ghost i0 = i as int;
        let c = k[i];
        if c == '.' {
            out.push(cur);
            cur = Vec::new();
            proof {
                assert(cons_head(cur0, sp_split_dot(k@, i0)) =~= seq![cur0] + cons_head(
                    Seq::<char>::empty(),
                    sp_split_dot(k@, i0 + 1),
                ));
                assert(crate::encode::views_of(out@) =~= crate::encode::views_of(out0) + seq![
                    cur0,
                ]);
                assert(cons_head(Seq::<char>::empty(), sp_split_dot(k@, i0 + 1)) =~= cons_head(
                    cur@,
                    sp_split_dot(k@, i0 + 1),
                ));
            }
        } else {
            cur.push(c);
            proof {
                lemma_cons_head_assoc(cur0, seq![c], sp_split_dot(k@, i0 + 1));
                assert(cur@ =~= cur0 + seq![c]);
            }
        }
        i = i + 1;
    }
    proof {
        assert(sp_split_dot(k@, k@.len() as int) == seq![Seq::<char>::empty()]);
        assert(cons_head(cur@, seq![Seq::<char>::empty()]) =~~= seq![cur@]);
    }
    let ghost curg = cur@;
    let ghost outpre = out@;
    out.push(cur);
    proof {
        assert(crate::encode::views_of(out@) =~= crate::encode::views_of(outpre) + seq![curg]);
        assert(crate::encode::views_of(outpre) + cons_head(
            curg,
            sp_split_dot(k@, k@.len() as int),
        ) =~= crate::encode::views_of(outpre) + seq![curg]);
        assert(crate::encode::views_of(out@) =~= sp_split_dot(k@, 0));
    }
    out
}

/// Whether any of the split segments is empty.
#[verifier::loop_isolation(false)]
fn any_empty_seg(segs: &Vec<Vec<char>>) -> (r: bool)
    ensures
        r == sp_any_empty(crate::encode::views_of(segs@)),
{
    let ghost sv = crate::encode::views_of(segs@);
    let mut i: usize = 0;
    while i < segs.len()
        invariant
            i <= segs@.len(),
            forall|x: int| 0 <= x < i ==> (#[trigger] sv[x]).len() != 0,
        decreases segs@.len() - i,
    {
        if segs[i].len() == 0 {
            proof {
                assert(sv[i as int].len() == 0);
            }
            return true;
        }
        i = i + 1;
    }
    false
}

/// Whether the finished entries already bind the key.
#[verifier::loop_isolation(false)]
fn contains_key(entries: &Vec<(String, JsonValue)>, k: &String) -> (r: bool)
    ensures
        r == (crate::encode::lookup(entries_m(entries@), k@) is Some),
{
    proof {
        lemma_entries_m(entries@);
    }
    let ghost em = entries_m(entries@);
    let mut i: usize = 0;
    while i < entries.len()
        invariant
            i <= entries@.len(),
            forall|x: int| 0 <= x < i ==> (#[trigger] em[x]).0 != k@,
        decreases entries@.len() - i,
    {
        if entries[i].0 == *k {
            proof {
                assert(em[i as int].0 == k@);
                crate::encode::lemma_lookup_exists(em, k@);
            }
            return true;
        }
        proof {
            assert(em[i as int] == (entries@[i as int].0@, entries@[i as int].1.m()));
        }
        i = i + 1;
    }
    proof {
        crate::encode::lemma_lookup_none(em, k@);
    }
    false
}

/// Scanning for a key from a no-match prefix starts over equivalently.
proof fn lemma_key_idx_eq(entries: Seq<(Seq<char>, crate::value::ValueModel)>, k: Seq<char>, i: int)
    requires
        0 <= i <= entries.len(),
        forall|x: int| 0 <= x < i ==> (#[trigger] entries[x]).0 != k,
    ensures
        key_idx(entries, k, 0) == key_idx(entries, k, i),
    decreases i,
{
    if i > 0 {
        lemma_key_idx_eq(entries, k, i - 1);
        assert(key_idx(entries, k, i - 1) == key_idx(entries, k, i));
    }
}

/// Where the key scan lands: at a binding of the key, or past the end
/// with no binding anywhere after `i`.
proof fn lemma_key_idx_props(entries: Seq<(Seq<char>, crate::value::ValueModel)>, k: Seq<char>, i: int)
    requires
        0 <= i <= entries.len(),
    ensures
        i <= key_idx(entries, k, i) <= entries.len(),
        key_idx(entries, k, i) < entries.len() ==> entries[key_idx(entries, k, i)].0 == k,
        key_idx(entries, k, i) == entries.len() ==> (forall|x: int|
            i <= x < entries.len() ==> (#[trigger] entries[x]).0 != k),
    decreases entries.len() - i,
{
    if i < entries.len() && entries[i].0 != k {
        lemma_key_idx_props(entries, k, i + 1);
    }
}

/// Pushing one entry appends its mathematical form.
proof fn lemma_entries_m_push(
    pre: Seq<(String, JsonValue)>,
    post: Seq<(String, JsonValue)>,
    k: Seq<char>,
    v: crate::value::ValueModel,
)
    requires
        post.len() == pre.len() + 1,
        forall|x: int| 0 <= x < pre.len() ==> post[x] == pre[x],
        post[pre.len() as int].0@ == k,
        post[pre.len() as int].1.m() == v,
    ensures
        entries_m(post) == entries_m(pre).push((k, v)),
{
    lemma_entries_m(pre);
    lemma_entries_m(post);
    assert forall|x: int| 0 <= x < post.len() implies entries_m(post)[x] == entries_m(pre).push(
        (k, v),
    )[x] by {
        assert(entries_m(post)[x] == (post[x].0@, post[x].1.m()));
        if x < pre.len() {
            assert(post[x] == pre[x]);
            assert(entries_m(pre)[x] == (pre[x].0@, pre[x].1.m()));
        }
    }
    assert(entries_m(post) =~= entries_m(pre).push((k, v)));
}

/// The nested single-entry objects binding the tail of a path to a value.
fn nest_tail(segs: &Vec<Vec<char>>, si: usize, v: JsonValue) -> (r: JsonValue)
    requires
        si <= segs@.len(),
        wf_value(v.m()),
    ensures
        wf_value(r.m()),
        r.m() == sp_nest_tail(crate::encode::views_of(segs@), si as int, v.m()),
    decreases segs@.len() - si,
{
    if si >= segs.len() {
        v
    } else {
        let inner = nest_tail(segs, si + 1, v);
        let ks = crate::chars::chars_to_string(&segs[si]);
        let mut es: Vec<(String, JsonValue)> = Vec::new();
        es.push((ks, inner));
        proof {
            lemma_wf_from_entries(es@);
            lemma_entries_m(es@);
            assert(entries_m(es@) =~= seq![
                (
                    crate::encode::views_of(segs@)[si as int],
                    sp_nest_tail(crate::encode::views_of(segs@), si + 1, v.m()),
                ),
            ]);
        }
        JsonValue::Object(es)
    }
}

/// Grafts a dotted path into the entries; a clash with an existing
/// binding of another shape is a path conflict.
#[verifier::loop_isolation(false)]
fn insert_path(
    entries: Vec<(String, JsonValue)>,
    segs: &Vec<Vec<char>>,
    si: usize,
    v: JsonValue,
    no: usize,
) -> (r: Result<Vec<(String, JsonValue)>, ToonError>)
    requires
        si < segs@.len(),
        wf_sentries(entries@),
        wf_value(v.m()),
    ensures
        r matches Ok(out) ==> wf_sentries(out@),
        r matches Err(e) ==> parse_kind(e),
        match r {
            Result::Ok(out) => sp_insert_path(
                entries_m(entries@),
                crate::encode::views_of(segs@),
                si as int,
                v.m(),
                no as int,
            ) == Result::<Seq<(Seq<char>, crate::value::ValueModel)>, ErrModel>::Ok(
                entries_m(out@),
            ),
            Result::Err(e) => sp_insert_path(
                entries_m(entries@),
                crate::encode::views_of(segs@),
                si as int,
                v.m(),
                no as int,
            ) == Result::<Seq<(Seq<char>, crate::value::ValueModel)>, ErrModel>::Err(err_m(e)),
        },
    decreases segs@.len() - si,
{
    proof {
        lemma_entries_m(entries@);
    }
    let ghost em0 = entries_m(entries@);
    let ghost sv = crate::encode::views_of(segs@);
    // binding the length as a machine word bounds the indices below
    let sl: usize = segs.len();
    let mut entries = entries;
    let ks = crate::chars::chars_to_string(&segs[si]);
    let mut idx: usize = 0;
    let mut found = false;
    while idx < entries.len() && !found
        invariant
            idx <= entries@.len(),
            found ==> idx < entries@.len() && em0[idx as int].0 == ks@,
            forall|x: int| 0 <= x < idx ==> (#[trigger] em0[x]).0 != ks@,
        decreases entries@.len() - idx + (if found {
            0int
        } else {
            1int
        }),
    {
        if entries[idx].0 == ks {
            found = true;
            proof {
                assert(em0[idx as int] == (entries@[idx as int].0@, entries@[idx as int].1.m()));
            }
        } else {
            proof {
                assert(em0[idx as int] == (entries@[idx as int].0@, entries@[idx as int].1.m()));
            }
            idx = idx + 1;
        }
    }
    proof {
        lemma_key_idx_eq(em0, ks@, idx as int);
        lemma_key_idx_props(em0, ks@, idx as int);
        if found {
            assert(key_idx(em0, ks@, idx as int) == idx as int);
        } else {
            assert(idx == entries@.len());
            assert(key_idx(em0, ks@, 0) == em0.len());
        }
        assert(sv[si as int] == ks@);
    }
    if !found {
        if si + 1 >= sl {
            let ghost pre = entries@;
            entries.push((ks, v));
            proof {
                lemma_entries_m_push(pre, entries@, ks@, v.m());
                assert(wf_sentries(entries@));
            }
        } else {
            let nested = nest_tail(segs, si + 1, v);
            let ghost pre = entries@;
            entries.push((ks, nested));
            proof {
                lemma_entries_m_push(pre, entries@, ks@, sp_nest_tail(sv, si + 1, v.m()));
                assert(wf_sentries(entries@));
            }
        }
        return Ok(entries);
    }
    if si + 1 >= sl {
        return Err(make_error(ErrorKind::PathConflict, no, 1, "conflicting path expansion"));
    }
    let ghost ents0 = entries@;
    let (k0, oldv) = entries.remove(idx);
    proof {
        assert(ents0[idx as int].1 == oldv);
        assert(wf_value(oldv.m()));
        assert(em0[idx as int].1 == oldv.m());
        assert forall|x: int| 0 <= x < entries@.len() implies wf_value(
            (#[trigger] entries@[x]).1.m(),
        ) by {
            if x < idx {
                assert(entries@[x] == ents0[x]);
            } else {
                assert(entries@[x] == ents0[x + 1]);
            }
        }
    }
    match oldv {
        JsonValue::Object(sub) => {
            proof {
                assert(crate::lexicon::wf_entries(entries_m(sub@)));
                lemma_entries_m(sub@);
                lemma_wf_entries(entries_m(sub@));
                assert forall|x: int| 0 <= x < sub@.len() implies wf_value(
                    (#[trigger] sub@[x]).1.m(),
                ) by {
                    assert(entries_m(sub@)[x] == (sub@[x].0@, sub@[x].1.m()));
                    assert(wf_value(entries_m(sub@)[x].1));
                }
            }
            let ghost subm = entries_m(sub@);
            let sub2 = insert_path(sub, segs, si + 1, v, no)?;
            proof {
                lemma_wf_from_entries(sub2@);
                lemma_entries_m(sub2@);
            }
            let ghost ents1 = entries@;
            entries.insert(idx, (k0, JsonValue::Object(sub2)));
            proof {
                assert forall|x: int| 0 <= x < entries@.len() implies wf_value(
                    (#[trigger] entries@[x]).1.m(),
                ) by {
                    if x < idx {
                        assert(entries@[x] == ents1[x]);
                    } else if x > idx {
                        assert(entries@[x] == ents1[x - 1]);
                    }
                }
                assert(wf_sentries(entries@));
                lemma_entries_m(entries@);
                assert(k0@ == em0[idx as int].0);
                assert forall|x: int| 0 <= x < entries@.len() implies entries_m(entries@)[x]
                    == em0.update(
                    idx as int,
                    (em0[idx as int].0, crate::value::ValueModel::Obj(entries_m(sub2@))),
                )[x] by {
                    assert(entries_m(entries@)[x] == (entries@[x].0@, entries@[x].1.m()));
                    if x < idx {
                        assert(entries@[x] == ents1[x]);
                        assert(ents1[x] == ents0[x]);
                        assert(em0[x] == (ents0[x].0@, ents0[x].1.m()));
                    } else if x > idx {
                        assert(entries@[x] == ents1[x - 1]);
                        assert(ents1[x - 1] == ents0[x]);
                        assert(em0[x] == (ents0[x].0@, ents0[x].1.m()));
                    }
                }
                assert(entries_m(entries@) =~= em0.update(
                    idx as int,
                    (em0[idx as int].0, crate::value::ValueModel::Obj(entries_m(sub2@))),
                ));
            }
            Ok(entries)
        },
        _ => {
            proof {
                assert(!(em0[idx as int].1 is Obj));
            }
            Err(make_error(ErrorKind::PathConflict, no, 1, "conflicting path expansion"))
        },
    }
}

/// Turns scanned entries into an object's entries: checks duplicates and,
/// when asked, expands dotted unquoted keys into nested objects.
#[verifier::loop_isolation(false)]
fn finalize_object(
    es: Vec<(Vec<char>, bool, JsonValue)>,
    expand: bool,
    no: usize,
) -> (r: Result<Vec<(String, JsonValue)>, ToonError>)
    requires
        wf_triples(es@),
    ensures
        r matches Ok(out) ==> wf_sentries(out@),
        r matches Err(e) ==> parse_kind(e),
        match r {
            Result::Ok(out) => sp_finalize(triples_m(es@), expand, no as int) == Result::<
                Seq<(Seq<char>, crate::value::ValueModel)>,
                ErrModel,
            >::Ok(entries_m(out@)),
            Result::Err(e) => sp_finalize(triples_m(es@), expand, no as int) == Result::<
                Seq<(Seq<char>, crate::value::ValueModel)>,
                ErrModel,
            >::Err(err_m(e)),
        },
{
    let ghost es_all = triples_m(es@);
    let mut es = es;
    let mut out: Vec<(String, JsonValue)> = Vec::new();
    proof {
        lemma_entries_m(out@);
        assert(entries_m(out@) =~= Seq::<(Seq<char>, crate::value::ValueModel)>::empty());
        assert(triples_m(es@) =~= es_all);
    }
    while es.len() > 0
        invariant
            wf_triples(es@),
            wf_sentries(out@),
            sp_finalize(es_all, expand, no as int) == sp_finalize_from(
                triples_m(es@),
                entries_m(out@),
                expand,
                no as int,
            ),
        decreases es@.len(),
    {
        let ghost es0 = es@;
        let ghost tm0 = triples_m(es@);
        let ghost outm0 = entries_m(out@);
        let (k, wq, v) = es.remove(0);
        proof {
            assert(es0[0].2 == v);
            assert(wf_value(v.m()));
            assert(tm0[0] == (k@, wq, v.m()));
            assert forall|x: int| 0 <= x < es@.len() implies wf_value(
                (#[trigger] es@[x]).2.m(),
            ) by {
                assert(es@[x] == es0[x + 1]);
            }
            assert forall|x: int| 0 <= x < triples_m(es@).len() implies triples_m(es@)[x]
                == tm0.drop_first()[x] by {
                assert(es@[x] == es0[x + 1]);
            }
            assert(triples_m(es@) =~= tm0.drop_first());
        }
        if expand && !wq {
            let segs = split_dot(&k);
            if segs.len() > 1 && !any_empty_seg(&segs) {
                out = insert_path(out, &segs, 0, v, no)?;
                proof {
                    assert(sp_fin_step(outm0, k@, wq, v.m(), expand, no as int)
                        == sp_insert_path(
                        outm0,
                        sp_split_dot(k@, 0),
                        0,
                        v.m(),
                        no as int,
                    ));
                }
            } else {
                let ks = crate::chars::chars_to_string(&k);
                if contains_key(&out, &ks) {
                    proof {
                        assert(sp_fin_step(outm0, k@, wq, v.m(), expand, no as int)
                            matches Result::Err(e2) && e2 == ErrModel {
                            kind: ErrorKind::Structure,
                            line: no as int,
                            col: 1,
                            msg: "duplicate key"@,
                        });
                    }
                    return Err(make_error(ErrorKind::Structure, no, 1, "duplicate key"));
                }
                let ghost pre = out@;
                out.push((ks, v));
                proof {
                    lemma_entries_m_push(pre, out@, k@, v.m());
                    assert(wf_sentries(out@));
                }
            }
        } else {
            let ks = crate::chars::chars_to_string(&k);
            if contains_key(&out, &ks) {
                return Err(make_error(ErrorKind::Structure, no, 1, "duplicate key"));
            }
            let ghost pre = out@;
            out.push((ks, v));
            proof {
                lemma_entries_m_push(pre, out@, k@, v.m());
                assert(wf_sentries(out@));
            }
        }
    }
    proof {
        assert(triples_m(es@).len() == 0);
        assert(triples_m(es@) =~= Seq::<(Seq<char>, bool, crate::value::ValueModel)>::empty());
    }
    Ok(out)
}

/// What a whole value token denotes: an empty container marker or a
/// scalar by the lexicon; anything else is a lexical error.
pub open spec fn sp_scan_value(tok: Seq<char>, no: int) -> Result<crate::value::ValueModel, ErrModel> {
    if tok == seq!['{', '}'] {
        Ok(crate::value::ValueModel::Obj(Seq::empty()))
    } else if tok == seq!['[', ']'] {
        Ok(crate::value::ValueModel::Arr(Seq::empty()))
    } else {
        match classify_prim(tok) {
            Option::Some(pm) => Ok(crate::value::ValueModel::Prim(pm)),
            Option::None => Err(
                ErrModel { kind: ErrorKind::Lexical, line: no, col: 1, msg: "bad value token"@ },
            ),
        }
    }
}

/// The scalar values of inline cells, each trimmed and scanned.
pub open spec fn sp_cells_values(pieces: Seq<Seq<char>>, j: int, no: int) -> Result<
    Seq<crate::value::ValueModel>,
    ErrModel,
>
    decreases pieces.len() - j,
{
    if j < 0 || j >= pieces.len() {
        Ok(Seq::empty())
    } else {
        match sp_scan_value(crate::lexicon::trim(pieces[j]), no) {
            Result::Err(e) => Err(e),
            Result::Ok(v) => match sp_cells_values(pieces, j + 1, no) {
                Result::Err(e) => Err(e),
                Result::Ok(rest) => Ok(seq![v] + rest),
            },
        }
    }
}

/// The column names of a table header, each trimmed, quoted names read
/// back through the string scanner.
pub open spec fn sp_cols(colpieces: Seq<Seq<char>>, j: int, no: int) -> Result<
    Seq<(Seq<char>, bool)>,
    ErrModel,
>
    decreases colpieces.len() - j,
{
    if j < 0 || j >= colpieces.len() {
        Ok(Seq::empty())
    } else {
        let t = crate::lexicon::trim(colpieces[j]);
        if t.len() == 0 {
            Err(
                ErrModel {
                    kind: ErrorKind::Lexical,
                    line: no,
                    col: 1,
                    msg: "malformed array header"@,
                },
            )
        } else if t[0] == '"' {
            match crate::lexicon::unesc(t, 1) {
                Option::Some((content, k)) => if k == t.len() {
                    match sp_cols(colpieces, j + 1, no) {
                        Result::Err(e) => Err(e),
                        Result::Ok(rest) => Ok(seq![(content, true)] + rest),
                    }
                } else {
                    Err(
                        ErrModel {
                            kind: ErrorKind::Lexical,
                            line: no,
                            col: 1,
                            msg: "bad column name"@,
                        },
                    )
                },
                Option::None => Err(
                    ErrModel {
                        kind: ErrorKind::Lexical,
                        line: no,
                        col: 1,
                        msg: "bad column name"@,
                    },
                ),
            }
        } else {
            match sp_cols(colpieces, j + 1, no) {
                Result::Err(e) => Err(e),
                Result::Ok(rest) => Ok(seq![(t, false)] + rest),
            }
        }
    }
}

/// One table row's scanned entries: its cells zipped with the columns.
pub open spec fn sp_row_entries(
    cells: Seq<Seq<char>>,
    cols: Seq<(Seq<char>, bool)>,
    c: int,
    no: int,
) -> Result<Seq<(Seq<char>, bool, crate::value::ValueModel)>, ErrModel>
    decreases cells.len() - c,
{
    if c < 0 || c >= cells.len() {
        Ok(Seq::empty())
    } else {
        match sp_scan_value(crate::lexicon::trim(cells[c]), no) {
            Result::Err(e) => Err(e),
            Result::Ok(v) => match sp_row_entries(cells, cols, c + 1, no) {
                Result::Err(e) => Err(e),
                Result::Ok(rest) => Ok(seq![(cols[c].0, cols[c].1, v)] + rest),
            },
        }
    }
}

/// Reads consecutive entry lines at `depth` into scanned entries,
/// stopping at a dedent or the end of the lines.
pub open spec fn sp_parse_block(
    lines: Seq<LineModel>,
    i: int,
    depth: int,
    strict: bool,
    expand: bool,
) -> Result<(Seq<(Seq<char>, bool, crate::value::ValueModel)>, int), ErrModel>
    decreases lines.len() - i, 3int, 0int,
{
    if i < 0 || i >= lines.len() {
        Ok((Seq::empty(), i))
    } else {
        let d = lines[i].depth;
        let no = lines[i].no;
        if d < depth {
            Ok((Seq::empty(), i))
        } else if d > depth && strict {
            Err(ErrModel { kind: ErrorKind::Indent, line: no, col: 1, msg: "unexpected indent"@ })
        } else {
            match sp_scan_shape(lines[i].text, no) {
                Result::Err(e) => Err(e),
                Result::Ok(ShapeModel::Bare(_)) => Err(
                    ErrModel {
                        kind: ErrorKind::Structure,
                        line: no,
                        col: 1,
                        msg: "expected a key"@,
                    },
                ),
                Result::Ok(ShapeModel::Header(_)) => Err(
                    ErrModel {
                        kind: ErrorKind::Structure,
                        line: no,
                        col: 1,
                        msg: "expected a key"@,
                    },
                ),
                Result::Ok(ShapeModel::Entry(k, wq, rest)) => match sp_parse_rest(
                    lines,
                    rest,
                    i,
                    depth,
                    strict,
                    expand,
                ) {
                    Result::Err(e) => Err(e),
                    Result::Ok((v, nj)) => {
                        // the scanners only move forward, so the recursion
                        // below is anchored at a strictly later line
                        if i < nj <= lines.len() {
                            match sp_parse_block(lines, nj, depth, strict, expand) {
                                Result::Err(e) => Err(e),
                                Result::Ok((es, ni)) => Ok((seq![(k, wq, v)] + es, ni)),
                            }
                        } else {
                            Ok((seq![(k, wq, v)], nj))
                        }
                    },
                },
            }
        }
    }
}

/// Reads the value of one entry: an inline token, a nested block one
/// level deeper, or an array under its header.
pub open spec fn sp_parse_rest(
    lines: Seq<LineModel>,
    rest: RestModel,
    i: int,
    depth: int,
    strict: bool,
    expand: bool,
) -> Result<(crate::value::ValueModel, int), ErrModel>
    decreases lines.len() - i, 2int, 0int,
{
    if i < 0 || i >= lines.len() {
        Err(ErrModel { kind: ErrorKind::Structure, line: 1, col: 1, msg: "empty input"@ })
    } else {
        let no = lines[i].no;
        match rest {
            RestModel::Token(tok) => match sp_scan_value(tok, no) {
                Result::Err(e) => Err(e),
                Result::Ok(v) => Ok((v, i + 1)),
            },
            RestModel::Nested => {
                if depth >= DEPTH_LIMIT {
                    Err(
                        ErrModel {
                            kind: ErrorKind::Indent,
                            line: no,
                            col: 1,
                            msg: "nesting too deep"@,
                        },
                    )
                } else {
                    match sp_parse_block(lines, i + 1, depth + 1, strict, expand) {
                        Result::Err(e) => Err(e),
                        Result::Ok((es, ni)) => match sp_finalize(es, expand, no) {
                            Result::Err(e) => Err(e),
                            Result::Ok(entries) => Ok(
                                (crate::value::ValueModel::Obj(entries), ni),
                            ),
                        },
                    }
                }
            },
            RestModel::Header(h) => sp_parse_array(lines, h, i, depth, strict, expand),
        }
    }
}

/// Reads an array under its header on line `i`: inline cells, table
/// rows, or dashed list items.
pub open spec fn sp_parse_array(
    lines: Seq<LineModel>,
    h: SpHeader,
    i: int,
    depth: int,
    strict: bool,
    expand: bool,
) -> Result<(crate::value::ValueModel, int), ErrModel>
    decreases lines.len() - i, 1int, 0int,
{
    if i < 0 || i >= lines.len() {
        Err(ErrModel { kind: ErrorKind::Structure, line: 1, col: 1, msg: "empty input"@ })
    } else {
        let no = lines[i].no;
        match h.cells {
            Option::Some(src) => {
                let pieces = sp_split_top(src, h.delim);
                match sp_cells_values(pieces, 0, no) {
                    Result::Err(e) => Err(e),
                    Result::Ok(items) => if items.len() != h.len {
                        Err(
                            ErrModel {
                                kind: ErrorKind::Structure,
                                line: no,
                                col: 1,
                                msg: "array length mismatch"@,
                            },
                        )
                    } else {
                        Ok((crate::value::ValueModel::Arr(items), i + 1))
                    },
                }
            },
            Option::None => match h.cols {
                Option::Some(csrc) => sp_parse_table(
                    lines,
                    csrc,
                    h.len,
                    h.delim,
                    i,
                    depth,
                    strict,
                    expand,
                ),
                Option::None => sp_parse_list(lines, h.len, i, depth, strict, expand),
            },
        }
    }
}

/// Reads the rows of a table, one line each at one level deeper.
pub open spec fn sp_rows(
    lines: Seq<LineModel>,
    cols: Seq<(Seq<char>, bool)>,
    delim: char,
    j: int,
    depth: int,
    remaining: int,
    strict: bool,
    expand: bool,
    no: int,
) -> Result<(Seq<crate::value::ValueModel>, int), ErrModel>
    decreases lines.len() - j, 0int, 0int,
{
    if remaining <= 0 {
        Ok((Seq::empty(), j))
    } else if j < 0 || j >= lines.len() {
        Err(
            ErrModel {
                kind: ErrorKind::Structure,
                line: no,
                col: 1,
                msg: "array row count mismatch"@,
            },
        )
    } else {
        let pd = lines[j].depth;
        let pno = lines[j].no;
        if pd <= depth {
            Err(
                ErrModel {
                    kind: ErrorKind::Structure,
                    line: no,
                    col: 1,
                    msg: "array row count mismatch"@,
                },
            )
        } else if pd > depth + 1 && strict {
            Err(ErrModel { kind: ErrorKind::Indent, line: pno, col: 1, msg: "unexpected indent"@ })
        } else {
            let cells = sp_split_top(lines[j].text, delim);
            if cells.len() != cols.len() {
                Err(
                    ErrModel {
                        kind: ErrorKind::Structure,
                        line: pno,
                        col: 1,
                        msg: "column count mismatch"@,
                    },
                )
            } else {
                match sp_row_entries(cells, cols, 0, pno) {
                    Result::Err(e) => Err(e),
                    Result::Ok(es) => match sp_finalize(es, expand, pno) {
                        Result::Err(e) => Err(e),
                        Result::Ok(entries) => match sp_rows(
                            lines,
                            cols,
                            delim,
                            j + 1,
                            depth,
                            remaining - 1,
                            strict,
                            expand,
                            no,
                        ) {
                            Result::Err(e) => Err(e),
                            Result::Ok((rest, end)) => Ok(
                                (seq![crate::value::ValueModel::Obj(entries)] + rest, end),
                            ),
                        },
                    },
                }
            }
        }
    }
}

/// Reads a table under its header on line `i`.
pub open spec fn sp_parse_table(
    lines: Seq<LineModel>,
    csrc: Seq<char>,
    len: int,
    delim: char,
    i: int,
    depth: int,
    strict: bool,
    expand: bool,
) -> Result<(crate::value::ValueModel, int), ErrModel>
    decreases lines.len() - i, 0int, 1int,
{
    if i < 0 || i >= lines.len() {
        Err(ErrModel { kind: ErrorKind::Structure, line: 1, col: 1, msg: "empty input"@ })
    } else {
        let no = lines[i].no;
        let colpieces = sp_split_top(csrc, delim);
        match sp_cols(colpieces, 0, no) {
            Result::Err(e) => Err(e),
            Result::Ok(cols) => match sp_rows(
                lines,
                cols,
                delim,
                i + 1,
                depth,
                len,
                strict,
                expand,
                no,
            ) {
                Result::Err(e) => Err(e),
                Result::Ok((items, end)) => Ok((crate::value::ValueModel::Arr(items), end)),
            },
        }
    }
}

/// Reads one dashed object element that begins with a keyed entry on the
/// dash line: the first entry's value, then the element's further
/// entries one level in, folded into one object.
pub open spec fn sp_list_entry(
    lines: Seq<LineModel>,
    k: Seq<char>,
    wq: bool,
    erest: RestModel,
    j: int,
    depth: int,
    strict: bool,
    expand: bool,
    pno: int,
) -> Result<(crate::value::ValueModel, int), ErrModel>
    decreases lines.len() - j, 3int, 0int,
{
    match sp_parse_rest(lines, erest, j, depth + 2, strict, expand) {
        Result::Err(e) => Err(e),
        Result::Ok((v0, nj)) => {
            // the scanners only move forward, so the call below is
            // anchored at a strictly later line
            if j < nj <= lines.len() {
                match sp_parse_block(lines, nj, depth + 2, strict, expand) {
                    Result::Err(e) => Err(e),
                    Result::Ok((es2, nj2)) => match sp_finalize(
                        seq![(k, wq, v0)] + es2,
                        expand,
                        pno,
                    ) {
                        Result::Err(e) => Err(e),
                        Result::Ok(entries) => Ok(
                            (crate::value::ValueModel::Obj(entries), nj2),
                        ),
                    },
                }
            } else {
                Ok((v0, nj))
            }
        },
    }
}

/// Reads the dashed items of a list, each at one level deeper.
pub open spec fn sp_list_items(
    lines: Seq<LineModel>,
    j: int,
    depth: int,
    remaining: int,
    strict: bool,
    expand: bool,
    no: int,
) -> Result<(Seq<crate::value::ValueModel>, int), ErrModel>
    decreases lines.len() - j, 4int, 0int,
{
    if remaining <= 0 {
        Ok((Seq::empty(), j))
    } else if j < 0 || j >= lines.len() {
        Err(
            ErrModel {
                kind: ErrorKind::Structure,
                line: no,
                col: 1,
                msg: "array item count mismatch"@,
            },
        )
    } else {
        let pd = lines[j].depth;
        let pno = lines[j].no;
        let text = lines[j].text;
        if pd <= depth {
            Err(
                ErrModel {
                    kind: ErrorKind::Structure,
                    line: no,
                    col: 1,
                    msg: "array item count mismatch"@,
                },
            )
        } else if pd > depth + 1 && strict {
            Err(ErrModel { kind: ErrorKind::Indent, line: pno, col: 1, msg: "unexpected indent"@ })
        } else if !(text.len() >= 1 && text[0] == '-') {
            Err(
                ErrModel {
                    kind: ErrorKind::Structure,
                    line: pno,
                    col: 1,
                    msg: "expected a list item"@,
                },
            )
        } else if text.len() >= 2 && text[1] != ' ' {
            Err(
                ErrModel {
                    kind: ErrorKind::Structure,
                    line: pno,
                    col: 1,
                    msg: "expected a list item"@,
                },
            )
        } else {
            let start: int = if text.len() >= 2 {
                2
            } else {
                1
            };
            let rest = crate::lexicon::trim(text.subrange(start, text.len() as int));
            if rest.len() == 0 {
                Err(
                    ErrModel {
                        kind: ErrorKind::Lexical,
                        line: pno,
                        col: 1,
                        msg: "empty list item"@,
                    },
                )
            } else if depth + 2 >= DEPTH_LIMIT {
                Err(
                    ErrModel {
                        kind: ErrorKind::Indent,
                        line: pno,
                        col: 1,
                        msg: "nesting too deep"@,
                    },
                )
            } else {
                match sp_scan_shape(rest, pno) {
                    Result::Err(e) => Err(e),
                    Result::Ok(ShapeModel::Bare(tok)) => match sp_scan_value(tok, pno) {
                        Result::Err(e) => Err(e),
                        Result::Ok(v) => match sp_list_items(
                            lines,
                            j + 1,
                            depth,
                            remaining - 1,
                            strict,
                            expand,
                            no,
                        ) {
                            Result::Err(e) => Err(e),
                            Result::Ok((more, end)) => Ok((seq![v] + more, end)),
                        },
                    },
                    Result::Ok(ShapeModel::Entry(k, wq, erest)) => match sp_list_entry(
                        lines,
                        k,
                        wq,
                        erest,
                        j,
                        depth,
                        strict,
                        expand,
                        pno,
                    ) {
                        Result::Err(e) => Err(e),
                        Result::Ok((v, nj2)) => {
                            if j < nj2 <= lines.len() {
                                match sp_list_items(
                                    lines,
                                    nj2,
                                    depth,
                                    remaining - 1,
                                    strict,
                                    expand,
                                    no,
                                ) {
                                    Result::Err(e) => Err(e),
                                    Result::Ok((more, end)) => Ok((seq![v] + more, end)),
                                }
                            } else {
                                Ok((seq![v], nj2))
                            }
                        },
                    },
                    Result::Ok(ShapeModel::Header(h2)) => match sp_parse_array(
                        lines,
                        h2,
                        j,
                        depth + 2,
                        strict,
                        expand,
                    ) {
                        Result::Err(e) => Err(e),
                        Result::Ok((v, nj)) => {
                            if j < nj <= lines.len() {
                                match sp_list_items(
                                    lines,
                                    nj,
                                    depth,
                                    remaining - 1,
                                    strict,
                                    expand,
                                    no,
                                ) {
                                    Result::Err(e) => Err(e),
                                    Result::Ok((more, end)) => Ok((seq![v] + more, end)),
                                }
                            } else {
                                Ok((seq![v], nj))
                            }
                        },
                    },
                }
            }
        }
    }
}

/// Reads a dashed list under its header on line `i`.
pub open spec fn sp_parse_list(
    lines: Seq<LineModel>,
    len: int,
    i: int,
    depth: int,
    strict: bool,
    expand: bool,
) -> Result<(crate::value::ValueModel, int), ErrModel>
    decreases lines.len() - i, 0int, 1int,
{
    if i < 0 || i >= lines.len() {
        Err(ErrModel { kind: ErrorKind::Structure, line: 1, col: 1, msg: "empty input"@ })
    } else {
        let no = lines[i].no;
        match sp_list_items(lines, i + 1, depth, len, strict, expand, no) {
            Result::Err(e) => Err(e),
            Result::Ok((items, end)) => Ok((crate::value::ValueModel::Arr(items), end)),
        }
    }
}



impl P {
    /// Reads consecutive entry lines at `depth` into scanned entries,
    /// stopping at a dedent or the end.
    #[verifier::loop_isolation(false)]
    fn parse_block_object(&self, i: usize, depth: usize) -> (r: Result<
        (Vec<(Vec<char>, bool, JsonValue)>, usize),
        ToonError,
    >)
        requires
            i <= self.lines@.len(),
            depth <= DEPTH_LIMIT,
        ensures
            r matches Ok((es, ni)) ==> wf_triples(es@) && i <= ni <= self.lines@.len(),
            r matches Err(e) ==> parse_kind(e),
            match r {
                Result::Ok((es, ni)) => sp_parse_block(
                    plines_m(self.lines@),
                    i as int,
                    depth as int,
                    self.strict,
                    self.expand,
                ) == Result::<
                    (Seq<(Seq<char>, bool, crate::value::ValueModel)>, int),
                    ErrModel,
                >::Ok((triples_m(es@), ni as int)),
                Result::Err(e) => sp_parse_block(
                    plines_m(self.lines@),
                    i as int,
                    depth as int,
                    self.strict,
                    self.expand,
                ) == Result::<
                    (Seq<(Seq<char>, bool, crate::value::ValueModel)>, int),
                    ErrModel,
                >::Err(err_m(e)),
            },
        decreases self.lines@.len() - i, 3int, 0int,
    {
        let ll: usize = self.lines.len();
        let ghost lm = plines_m(self.lines@);
        let mut out: Vec<(Vec<char>, bool, JsonValue)> = Vec::new();
        let mut j: usize = i;
        proof {
            assert(triples_m(out@) =~= Seq::<
                (Seq<char>, bool, crate::value::ValueModel),
            >::empty());
            match sp_parse_block(lm, i as int, depth as int, self.strict, self.expand) {
                Result::Ok((es, ni)) => {
                    assert(triples_m(out@) + es =~= es);
                },
                Result::Err(_) => {},
            }
        }
        while j < self.lines.len()
            invariant
                i <= j <= self.lines@.len(),
                wf_triples(out@),
                match sp_parse_block(lm, j as int, depth as int, self.strict, self.expand) {
                    Result::Ok((es, ni)) => sp_parse_block(
                        lm,
                        i as int,
                        depth as int,
                        self.strict,
                        self.expand,
                    ) == Result::<
                        (Seq<(Seq<char>, bool, crate::value::ValueModel)>, int),
                        ErrModel,
                    >::Ok((triples_m(out@) + es, ni)),
                    Result::Err(e) => sp_parse_block(
                        lm,
                        i as int,
                        depth as int,
                        self.strict,
                        self.expand,
                    ) == Result::<
                        (Seq<(Seq<char>, bool, crate::value::ValueModel)>, int),
                        ErrModel,
                    >::Err(e),
                },
            decreases self.lines@.len() - j,
        {
            let d = self.lines[j].depth;
            let no = self.lines[j].no;
            proof {
                assert(lm[j as int].depth == d as int && lm[j as int].no == no as int
                    && lm[j as int].text == self.lines@[j as int].text@);
            }
            let ghost sp_j = sp_parse_block(lm, j as int, depth as int, self.strict, self.expand);
            if d < depth {
                proof {
                    assert(sp_j == Result::<
                        (Seq<(Seq<char>, bool, crate::value::ValueModel)>, int),
                        ErrModel,
                    >::Ok((Seq::empty(), j as int)));
                    assert(triples_m(out@) + Seq::<
                        (Seq<char>, bool, crate::value::ValueModel),
                    >::empty() =~= triples_m(out@));
                }
                return Ok((out, j));
            }
            if d > depth && self.strict {
                let e = make_error(ErrorKind::Indent, no, 1, "unexpected indent");
                proof {
                    assert(err_m(e) =~= ErrModel {
                        kind: ErrorKind::Indent,
                        line: no as int,
                        col: 1,
                        msg: "unexpected indent"@,
                    });
                }
                return Err(e);
            }
            let sh = match scan_shape(&self.lines[j].text, no) {
                Result::Ok(sh) => sh,
                Result::Err(e) => {
                    proof {
                        assert(sp_j == Result::<
                            (Seq<(Seq<char>, bool, crate::value::ValueModel)>, int),
                            ErrModel,
                        >::Err(err_m(e)));
                    }
                    return Err(e);
                },
            };
            match sh {
                Shape::Bare(_) => {
                    let e = make_error(ErrorKind::Structure, no, 1, "expected a key");
                    proof {
                        assert(err_m(e) =~= ErrModel {
                            kind: ErrorKind::Structure,
                            line: no as int,
                            col: 1,
                            msg: "expected a key"@,
                        });
                    }
                    return Err(e);
                },
                Shape::Header(_) => {
                    let e = make_error(ErrorKind::Structure, no, 1, "expected a key");
                    proof {
                        assert(err_m(e) =~= ErrModel {
                            kind: ErrorKind::Structure,
                            line: no as int,
                            col: 1,
                            msg: "expected a key"@,
                        });
                    }
                    return Err(e);
                },
                Shape::Entry(k, wq, rest) => {
                    let ghost km = k@;
                    let ghost rm = rest_m(rest);
                    match self.parse_rest_value(rest, j, depth) {
                        Result::Err(e) => {
                            proof {
                                assert(sp_j == Result::<
                                    (Seq<(Seq<char>, bool, crate::value::ValueModel)>, int),
                                    ErrModel,
                                >::Err(err_m(e)));
                            }
                            return Err(e);
                        },
                        Result::Ok((v, nj)) => {
                            let ghost out0 = out@;
                            let ghost vm = v.m();
                            out.push((k, wq, v));
                            proof {
                                lemma_triples_m_push(out0, out@, km, wq, vm);
                                assert(wf_triples(out@));
                                match sp_parse_block(
                                    lm,
                                    nj as int,
                                    depth as int,
                                    self.strict,
                                    self.expand,
                                ) {
                                    Result::Ok((es2, ni2)) => {
                                        assert(sp_j == Result::<
                                            (
                                                Seq<(Seq<char>, bool, crate::value::ValueModel)>,
                                                int,
                                            ),
                                            ErrModel,
                                        >::Ok((seq![(km, wq, vm)] + es2, ni2)));
                                        assert(triples_m(out0) + (seq![(km, wq, vm)] + es2)
                                            =~= triples_m(out@) + es2);
                                    },
                                    Result::Err(_) => {},
                                }
                            }
                            j = nj;
                        },
                    }
                },
            }
        }
        proof {
            assert(sp_parse_block(lm, j as int, depth as int, self.strict, self.expand)
                == Result::<
                (Seq<(Seq<char>, bool, crate::value::ValueModel)>, int),
                ErrModel,
            >::Ok((Seq::empty(), j as int)));
            assert(triples_m(out@) + Seq::<
                (Seq<char>, bool, crate::value::ValueModel),
            >::empty() =~= triples_m(out@));
        }
        Ok((out, j))
    }

    /// Reads the value of one entry: an inline token, a nested block one
    /// level deeper, or an array under its header.
    #[verifier::loop_isolation(false)]
    fn parse_rest_value(&self, rest: Rest, i: usize, depth: usize) -> (r: Result<
        (JsonValue, usize),
        ToonError,
    >)
        requires
            i < self.lines@.len(),
            depth <= DEPTH_LIMIT,
        ensures
            r matches Ok((v, ni)) ==> wf_value(v.m()) && i < ni <= self.lines@.len(),
            r matches Err(e) ==> parse_kind(e),
            match r {
                Result::Ok((v, ni)) => sp_parse_rest(
                    plines_m(self.lines@),
                    rest_m(rest),
                    i as int,
                    depth as int,
                    self.strict,
                    self.expand,
                ) == Result::<(crate::value::ValueModel, int), ErrModel>::Ok((v.m(), ni as int)),
                Result::Err(e) => sp_parse_rest(
                    plines_m(self.lines@),
                    rest_m(rest),
                    i as int,
                    depth as int,
                    self.strict,
                    self.expand,
                ) == Result::<(crate::value::ValueModel, int), ErrModel>::Err(err_m(e)),
            },
        decreases self.lines@.len() - i, 2int, 0int,
    {
        let ll: usize = self.lines.len();
        let ghost lm = plines_m(self.lines@);
        let no = self.lines[i].no;
        proof {
            assert(lm[i as int].no == no as int);
        }
        match rest {
            Rest::Token(tok) => {
                match scan_value_token(&tok, no) {
                    Result::Ok(v) => Ok((v, i + 1)),
                    Result::Err(e) => Err(e),
                }
            },
            Rest::Nested => {
                if depth >= DEPTH_LIMIT {
                    let e = make_error(ErrorKind::Indent, no, 1, "nesting too deep");
                    proof {
                        assert(err_m(e) =~= ErrModel {
                            kind: ErrorKind::Indent,
                            line: no as int,
                            col: 1,
                            msg: "nesting too deep"@,
                        });
                    }
                    return Err(e);
                }
                let (es, ni) = match self.parse_block_object(i + 1, depth + 1) {
                    Result::Ok(x) => x,
                    Result::Err(e) => {
                        return Err(e);
                    },
                };
                let entries = match finalize_object(es, self.expand, no) {
                    Result::Ok(x) => x,
                    Result::Err(e) => {
                        return Err(e);
                    },
                };
                proof {
                    lemma_wf_from_entries(entries@);
                }
                Ok((JsonValue::Object(entries), ni))
            },
            Rest::Header(h) => {
                let ghost hm = header_m(h);
                let r = self.parse_array(h, i, depth);
                proof {
                    assert(sp_parse_rest(
                        lm,
                        RestModel::Header(hm),
                        i as int,
                        depth as int,
                        self.strict,
                        self.expand,
                    ) == sp_parse_array(lm, hm, i as int, depth as int, self.strict, self.expand));
                }
                r
            },
        }
    }

    /// Reads an array whose header stands on line `i` at `depth`: inline
    /// cells, table rows, or dashed list items.
    #[verifier::loop_isolation(false)]
    fn parse_array(&self, h: HeaderInfo, i: usize, depth: usize) -> (r: Result<
        (JsonValue, usize),
        ToonError,
    >)
        requires
            i < self.lines@.len(),
            depth <= DEPTH_LIMIT,
        ensures
            r matches Ok((v, ni)) ==> wf_value(v.m()) && i < ni <= self.lines@.len(),
            r matches Err(e) ==> parse_kind(e),
            match r {
                Result::Ok((v, ni)) => sp_parse_array(
                    plines_m(self.lines@),
                    header_m(h),
                    i as int,
                    depth as int,
                    self.strict,
                    self.expand,
                ) == Result::<(crate::value::ValueModel, int), ErrModel>::Ok((v.m(), ni as int)),
                Result::Err(e) => sp_parse_array(
                    plines_m(self.lines@),
                    header_m(h),
                    i as int,
                    depth as int,
                    self.strict,
                    self.expand,
                ) == Result::<(crate::value::ValueModel, int), ErrModel>::Err(err_m(e)),
            },
        decreases self.lines@.len() - i, 1int, 0int,
    {
        let ll: usize = self.lines.len();
        let ghost lm = plines_m(self.lines@);
        let ghost hm = header_m(h);
        let no = self.lines[i].no;
        proof {
            assert(lm[i as int].no == no as int);
        }
        match h.cells_src {
            Option::Some(src) => {
                let ghost srcm = src@;
                let pieces = split_top(&src, h.delim);
                let ghost pv = crate::encode::views_of(pieces@);
                let mut items: Vec<JsonValue> = Vec::new();
                let mut p: usize = 0;
                proof {
                    assert(seq_m(items@) =~= Seq::<crate::value::ValueModel>::empty());
                    match sp_cells_values(pv, 0, no as int) {
                        Result::Ok(rest) => {
                            assert(seq_m(items@) + rest =~= rest);
                        },
                        Result::Err(_) => {},
                    }
                }
                while p < pieces.len()
                    invariant
                        p <= pieces@.len(),
                        forall|x: int| 0 <= x < items@.len() ==> wf_value(
                            (#[trigger] items@[x]).m(),
                        ),
                        match sp_cells_values(pv, p as int, no as int) {
                            Result::Ok(rest) => sp_cells_values(pv, 0, no as int) == Result::<
                                Seq<crate::value::ValueModel>,
                                ErrModel,
                            >::Ok(seq_m(items@) + rest),
                            Result::Err(e) => sp_cells_values(pv, 0, no as int) == Result::<
                                Seq<crate::value::ValueModel>,
                                ErrModel,
                            >::Err(e),
                        },
                    decreases pieces@.len() - p,
                {
                    let tok = trim_copy(&pieces[p]);
                    proof {
                        assert(pv[p as int] == pieces@[p as int]@);
                        assert(tok@ == crate::lexicon::trim(pv[p as int]));
                    }
                    let v = match scan_value_token(&tok, no) {
                        Result::Ok(v) => v,
                        Result::Err(e) => {
                            proof {
                                assert(sp_cells_values(pv, p as int, no as int) == Result::<
                                    Seq<crate::value::ValueModel>,
                                    ErrModel,
                                >::Err(err_m(e)));
                            }
                            return Err(e);
                        },
                    };
                    let ghost items0 = items@;
                    let ghost vm = v.m();
                    items.push(v);
                    proof {
                        crate::value::lemma_seq_m_push(items0, items@, vm);
                        match sp_cells_values(pv, p + 1, no as int) {
                            Result::Ok(rest) => {
                                assert(sp_cells_values(pv, p as int, no as int) == Result::<
                                    Seq<crate::value::ValueModel>,
                                    ErrModel,
                                >::Ok(seq![vm] + rest));
                                assert(seq_m(items0) + (seq![vm] + rest) =~= seq_m(items@) + rest);
                            },
                            Result::Err(_) => {},
                        }
                    }
                    p = p + 1;
                }
                proof {
                    assert(sp_cells_values(pv, pieces@.len() as int, no as int) == Result::<
                        Seq<crate::value::ValueModel>,
                        ErrModel,
                    >::Ok(Seq::empty()));
                    assert(seq_m(items@) + Seq::<crate::value::ValueModel>::empty() =~= seq_m(
                        items@,
                    ));
                    crate::value::lemma_seq_m(items@);
                }
                if items.len() != h.len {
                    let e = make_error(ErrorKind::Structure, no, 1, "array length mismatch");
                    proof {
                        assert(err_m(e) =~= ErrModel {
                            kind: ErrorKind::Structure,
                            line: no as int,
                            col: 1,
                            msg: "array length mismatch"@,
                        });
                    }
                    return Err(e);
                }
                proof {
                    lemma_wf_from_values(items@);
                }
                Ok((JsonValue::Array(items), i + 1))
            },
            Option::None => {
                match h.cols_src {
                    Option::Some(csrc) => {
                        let ghost csrcm = csrc@;
                        let r = self.parse_table(csrc, h.len, h.delim, i, depth);
                        proof {
                            assert(sp_parse_array(
                                lm,
                                hm,
                                i as int,
                                depth as int,
                                self.strict,
                                self.expand,
                            ) == sp_parse_table(
                                lm,
                                csrcm,
                                h.len as int,
                                h.delim,
                                i as int,
                                depth as int,
                                self.strict,
                                self.expand,
                            ));
                        }
                        r
                    },
                    Option::None => {
                        let r = self.parse_list(h.len, i, depth);
                        proof {
                            assert(sp_parse_array(
                                lm,
                                hm,
                                i as int,
                                depth as int,
                                self.strict,
                                self.expand,
                            ) == sp_parse_list(
                                lm,
                                h.len as int,
                                i as int,
                                depth as int,
                                self.strict,
                                self.expand,
                            ));
                        }
                        r
                    },
                }
            },
        }
    }

    /// Reads the rows of a table under its header.
    #[verifier::loop_isolation(false)]
    fn parse_table(&self, csrc: Vec<char>, len: usize, delim: char, i: usize, depth: usize) -> (r:
        Result<(JsonValue, usize), ToonError>)
        requires
            i < self.lines@.len(),
            depth <= DEPTH_LIMIT,
        ensures
            r matches Ok((v, ni)) ==> wf_value(v.m()) && i < ni <= self.lines@.len(),
            r matches Err(e) ==> parse_kind(e),
            match r {
                Result::Ok((v, ni)) => sp_parse_table(
                    plines_m(self.lines@),
                    csrc@,
                    len as int,
                    delim,
                    i as int,
                    depth as int,
                    self.strict,
                    self.expand,
                ) == Result::<(crate::value::ValueModel, int), ErrModel>::Ok((v.m(), ni as int)),
                Result::Err(e) => sp_parse_table(
                    plines_m(self.lines@),
                    csrc@,
                    len as int,
                    delim,
                    i as int,
                    depth as int,
                    self.strict,
                    self.expand,
                ) == Result::<(crate::value::ValueModel, int), ErrModel>::Err(err_m(e)),
            },
        decreases self.lines@.len() - i, 0int, 0int,
    {
        let ll: usize = self.lines.len();
        let ghost lm = plines_m(self.lines@);
        let no = self.lines[i].no;
        proof {
            assert(lm[i as int].no == no as int);
        }
        let colpieces = split_top(&csrc, delim);
        let ghost cpv = crate::encode::views_of(colpieces@);
        let mut cols: Vec<(Vec<char>, bool)> = Vec::new();
        let mut c: usize = 0;
        proof {
            assert(pairs_m(cols@) =~= Seq::<(Seq<char>, bool)>::empty());
            match sp_cols(cpv, 0, no as int) {
                Result::Ok(rest) => {
                    assert(pairs_m(cols@) + rest =~= rest);
                },
                Result::Err(_) => {},
            }
        }
        while c < colpieces.len()
            invariant
                c <= colpieces@.len(),
                match sp_cols(cpv, c as int, no as int) {
                    Result::Ok(rest) => sp_cols(cpv, 0, no as int) == Result::<
                        Seq<(Seq<char>, bool)>,
                        ErrModel,
                    >::Ok(pairs_m(cols@) + rest),
                    Result::Err(e) => sp_cols(cpv, 0, no as int) == Result::<
                        Seq<(Seq<char>, bool)>,
                        ErrModel,
                    >::Err(e),
                },
            decreases colpieces@.len() - c,
        {
            let t = trim_copy(&colpieces[c]);
            proof {
                assert(cpv[c as int] == colpieces@[c as int]@);
                assert(t@ == crate::lexicon::trim(cpv[c as int]));
            }
            if t.len() == 0 {
                let e = make_error(ErrorKind::Lexical, no, 1, "malformed array header");
                proof {
                    assert(err_m(e) =~= ErrModel {
                        kind: ErrorKind::Lexical,
                        line: no as int,
                        col: 1,
                        msg: "malformed array header"@,
                    });
                    assert(sp_cols(cpv, c as int, no as int) == Result::<
                        Seq<(Seq<char>, bool)>,
                        ErrModel,
                    >::Err(err_m(e)));
                }
                return Err(e);
            }
            if t[0] == '"' {
                match crate::lexicon::scan_quoted(&t, 1) {
                    Option::Some((content, k)) => {
                        if k != t.len() {
                            let e = make_error(ErrorKind::Lexical, no, 1, "bad column name");
                            proof {
                                assert(err_m(e) =~= ErrModel {
                                    kind: ErrorKind::Lexical,
                                    line: no as int,
                                    col: 1,
                                    msg: "bad column name"@,
                                });
                                assert(sp_cols(cpv, c as int, no as int) == Result::<
                                    Seq<(Seq<char>, bool)>,
                                    ErrModel,
                                >::Err(err_m(e)));
                            }
                            return Err(e);
                        }
                        let ghost cols0 = cols@;
                        let ghost cm = content@;
                        cols.push((content, true));
                        proof {
                            lemma_pairs_m_push(cols0, cols@, cm, true);
                            match sp_cols(cpv, c + 1, no as int) {
                                Result::Ok(rest) => {
                                    assert(sp_cols(cpv, c as int, no as int) == Result::<
                                        Seq<(Seq<char>, bool)>,
                                        ErrModel,
                                    >::Ok(seq![(cm, true)] + rest));
                                    assert(pairs_m(cols0) + (seq![(cm, true)] + rest) =~= pairs_m(
                                        cols@,
                                    ) + rest);
                                },
                                Result::Err(_) => {},
                            }
                        }
                    },
                    Option::None => {
                        let e = make_error(ErrorKind::Lexical, no, 1, "bad column name");
                        proof {
                            assert(err_m(e) =~= ErrModel {
                                kind: ErrorKind::Lexical,
                                line: no as int,
                                col: 1,
                                msg: "bad column name"@,
                            });
                            assert(sp_cols(cpv, c as int, no as int) == Result::<
                                Seq<(Seq<char>, bool)>,
                                ErrModel,
                            >::Err(err_m(e)));
                        }
                        return Err(e);
                    },
                }
            } else {
                let ghost cols0 = cols@;
                let ghost tm = t@;
                cols.push((t, false));
                proof {
                    lemma_pairs_m_push(cols0, cols@, tm, false);
                    match sp_cols(cpv, c + 1, no as int) {
                        Result::Ok(rest) => {
                            assert(sp_cols(cpv, c as int, no as int) == Result::<
                                Seq<(Seq<char>, bool)>,
                                ErrModel,
                            >::Ok(seq![(tm, false)] + rest));
                            assert(pairs_m(cols0) + (seq![(tm, false)] + rest) =~= pairs_m(cols@)
                                + rest);
                        },
                        Result::Err(_) => {},
                    }
                }
            }
            c = c + 1;
        }
        proof {
            assert(sp_cols(cpv, colpieces@.len() as int, no as int) == Result::<
                Seq<(Seq<char>, bool)>,
                ErrModel,
            >::Ok(Seq::empty()));
            assert(pairs_m(cols@) + Seq::<(Seq<char>, bool)>::empty() =~= pairs_m(cols@));
        }
        let ghost colsm = pairs_m(cols@);
        let mut items: Vec<JsonValue> = Vec::new();
        let mut j: usize = i + 1;
        let mut row: usize = 0;
        proof {
            assert(seq_m(items@) =~= Seq::<crate::value::ValueModel>::empty());
            match sp_rows(
                lm,
                colsm,
                delim,
                i + 1,
                depth as int,
                len as int,
                self.strict,
                self.expand,
                no as int,
            ) {
                Result::Ok((rest, end)) => {
                    assert(seq_m(items@) + rest =~= rest);
                },
                Result::Err(_) => {},
            }
        }
        while row < len
            invariant
                i < j <= self.lines@.len(),
                row <= len,
                forall|x: int| 0 <= x < items@.len() ==> wf_value((#[trigger] items@[x]).m()),
                match sp_rows(
                    lm,
                    colsm,
                    delim,
                    j as int,
                    depth as int,
                    len - row,
                    self.strict,
                    self.expand,
                    no as int,
                ) {
                    Result::Ok((rest, end)) => sp_rows(
                        lm,
                        colsm,
                        delim,
                        i + 1,
                        depth as int,
                        len as int,
                        self.strict,
                        self.expand,
                        no as int,
                    ) == Result::<(Seq<crate::value::ValueModel>, int), ErrModel>::Ok(
                        (seq_m(items@) + rest, end),
                    ),
                    Result::Err(e) => sp_rows(
                        lm,
                        colsm,
                        delim,
                        i + 1,
                        depth as int,
                        len as int,
                        self.strict,
                        self.expand,
                        no as int,
                    ) == Result::<(Seq<crate::value::ValueModel>, int), ErrModel>::Err(e),
                },
            decreases len - row,
        {
            let ghost sp_r = sp_rows(
                lm,
                colsm,
                delim,
                j as int,
                depth as int,
                len - row,
                self.strict,
                self.expand,
                no as int,
            );
            if j >= self.lines.len() {
                let e = make_error(ErrorKind::Structure, no, 1, "array row count mismatch");
                proof {
                    assert(err_m(e) =~= ErrModel {
                        kind: ErrorKind::Structure,
                        line: no as int,
                        col: 1,
                        msg: "array row count mismatch"@,
                    });
                    assert(sp_r == Result::<(Seq<crate::value::ValueModel>, int), ErrModel>::Err(
                        err_m(e),
                    ));
                }
                return Err(e);
            }
            let pl_depth = self.lines[j].depth;
            let pl_no = self.lines[j].no;
            proof {
                assert(lm[j as int].depth == pl_depth as int && lm[j as int].no == pl_no as int
                    && lm[j as int].text == self.lines@[j as int].text@);
            }
            if pl_depth <= depth {
                let e = make_error(ErrorKind::Structure, no, 1, "array row count mismatch");
                proof {
                    assert(err_m(e) =~= ErrModel {
                        kind: ErrorKind::Structure,
                        line: no as int,
                        col: 1,
                        msg: "array row count mismatch"@,
                    });
                    assert(sp_r == Result::<(Seq<crate::value::ValueModel>, int), ErrModel>::Err(
                        err_m(e),
                    ));
                }
                return Err(e);
            }
            if pl_depth > depth + 1 && self.strict {
                let e = make_error(ErrorKind::Indent, pl_no, 1, "unexpected indent");
                proof {
                    assert(err_m(e) =~= ErrModel {
                        kind: ErrorKind::Indent,
                        line: pl_no as int,
                        col: 1,
                        msg: "unexpected indent"@,
                    });
                    assert(sp_r == Result::<(Seq<crate::value::ValueModel>, int), ErrModel>::Err(
                        err_m(e),
                    ));
                }
                return Err(e);
            }
            let cells = split_top(&self.lines[j].text, delim);
            let ghost cellsv = crate::encode::views_of(cells@);
            if cells.len() != cols.len() {
                let e = make_error(ErrorKind::Structure, pl_no, 1, "column count mismatch");
                proof {
                    assert(err_m(e) =~= ErrModel {
                        kind: ErrorKind::Structure,
                        line: pl_no as int,
                        col: 1,
                        msg: "column count mismatch"@,
                    });
                    assert(sp_r == Result::<(Seq<crate::value::ValueModel>, int), ErrModel>::Err(
                        err_m(e),
                    ));
                }
                return Err(e);
            }
            let mut es: Vec<(Vec<char>, bool, JsonValue)> = Vec::new();
            let mut c2: usize = 0;
            proof {
                assert(triples_m(es@) =~= Seq::<
                    (Seq<char>, bool, crate::value::ValueModel),
                >::empty());
                match sp_row_entries(cellsv, colsm, 0, pl_no as int) {
                    Result::Ok(rest) => {
                        assert(triples_m(es@) + rest =~= rest);
                    },
                    Result::Err(_) => {},
                }
            }
            while c2 < cells.len()
                invariant
                    c2 <= cells@.len(),
                    cells@.len() == cols@.len(),
                    wf_triples(es@),
                    match sp_row_entries(cellsv, colsm, c2 as int, pl_no as int) {
                        Result::Ok(rest) => sp_row_entries(cellsv, colsm, 0, pl_no as int)
                            == Result::<
                            Seq<(Seq<char>, bool, crate::value::ValueModel)>,
                            ErrModel,
                        >::Ok(triples_m(es@) + rest),
                        Result::Err(e) => sp_row_entries(cellsv, colsm, 0, pl_no as int)
                            == Result::<
                            Seq<(Seq<char>, bool, crate::value::ValueModel)>,
                            ErrModel,
                        >::Err(e),
                    },
                decreases cells@.len() - c2,
            {
                let tok = trim_copy(&cells[c2]);
                proof {
                    assert(cellsv[c2 as int] == cells@[c2 as int]@);
                    assert(tok@ == crate::lexicon::trim(cellsv[c2 as int]));
                }
                let v = match scan_value_token(&tok, pl_no) {
                    Result::Ok(v) => v,
                    Result::Err(e) => {
                        proof {
                            assert(sp_row_entries(cellsv, colsm, c2 as int, pl_no as int)
                                == Result::<
                                Seq<(Seq<char>, bool, crate::value::ValueModel)>,
                                ErrModel,
                            >::Err(err_m(e)));
                        }
                        return Err(e);
                    },
                };
                let key = crate::chars::copy_range(&cols[c2].0, 0, cols[c2].0.len());
                proof {
                    assert(key@ =~= cols@[c2 as int].0@);
                    assert(colsm[c2 as int] == (cols@[c2 as int].0@, cols@[c2 as int].1));
                }
                let ghost es0 = es@;
                let ghost vm = v.m();
                es.push((key, cols[c2].1, v));
                proof {
                    lemma_triples_m_push(es0, es@, colsm[c2 as int].0, colsm[c2 as int].1, vm);
                    assert(wf_triples(es@));
                    match sp_row_entries(cellsv, colsm, c2 + 1, pl_no as int) {
                        Result::Ok(rest) => {
                            assert(sp_row_entries(cellsv, colsm, c2 as int, pl_no as int)
                                == Result::<
                                Seq<(Seq<char>, bool, crate::value::ValueModel)>,
                                ErrModel,
                            >::Ok(
                                seq![(colsm[c2 as int].0, colsm[c2 as int].1, vm)] + rest,
                            ));
                            assert(triples_m(es0) + (seq![
                                (colsm[c2 as int].0, colsm[c2 as int].1, vm),
                            ] + rest) =~= triples_m(es@) + rest);
                        },
                        Result::Err(_) => {},
                    }
                }
                c2 = c2 + 1;
            }
            proof {
                assert(sp_row_entries(cellsv, colsm, cells@.len() as int, pl_no as int)
                    == Result::<
                    Seq<(Seq<char>, bool, crate::value::ValueModel)>,
                    ErrModel,
                >::Ok(Seq::empty()));
                assert(triples_m(es@) + Seq::<
                    (Seq<char>, bool, crate::value::ValueModel),
                >::empty() =~= triples_m(es@));
            }
            let ghost esm = triples_m(es@);
            let entries = match finalize_object(es, self.expand, pl_no) {
                Result::Ok(x) => x,
                Result::Err(e) => {
                    proof {
                        assert(sp_r == Result::<
                            (Seq<crate::value::ValueModel>, int),
                            ErrModel,
                        >::Err(err_m(e)));
                    }
                    return Err(e);
                },
            };
            proof {
                lemma_wf_from_entries(entries@);
            }
            let ghost items0 = items@;
            let ghost em = entries_m(entries@);
            items.push(JsonValue::Object(entries));
            proof {
                crate::value::lemma_seq_m_push(items0, items@, crate::value::ValueModel::Obj(em));
                match sp_rows(
                    lm,
                    colsm,
                    delim,
                    j + 1,
                    depth as int,
                    len - row - 1,
                    self.strict,
                    self.expand,
                    no as int,
                ) {
                    Result::Ok((rest, end)) => {
                        assert(sp_r == Result::<
                            (Seq<crate::value::ValueModel>, int),
                            ErrModel,
                        >::Ok((seq![crate::value::ValueModel::Obj(em)] + rest, end)));
                        assert(seq_m(items0) + (seq![crate::value::ValueModel::Obj(em)] + rest)
                            =~= seq_m(items@) + rest);
                    },
                    Result::Err(_) => {},
                }
            }
            j = j + 1;
            row = row + 1;
        }
        proof {
            assert(sp_rows(
                lm,
                colsm,
                delim,
                j as int,
                depth as int,
                0,
                self.strict,
                self.expand,
                no as int,
            ) == Result::<(Seq<crate::value::ValueModel>, int), ErrModel>::Ok(
                (Seq::empty(), j as int),
            ));
            assert(seq_m(items@) + Seq::<crate::value::ValueModel>::empty() =~= seq_m(items@));
            lemma_wf_from_values(items@);
        }
        Ok((JsonValue::Array(items), j))
    }

    /// Reads one dashed object element that begins with a keyed entry on
    /// the dash line: the first entry's value, then the element's further
    /// entries one level in, folded into one object.
    #[verifier::loop_isolation(false)]
    #[verifier::rlimit(100)]
    #[verifier::spinoff_prover]
    fn parse_list_entry(
        &self,
        k: Vec<char>,
        wq: bool,
        erest: Rest,
        j: usize,
        depth: usize,
        pl_no: usize,
    ) -> (r: Result<(JsonValue, usize), ToonError>)
        requires
            j < self.lines@.len(),
            depth + 2 <= DEPTH_LIMIT,
        ensures
            r matches Ok((v, ni)) ==> wf_value(v.m()) && j < ni <= self.lines@.len(),
            r matches Err(e) ==> parse_kind(e),
            match r {
                Result::Ok((v, ni)) => sp_list_entry(
                    plines_m(self.lines@),
                    k@,
                    wq,
                    rest_m(erest),
                    j as int,
                    depth as int,
                    self.strict,
                    self.expand,
                    pl_no as int,
                ) == Result::<(crate::value::ValueModel, int), ErrModel>::Ok((v.m(), ni as int)),
                Result::Err(e) => sp_list_entry(
                    plines_m(self.lines@),
                    k@,
                    wq,
                    rest_m(erest),
                    j as int,
                    depth as int,
                    self.strict,
                    self.expand,
                    pl_no as int,
                ) == Result::<(crate::value::ValueModel, int), ErrModel>::Err(err_m(e)),
            },
        decreases self.lines@.len() - j, 3int, 0int,
    {
        let ll: usize = self.lines.len();
        let ghost lm = plines_m(self.lines@);
        let ghost km = k@;
        let ghost erm = rest_m(erest);
        let (v0, nj) = match self.parse_rest_value(erest, j, depth + 2) {
            Result::Ok(x) => x,
            Result::Err(e) => {
                return Err(e);
            },
        };
        let ghost v0m = v0.m();
        let (es2, nj2) = match self.parse_block_object(nj, depth + 2) {
            Result::Ok(x) => x,
            Result::Err(e) => {
                return Err(e);
            },
        };
        let ghost es2g = es2@;
        let mut es = es2;
        es.insert(0, (k, wq, v0));
        proof {
            assert forall|x: int| 0 <= x < es@.len() implies triples_m(es@)[x] == (seq![
                (km, wq, v0m),
            ] + triples_m(es2g))[x] by {
                if x > 0 {
                    assert(es@[x] == es2g[x - 1]);
                }
            }
            assert(triples_m(es@) =~= seq![(km, wq, v0m)] + triples_m(es2g));
            assert forall|x: int| 0 <= x < es@.len() implies wf_value(
                (#[trigger] es@[x]).2.m(),
            ) by {
                if x > 0 {
                    assert(es@[x] == es2g[x - 1]);
                }
            }
        }
        let entries = match finalize_object(es, self.expand, pl_no) {
            Result::Ok(x) => x,
            Result::Err(e) => {
                return Err(e);
            },
        };
        proof {
            lemma_wf_from_entries(entries@);
        }
        Ok((JsonValue::Object(entries), nj2))
    }

    /// Reads one dashed list item at line `j`: its prelude checks, then
    /// the item by the shape of what follows the dash.
    #[verifier::loop_isolation(false)]
    #[verifier::rlimit(100)]
    #[verifier::spinoff_prover]
    fn parse_list_item(&self, j: usize, depth: usize, no: usize, Ghost(rem): Ghost<int>) -> (r:
        Result<(JsonValue, usize), ToonError>)
        requires
            j < self.lines@.len(),
            depth <= DEPTH_LIMIT,
            rem > 0,
        ensures
            r matches Ok((v, nj)) ==> wf_value(v.m()) && j < nj <= self.lines@.len(),
            r matches Err(e) ==> parse_kind(e),
            match r {
                Result::Ok((v, nj)) => sp_list_items(
                    plines_m(self.lines@),
                    j as int,
                    depth as int,
                    rem,
                    self.strict,
                    self.expand,
                    no as int,
                ) == (match sp_list_items(
                    plines_m(self.lines@),
                    nj as int,
                    depth as int,
                    rem - 1,
                    self.strict,
                    self.expand,
                    no as int,
                ) {
                    Result::Ok((more, end)) => Result::<
                        (Seq<crate::value::ValueModel>, int),
                        ErrModel,
                    >::Ok((seq![v.m()] + more, end)),
                    Result::Err(e2) => Result::<
                        (Seq<crate::value::ValueModel>, int),
                        ErrModel,
                    >::Err(e2),
                }),
                Result::Err(e) => sp_list_items(
                    plines_m(self.lines@),
                    j as int,
                    depth as int,
                    rem,
                    self.strict,
                    self.expand,
                    no as int,
                ) == Result::<(Seq<crate::value::ValueModel>, int), ErrModel>::Err(err_m(e)),
            },
        decreases self.lines@.len() - j, 4int, 0int,
    {
        let ll: usize = self.lines.len();
        let ghost lm = plines_m(self.lines@);
        let ghost sp_l = sp_list_items(
            lm,
            j as int,
            depth as int,
            rem,
            self.strict,
            self.expand,
            no as int,
        );
        let pl_depth = self.lines[j].depth;
        let pl_no = self.lines[j].no;
        proof {
            assert(lm[j as int].depth == pl_depth as int && lm[j as int].no == pl_no as int
                && lm[j as int].text == self.lines@[j as int].text@);
        }
        if pl_depth <= depth {
            let e = make_error(ErrorKind::Structure, no, 1, "array item count mismatch");
            proof {
                assert(err_m(e) =~= ErrModel {
                    kind: ErrorKind::Structure,
                    line: no as int,
                    col: 1,
                    msg: "array item count mismatch"@,
                });
                assert(sp_l == Result::<(Seq<crate::value::ValueModel>, int), ErrModel>::Err(
                    err_m(e),
                ));
            }
            return Err(e);
        }
        if pl_depth > depth + 1 && self.strict {
            let e = make_error(ErrorKind::Indent, pl_no, 1, "unexpected indent");
            proof {
                assert(err_m(e) =~= ErrModel {
                    kind: ErrorKind::Indent,
                    line: pl_no as int,
                    col: 1,
                    msg: "unexpected indent"@,
                });
                assert(sp_l == Result::<(Seq<crate::value::ValueModel>, int), ErrModel>::Err(
                    err_m(e),
                ));
            }
            return Err(e);
        }
        let text: &Vec<char> = &self.lines[j].text;
        if !(text.len() >= 1 && text[0] == '-') {
            let e = make_error(ErrorKind::Structure, pl_no, 1, "expected a list item");
            proof {
                assert(err_m(e) =~= ErrModel {
                    kind: ErrorKind::Structure,
                    line: pl_no as int,
                    col: 1,
                    msg: "expected a list item"@,
                });
                assert(sp_l == Result::<(Seq<crate::value::ValueModel>, int), ErrModel>::Err(
                    err_m(e),
                ));
            }
            return Err(e);
        }
        if text.len() >= 2 && text[1] != ' ' {
            let e = make_error(ErrorKind::Structure, pl_no, 1, "expected a list item");
            proof {
                assert(err_m(e) =~= ErrModel {
                    kind: ErrorKind::Structure,
                    line: pl_no as int,
                    col: 1,
                    msg: "expected a list item"@,
                });
                assert(sp_l == Result::<(Seq<crate::value::ValueModel>, int), ErrModel>::Err(
                    err_m(e),
                ));
            }
            return Err(e);
        }
        let start: usize = if text.len() >= 2 {
            2
        } else {
            1
        };
        let rest_sub = crate::chars::copy_range(text, start, text.len());
        let rest = trim_copy(&rest_sub);
        proof {
            assert(rest_sub@ == lm[j as int].text.subrange(
                start as int,
                lm[j as int].text.len() as int,
            ));
            assert(rest@ == crate::lexicon::trim(
                lm[j as int].text.subrange(start as int, lm[j as int].text.len() as int),
            ));
        }
        if rest.len() == 0 {
            let e = make_error(ErrorKind::Lexical, pl_no, 1, "empty list item");
            proof {
                assert(err_m(e) =~= ErrModel {
                    kind: ErrorKind::Lexical,
                    line: pl_no as int,
                    col: 1,
                    msg: "empty list item"@,
                });
                assert(sp_l == Result::<(Seq<crate::value::ValueModel>, int), ErrModel>::Err(
                    err_m(e),
                ));
            }
            return Err(e);
        }
        if depth + 2 >= DEPTH_LIMIT {
            let e = make_error(ErrorKind::Indent, pl_no, 1, "nesting too deep");
            proof {
                assert(err_m(e) =~= ErrModel {
                    kind: ErrorKind::Indent,
                    line: pl_no as int,
                    col: 1,
                    msg: "nesting too deep"@,
                });
                assert(sp_l == Result::<(Seq<crate::value::ValueModel>, int), ErrModel>::Err(
                    err_m(e),
                ));
            }
            return Err(e);
        }
        let sh = match scan_shape(&rest, pl_no) {
            Result::Ok(sh) => sh,
            Result::Err(e) => {
                proof {
                    assert(sp_l == Result::<
                        (Seq<crate::value::ValueModel>, int),
                        ErrModel,
                    >::Err(err_m(e)));
                }
                return Err(e);
            },
        };
        match sh {
            Shape::Bare(tok) => {
                let v = match scan_value_token(&tok, pl_no) {
                    Result::Ok(v) => v,
                    Result::Err(e) => {
                        proof {
                            assert(sp_l == Result::<
                                (Seq<crate::value::ValueModel>, int),
                                ErrModel,
                            >::Err(err_m(e)));
                        }
                        return Err(e);
                    },
                };
                proof {
                    match sp_list_items(
                        lm,
                        j + 1,
                        depth as int,
                        rem - 1,
                        self.strict,
                        self.expand,
                        no as int,
                    ) {
                        Result::Ok((more, end)) => {
                            assert(sp_l == Result::<
                                (Seq<crate::value::ValueModel>, int),
                                ErrModel,
                            >::Ok((seq![v.m()] + more, end)));
                        },
                        Result::Err(e2) => {
                            assert(sp_l == Result::<
                                (Seq<crate::value::ValueModel>, int),
                                ErrModel,
                            >::Err(e2));
                        },
                    }
                }
                Ok((v, j + 1))
            },
            Shape::Entry(k, wq, erest) => {
                let ghost km = k@;
                let ghost erm = rest_m(erest);
                let (v, nj2) = match self.parse_list_entry(k, wq, erest, j, depth, pl_no) {
                    Result::Ok(x) => x,
                    Result::Err(e) => {
                        proof {
                            assert(sp_l == Result::<
                                (Seq<crate::value::ValueModel>, int),
                                ErrModel,
                            >::Err(err_m(e)));
                        }
                        return Err(e);
                    },
                };
                proof {
                    match sp_list_items(
                        lm,
                        nj2 as int,
                        depth as int,
                        rem - 1,
                        self.strict,
                        self.expand,
                        no as int,
                    ) {
                        Result::Ok((more, end)) => {
                            assert(sp_l == Result::<
                                (Seq<crate::value::ValueModel>, int),
                                ErrModel,
                            >::Ok((seq![v.m()] + more, end)));
                        },
                        Result::Err(e2) => {
                            assert(sp_l == Result::<
                                (Seq<crate::value::ValueModel>, int),
                                ErrModel,
                            >::Err(e2));
                        },
                    }
                }
                Ok((v, nj2))
            },
            Shape::Header(h2) => {
                let ghost h2m = header_m(h2);
                let (v, nj) = match self.parse_array(h2, j, depth + 2) {
                    Result::Ok(x) => x,
                    Result::Err(e) => {
                        proof {
                            assert(sp_l == Result::<
                                (Seq<crate::value::ValueModel>, int),
                                ErrModel,
                            >::Err(err_m(e)));
                        }
                        return Err(e);
                    },
                };
                proof {
                    match sp_list_items(
                        lm,
                        nj as int,
                        depth as int,
                        rem - 1,
                        self.strict,
                        self.expand,
                        no as int,
                    ) {
                        Result::Ok((more, end)) => {
                            assert(sp_l == Result::<
                                (Seq<crate::value::ValueModel>, int),
                                ErrModel,
                            >::Ok((seq![v.m()] + more, end)));
                        },
                        Result::Err(e2) => {
                            assert(sp_l == Result::<
                                (Seq<crate::value::ValueModel>, int),
                                ErrModel,
                            >::Err(e2));
                        },
                    }
                }
                Ok((v, nj))
            },
        }
    }

    /// Reads the dashed items of a list-form array under its header.
    #[verifier::loop_isolation(false)]
    #[verifier::rlimit(100)]
    #[verifier::spinoff_prover]
    fn parse_list(&self, len: usize, i: usize, depth: usize) -> (r: Result<
        (JsonValue, usize),
        ToonError,
    >)
        requires
            i < self.lines@.len(),
            depth <= DEPTH_LIMIT,
        ensures
            r matches Ok((v, ni)) ==> wf_value(v.m()) && i < ni <= self.lines@.len(),
            r matches Err(e) ==> parse_kind(e),
            match r {
                Result::Ok((v, ni)) => sp_parse_list(
                    plines_m(self.lines@),
                    len as int,
                    i as int,
                    depth as int,
                    self.strict,
                    self.expand,
                ) == Result::<(crate::value::ValueModel, int), ErrModel>::Ok((v.m(), ni as int)),
                Result::Err(e) => sp_parse_list(
                    plines_m(self.lines@),
                    len as int,
                    i as int,
                    depth as int,
                    self.strict,
                    self.expand,
                ) == Result::<(crate::value::ValueModel, int), ErrModel>::Err(err_m(e)),
            },
        decreases self.lines@.len() - i, 0int, 0int,
    {
        let ll: usize = self.lines.len();
        let ghost lm = plines_m(self.lines@);
        let no = self.lines[i].no;
        proof {
            assert(lm[i as int].no == no as int);
        }
        let mut items: Vec<JsonValue> = Vec::new();
        let mut j: usize = i + 1;
        let mut cnt: usize = 0;
        proof {
            assert(seq_m(items@) =~= Seq::<crate::value::ValueModel>::empty());
            match sp_list_items(
                lm,
                i + 1,
                depth as int,
                len as int,
                self.strict,
                self.expand,
                no as int,
            ) {
                Result::Ok((rest, end)) => {
                    assert(seq_m(items@) + rest =~= rest);
                },
                Result::Err(_) => {},
            }
        }
        while cnt < len
            invariant
                i < j <= self.lines@.len(),
                cnt <= len,
                forall|x: int| 0 <= x < items@.len() ==> wf_value((#[trigger] items@[x]).m()),
                match sp_list_items(
                    lm,
                    j as int,
                    depth as int,
                    len - cnt,
                    self.strict,
                    self.expand,
                    no as int,
                ) {
                    Result::Ok((rest, end)) => sp_list_items(
                        lm,
                        i + 1,
                        depth as int,
                        len as int,
                        self.strict,
                        self.expand,
                        no as int,
                    ) == Result::<(Seq<crate::value::ValueModel>, int), ErrModel>::Ok(
                        (seq_m(items@) + rest, end),
                    ),
                    Result::Err(e) => sp_list_items(
                        lm,
                        i + 1,
                        depth as int,
                        len as int,
                        self.strict,
                        self.expand,
                        no as int,
                    ) == Result::<(Seq<crate::value::ValueModel>, int), ErrModel>::Err(e),
                },
            decreases len - cnt,
        {
            let ghost sp_l = sp_list_items(
                lm,
                j as int,
                depth as int,
                len - cnt,
                self.strict,
                self.expand,
                no as int,
            );
            if j >= self.lines.len() {
                let e = make_error(ErrorKind::Structure, no, 1, "array item count mismatch");
                proof {
                    assert(err_m(e) =~= ErrModel {
                        kind: ErrorKind::Structure,
                        line: no as int,
                        col: 1,
                        msg: "array item count mismatch"@,
                    });
                    assert(sp_l == Result::<(Seq<crate::value::ValueModel>, int), ErrModel>::Err(
                        err_m(e),
                    ));
                }
                return Err(e);
            }
            let (v, nj) = match self.parse_list_item(j, depth, no, Ghost((len - cnt) as int)) {
                Result::Ok(x) => x,
                Result::Err(e) => {
                    proof {
                        assert(sp_l == Result::<
                            (Seq<crate::value::ValueModel>, int),
                            ErrModel,
                        >::Err(err_m(e)));
                    }
                    return Err(e);
                },
            };
            let ghost items0 = items@;
            let ghost vm = v.m();
            items.push(v);
            proof {
                crate::value::lemma_seq_m_push(items0, items@, vm);
                match sp_list_items(
                    lm,
                    nj as int,
                    depth as int,
                    len - cnt - 1,
                    self.strict,
                    self.expand,
                    no as int,
                ) {
                    Result::Ok((rest2, end)) => {
                        assert(sp_l == Result::<
                            (Seq<crate::value::ValueModel>, int),
                            ErrModel,
                        >::Ok((seq![vm] + rest2, end)));
                        assert(seq_m(items0) + (seq![vm] + rest2) =~= seq_m(items@) + rest2);
                    },
                    Result::Err(_) => {},
                }
            }
            j = nj;
            cnt = cnt + 1;
        }
        proof {
            assert(sp_list_items(
                lm,
                j as int,
                depth as int,
                0,
                self.strict,
                self.expand,
                no as int,
            ) == Result::<(Seq<crate::value::ValueModel>, int), ErrModel>::Ok(
                (Seq::empty(), j as int),
            ));
            assert(seq_m(items@) + Seq::<crate::value::ValueModel>::empty() =~= seq_m(items@));
            lemma_wf_from_values(items@);
        }
        Ok((JsonValue::Array(items), j))
    }
}

// --- the public surface ---

/// What `try_decode` yields: the whole decode pipeline over the
/// mathematical forms.  A zero indent is rejected; the text is split into
/// lines and prepared; the first line's shape picks a bare root token, a
/// root object block, or a root array, and trailing lines are an error.
pub open spec fn sp_decode(text: Seq<char>, n: int, strict: bool, expand: bool) -> Result<
    crate::value::ValueModel,
    ErrModel,
> {
    if n == 0 {
        Err(
            ErrModel {
                kind: ErrorKind::InvalidOption,
                line: 1,
                col: 1,
                msg: "indent must be at least 1"@,
            },
        )
    } else {
        match sp_prep(split_lines(text), n, strict) {
            Result::Err(e) => Err(e),
            Result::Ok(lm) => if lm.len() == 0 {
                Err(ErrModel { kind: ErrorKind::Structure, line: 1, col: 1, msg: "empty input"@ })
            } else {
                match sp_scan_shape(lm[0].text, lm[0].no) {
                    Result::Err(e) => Err(e),
                    Result::Ok(ShapeModel::Bare(tok)) => match sp_scan_value(tok, lm[0].no) {
                        Result::Err(e) => Err(e),
                        Result::Ok(v) => if lm.len() > 1 {
                            Err(
                                ErrModel {
                                    kind: ErrorKind::Structure,
                                    line: lm[1].no,
                                    col: 1,
                                    msg: "text after the root value"@,
                                },
                            )
                        } else {
                            Ok(v)
                        },
                    },
                    Result::Ok(ShapeModel::Entry(_, _, _)) => match sp_parse_block(
                        lm,
                        0,
                        0,
                        strict,
                        expand,
                    ) {
                        Result::Err(e) => Err(e),
                        Result::Ok((es, ni)) => if ni < lm.len() {
                            Err(
                                ErrModel {
                                    kind: ErrorKind::Structure,
                                    line: lm[ni].no,
                                    col: 1,
                                    msg: "text after the root value"@,
                                },
                            )
                        } else {
                            match sp_finalize(es, expand, lm[0].no) {
                                Result::Err(e) => Err(e),
                                Result::Ok(entries) => Ok(crate::value::ValueModel::Obj(entries)),
                            }
                        },
                    },
                    Result::Ok(ShapeModel::Header(h)) => match sp_parse_array(
                        lm,
                        h,
                        0,
                        0,
                        strict,
                        expand,
                    ) {
                        Result::Err(e) => Err(e),
                        Result::Ok((v, ni)) => if ni < lm.len() {
                            Err(
                                ErrModel {
                                    kind: ErrorKind::Structure,
                                    line: lm[ni].no,
                                    col: 1,
                                    msg: "text after the root value"@,
                                },
                            )
                        } else {
                            Ok(v)
                        },
                    },
                }
            },
        }
    }
}

/// Decodes TOON text, surfacing the first error.
///
/// The contract pins the whole function: the result — the value on
/// success, and the error's kind, 1-based line and column and cause on
/// failure — equals `sp_decode` of the text under the effective options.
/// Stated besides: a zero `indent` option is rejected as `InvalidOption`
/// and nothing else is; under strict validation any text with a tab in
/// some line's leading whitespace fails with an `Indent` error; a decoded
/// value is well formed — every number it carries matches the number
/// grammar; and bare root tokens decode to their scalar or empty
/// container.
#[verifier::rlimit(100)]
#[verifier::spinoff_prover]
pub fn try_decode(text: &str, options: Option<DecodeOptions>) -> (r: Result<JsonValue, ToonError>)
    ensures
        match r {
            Result::Ok(v) => sp_decode(
                text@,
                crate::options::dec_indent(options),
                crate::options::dec_strict(options),
                crate::options::dec_expand(options),
            ) == Result::<crate::value::ValueModel, ErrModel>::Ok(v.m()),
            Result::Err(e) => sp_decode(
                text@,
                crate::options::dec_indent(options),
                crate::options::dec_strict(options),
                crate::options::dec_expand(options),
            ) == Result::<crate::value::ValueModel, ErrModel>::Err(err_m(e)),
        },
        (r matches Err(e) && e.kind == ErrorKind::InvalidOption) <==> crate::options::dec_indent(
            options,
        ) == 0,
        crate::options::dec_strict(options) && crate::options::dec_indent(options) != 0
            && any_leading_tab(split_lines(text@)) ==> (r matches Err(e) && e.kind
            == ErrorKind::Indent),
        r matches Ok(v) ==> wf_value(v.m()),
        crate::options::dec_indent(options) != 0 && (bare_root(text@) matches Some(t)
            && bare_token_shape(t) && t != seq!['{', '}'] && t != seq!['[', ']'] && (classify_prim(
            t,
        ) matches Some(pm))) ==> (r matches Ok(v) && v.m() == crate::value::ValueModel::Prim(
            classify_prim(bare_root(text@)->Some_0)->Some_0,
        )),
        crate::options::dec_indent(options) != 0 && bare_root(text@) == Some(seq!['{', '}']) ==> (
        r matches Ok(v) && v.m() == crate::value::ValueModel::Obj(Seq::empty())),
        crate::options::dec_indent(options) != 0 && bare_root(text@) == Some(seq!['[', ']']) ==> (
        r matches Ok(v) && v.m() == crate::value::ValueModel::Arr(Seq::empty())),
{
    let ghost spd = sp_decode(
        text@,
        crate::options::dec_indent(options),
        crate::options::dec_strict(options),
        crate::options::dec_expand(options),
    );
    let n = crate::options::get_dec_indent(&options);
    if n == 0 {
        let e = make_error(ErrorKind::InvalidOption, 1, 1, "indent must be at least 1");
        proof {
            assert(err_m(e) =~= ErrModel {
                kind: ErrorKind::InvalidOption,
                line: 1,
                col: 1,
                msg: "indent must be at least 1"@,
            });
        }
        return Err(e);
    }
    let strict = crate::options::get_dec_strict(&options);
    let expand = crate::options::get_dec_expand(&options);
    let chars = crate::chars::str_to_chars(text);
    let raw_lines = split_into_lines(&chars);
    proof {
        let ls = split_lines(text@);
        if ls.len() == 1 && ls[0].len() > 0 && !is_indent_ws(ls[0][0]) {
            let l = ls[0];
            assert(indent_end(l, 0) == 0);
            if leading_tab(l) {
                let x = choose|x: int| 0 <= x < indent_end(l, 0) && l[x] == '\t';
                assert(false);
            }
            assert(tabs_in(l, 0) == 0);
            assert(sp_prep_from(ls, 1, n as int, strict) == Result::<
                Seq<LineModel>,
                ErrModel,
            >::Ok(Seq::<LineModel>::empty()));
            assert(l.skip(0) =~= l);
            assert(seq![LineModel { no: 1, depth: 0, text: l.skip(0) }]
                + Seq::<LineModel>::empty() =~= seq![LineModel { no: 1, depth: 0, text: l }]);
            assert(sp_prep(ls, n as int, strict) == Result::<Seq<LineModel>, ErrModel>::Ok(
                seq![LineModel { no: 1, depth: 0, text: l }],
            ));
        }
    }
    proof {
        assert(crate::encode::views_of(raw_lines@) == split_lines(text@));
        assert(n as int == crate::options::dec_indent(options));
        assert(strict == crate::options::dec_strict(options));
        assert(expand == crate::options::dec_expand(options));
    }
    let plines = match prep_lines(&raw_lines, n, strict) {
        Result::Ok(p) => p,
        Result::Err(e) => {
            proof {
                assert(sp_prep(split_lines(text@), n as int, strict) == Result::<
                    Seq<LineModel>,
                    ErrModel,
                >::Err(err_m(e)));
                assert(spd == Result::<crate::value::ValueModel, ErrModel>::Err(err_m(e)));
            }
            return Err(e);
        },
    };
    let ghost lmg = plines_m(plines@);
    proof {
        assert(sp_prep(split_lines(text@), n as int, strict) == Result::<
            Seq<LineModel>,
            ErrModel,
        >::Ok(lmg));
    }
    proof {
        let ls = split_lines(text@);
        if ls.len() == 1 && ls[0].len() > 0 && !is_indent_ws(ls[0][0]) {
            let l = ls[0];
            assert(plines_m(plines@).len() == 1);
            assert(plines_m(plines@)[0] == LineModel { no: 1, depth: 0, text: l });
            assert(plines@.len() == 1 && plines@[0].no == 1 && plines@[0].depth == 0
                && plines@[0].text@ == l);
        }
    }

    if plines.len() == 0 {
        let e = make_error(ErrorKind::Structure, 1, 1, "empty input");
        proof {
            assert(lmg.len() == 0);
            assert(err_m(e) =~= ErrModel {
                kind: ErrorKind::Structure,
                line: 1,
                col: 1,
                msg: "empty input"@,
            });
            assert(spd == Result::<crate::value::ValueModel, ErrModel>::Err(err_m(e)));
        }
        return Err(e);
    }
    let parser = P { lines: plines, strict, expand };
    proof {
        assert(plines_m(parser.lines@) == lmg);
        assert(lmg[0].no == parser.lines@[0].no as int && lmg[0].text
            == parser.lines@[0].text@);
    }
    let shape = match scan_shape(&parser.lines[0].text, parser.lines[0].no) {
        Result::Ok(sh) => sh,
        Result::Err(e) => {
            proof {
                assert(sp_scan_shape(lmg[0].text, lmg[0].no) == Result::<
                    ShapeModel,
                    ErrModel,
                >::Err(err_m(e)));
                assert(spd == Result::<crate::value::ValueModel, ErrModel>::Err(err_m(e)));
            }
            return Err(e);
        },
    };
    match shape {
        Shape::Bare(tok) => {
            let v = match scan_value_token(&tok, parser.lines[0].no) {
                Result::Ok(v) => v,
                Result::Err(e) => {
                    proof {
                        assert(spd == Result::<crate::value::ValueModel, ErrModel>::Err(
                            err_m(e),
                        ));
                    }
                    return Err(e);
                },
            };
            if parser.lines.len() > 1 {
                let e = make_error(
                    ErrorKind::Structure,
                    parser.lines[1].no,
                    1,
                    "text after the root value",
                );
                proof {
                    assert(lmg[1].no == parser.lines@[1].no as int);
                    assert(err_m(e) =~= ErrModel {
                        kind: ErrorKind::Structure,
                        line: lmg[1].no,
                        col: 1,
                        msg: "text after the root value"@,
                    });
                    assert(spd == Result::<crate::value::ValueModel, ErrModel>::Err(err_m(e)));
                }
                return Err(e);
            }
            Ok(v)
        },
        Shape::Entry(_, _, _) => {
            let (es, ni) = match parser.parse_block_object(0, 0) {
                Result::Ok(x) => x,
                Result::Err(e) => {
                    proof {
                        assert(spd == Result::<crate::value::ValueModel, ErrModel>::Err(
                            err_m(e),
                        ));
                    }
                    return Err(e);
                },
            };
            if ni < parser.lines.len() {
                let e = make_error(
                    ErrorKind::Structure,
                    parser.lines[ni].no,
                    1,
                    "text after the root value",
                );
                proof {
                    assert(lmg[ni as int].no == parser.lines@[ni as int].no as int);
                    assert(err_m(e) =~= ErrModel {
                        kind: ErrorKind::Structure,
                        line: lmg[ni as int].no,
                        col: 1,
                        msg: "text after the root value"@,
                    });
                    assert(spd == Result::<crate::value::ValueModel, ErrModel>::Err(err_m(e)));
                }
                return Err(e);
            }
            let entries = match finalize_object(es, expand, parser.lines[0].no) {
                Result::Ok(x) => x,
                Result::Err(e) => {
                    proof {
                        assert(spd == Result::<crate::value::ValueModel, ErrModel>::Err(
                            err_m(e),
                        ));
                    }
                    return Err(e);
                },
            };
            proof {
                lemma_wf_from_entries(entries@);
            }
            Ok(JsonValue::Object(entries))
        },
        Shape::Header(h) => {
            let ghost hm = header_m(h);
            let (v, ni) = match parser.parse_array(h, 0, 0) {
                Result::Ok(x) => x,
                Result::Err(e) => {
                    proof {
                        assert(spd == Result::<crate::value::ValueModel, ErrModel>::Err(
                            err_m(e),
                        ));
                    }
                    return Err(e);
                },
            };
            if ni < parser.lines.len() {
                let e = make_error(
                    ErrorKind::Structure,
                    parser.lines[ni].no,
                    1,
                    "text after the root value",
                );
                proof {
                    assert(lmg[ni as int].no == parser.lines@[ni as int].no as int);
                    assert(err_m(e) =~= ErrModel {
                        kind: ErrorKind::Structure,
                        line: lmg[ni as int].no,
                        col: 1,
                        msg: "text after the root value"@,
                    });
                    assert(spd == Result::<crate::value::ValueModel, ErrModel>::Err(err_m(e)));
                }
                return Err(e);
            }
            Ok(v)
        },
    }
}

/// The root-scalar round trip: the encoding of a well-formed scalar —
/// `render_prim` of its form, which is `encode_text` of the scalar under
/// any options — is a single bare unindented line whose token scans back
/// to exactly that scalar.  With the contract of `try_decode`, decoding
/// such a text under a non-zero indent yields the scalar unchanged.
pub proof fn lemma_scalar_round_trip(p: crate::value::PrimModel, d: char)
    requires
        crate::lexicon::wf_prim(p),
    ensures
        bare_root(crate::lexicon::render_prim(p, d)) == Some(crate::lexicon::render_prim(p, d)),
        bare_token_shape(crate::lexicon::render_prim(p, d)),
        crate::lexicon::render_prim(p, d) != seq!['{', '}'],
        crate::lexicon::render_prim(p, d) != seq!['[', ']'],
        classify_prim(crate::lexicon::render_prim(p, d)) == Some(p),
{
    let t = crate::lexicon::render_prim(p, d);
    crate::lexicon::lemma_scan_render_prim(p, d);
    match p {
        crate::value::PrimModel::Null => {
            assert(t == crate::lexicon::null_chars());
            assert(t[0] == 'n' && t[1] == 'u' && t[2] == 'l' && t[3] == 'l' && t.len() == 4);
            assert forall|i: int| 0 <= i < t.len() implies (#[trigger] t[i]) != ':' && t[i] != '['
                && t[i] != '\n' by {}
        },
        crate::value::PrimModel::Bool(b) => {
            if b {
                assert(t == crate::lexicon::true_chars());
                assert(t[0] == 't' && t[1] == 'r' && t[2] == 'u' && t[3] == 'e' && t.len() == 4);
            } else {
                assert(t == crate::lexicon::false_chars());
                assert(t[0] == 'f' && t[1] == 'a' && t[2] == 'l' && t[3] == 's' && t[4] == 'e'
                    && t.len() == 5);
            }
            assert forall|i: int| 0 <= i < t.len() implies (#[trigger] t[i]) != ':' && t[i] != '['
                && t[i] != '\n' by {}
        },
        crate::value::PrimModel::Num(tok) => {
            assert(t == tok);
            crate::lexicon::lemma_number_chars(tok);
            crate::lexicon::lemma_number_first_char(tok);
            assert forall|i: int| 0 <= i < t.len() implies (#[trigger] t[i]) != ':' && t[i] != '['
                && t[i] != '\n' && !is_ws(t[i]) && t[i] != '"' && t[i] != '{' by {
                assert(crate::lexicon::is_digit(t[i]) || t[i] == '-' || t[i] == '.' || t[i] == 'e'
                    || t[i] == 'E' || t[i] == '+');
            }
        },
        crate::value::PrimModel::Str(s) => {
            if crate::lexicon::value_needs_quotes(s, d) {
                assert(t == crate::lexicon::quote_str(s));
                assert(t =~= seq!['"'] + crate::lexicon::escape(s) + seq!['"']);
                assert(t[0] == '"');
                assert(t[t.len() - 1] == '"');
                crate::lexicon::lemma_escape_no_newline(s);
                assert forall|i: int| 0 <= i < t.len() implies (#[trigger] t[i]) != '\n' by {
                    if 0 < i < t.len() - 1 {
                        assert(t[i] == crate::lexicon::escape(s)[i - 1]);
                    }
                }
                crate::lexicon::lemma_unesc_escape(seq!['"'], s);
                assert(crate::lexicon::unesc(t, 1) == Some((s, t.len() as int)));
            } else {
                assert(t == s);
                assert(!crate::lexicon::is_reserved(s));
                assert(s.len() > 0);
                assert forall|i: int| 0 <= i < t.len() implies (#[trigger] t[i]) != ':' && t[i]
                    != '[' && t[i] != '\n' && t[i] != '"' && t[i] != '{' && !crate::lexicon::is_control(
                    t[i],
                ) by {
                    if crate::lexicon::is_value_bad_char(t[i], d) {
                        assert(crate::lexicon::value_needs_quotes(s, d));
                    }
                    assert(crate::lexicon::is_control('\n'));
                }
                assert(t[0] != ' ' && t[t.len() - 1] != ' ');
                assert(!is_ws(t[0]) && !is_ws(t[t.len() - 1]));
            }
        },
    }
    assert(t.len() > 0);
    assert(!is_ws(t[0]) && !is_ws(t[t.len() - 1]));
    assert(!is_indent_ws(t[0]));
    assert forall|k: int| 0 <= k < t.len() implies t[k] != '\n' by {}
    lemma_nl_end_at(t, 0, t.len() as int);
    assert(split_lines(t) == seq![t.subrange(0, t.len() as int)]);
    assert(t.subrange(0, t.len() as int) =~= t);
    crate::lexicon::lemma_trim_id(t);
    assert(bare_root(t) == Some(t));
    if t == seq!['{', '}'] {
        assert(t[0] == '{');
        assert(false);
    }
    if t == seq!['[', ']'] {
        assert(t[0] == '[');
        assert(false);
    }
}

/// The empty containers round-trip at the root: `encode_text` writes an
/// empty object as `{}` and an empty array as `[]`, each a bare
/// unindented single line, which `try_decode`'s contract sends back to
/// the empty container.
pub proof fn lemma_empty_root_round_trip()
    ensures
        bare_root(seq!['{', '}']) == Some(seq!['{', '}']),
        bare_root(seq!['[', ']']) == Some(seq!['[', ']']),
{
    let o = seq!['{', '}'];
    let a = seq!['[', ']'];
    assert(o[0] == '{' && o[1] == '}' && o.len() == 2);
    assert(a[0] == '[' && a[1] == ']' && a.len() == 2);
    assert forall|k: int| 0 <= k < o.len() implies o[k] != '\n' by {}
    assert forall|k: int| 0 <= k < a.len() implies a[k] != '\n' by {}
    lemma_nl_end_at(o, 0, 2);
    lemma_nl_end_at(a, 0, 2);
    assert(o.subrange(0, 2) =~= o);
    assert(a.subrange(0, 2) =~= a);
    crate::lexicon::lemma_trim_id(o);
    crate::lexicon::lemma_trim_id(a);
}

/// The diagnostic line of an error model, as `ToonError::message` writes
/// it: the 1-based line and column, then the cause.
pub open spec fn err_message(e: ErrModel) -> Seq<char> {
    seq!['l', 'i', 'n', 'e', ' '] + crate::error::dec_digits(e.line as nat) + seq![
        ',',
        ' ',
        'c',
        'o',
        'l',
        'u',
        'm',
        'n',
        ' ',
    ] + crate::error::dec_digits(e.col as nat) + seq![':', ' '] + e.msg
}

/// What `decode` yields: the decoded value where `sp_decode` succeeds,
/// and the error's diagnostic line as a string value where it fails.
pub open spec fn sp_decode_value(
    text: Seq<char>,
    n: int,
    strict: bool,
    expand: bool,
) -> crate::value::ValueModel {
    match sp_decode(text, n, strict, expand) {
        Result::Ok(m) => m,
        Result::Err(e) => crate::value::ValueModel::Prim(
            crate::value::PrimModel::Str(err_message(e)),
        ),
    }
}

/// Decodes TOON text; where `try_decode` would surface an error, the
/// error's diagnostic line stands in as a string value.  The contract
/// pins the result to `sp_decode_value` of the text under the effective
/// options.
pub fn decode(text: &str, options: Option<DecodeOptions>) -> (r: JsonValue)
    ensures
        wf_value(r.m()),
        r.m() == sp_decode_value(
            text@,
            crate::options::dec_indent(options),
            crate::options::dec_strict(options),
            crate::options::dec_expand(options),
        ),
{
    match try_decode(text, options) {
        Result::Ok(v) => v,
        Result::Err(e) => {
            let msg = e.message();
            proof {
                assert(msg@ =~= err_message(err_m(e)));
            }
            JsonValue::Primitive(StringOrNumberOrBoolOrNull::String(msg))
        },
    }
}


} // verus!
