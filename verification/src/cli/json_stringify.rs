//! Writing a value as JSON text, compact or pretty.
//!
//! The text is fixed by `json_text`: with indent zero the compact form
//! (no spaces), with a positive indent one element per line, indented by
//! that many spaces per level — the layouts common JSON writers produce.
//! String bodies use the same escapes as the scalar lexicon.

use vstd::prelude::*;

use crate::chars::chars_to_string;
use crate::chars::str_to_chars;
use crate::lexicon::quote_str;
use crate::value::JsonValue;
use crate::value::PrimModel;
use crate::value::StringOrNumberOrBoolOrNull;
use crate::value::ValueModel;
use crate::value::entries_m;
use crate::value::lemma_entries_m;
use crate::value::lemma_seq_m;
use crate::value::seq_m;

verus! {

broadcast use vstd::std_specs::vec::group_vec_axioms;

/// What precedes an element: nothing when compact, a newline and the
/// element's indentation when pretty.
pub open spec fn item_pre(n: int, depth: int) -> Seq<char> {
    if n == 0 {
        Seq::empty()
    } else {
        seq!['\n'] + crate::encode::indent_sp(n, depth + 1)
    }
}

/// What precedes a closing bracket: nothing when compact, a newline and
/// the container's indentation when pretty.
pub open spec fn close_pre(n: int, depth: int) -> Seq<char> {
    if n == 0 {
        Seq::empty()
    } else {
        seq!['\n'] + crate::encode::indent_sp(n, depth)
    }
}

/// Whether a number token is a plain integer: an optional sign and
/// digits alone.
pub open spec fn is_plain_int(t: Seq<char>) -> bool {
    let b: int = if t.len() > 0 && t[0] == '-' {
        1
    } else {
        0
    };
    t.len() > b && forall|i: int| b <= i < t.len() ==> crate::lexicon::is_digit(#[trigger] t[i])
}

/// A scalar as JSON text.  A plain integer token gains `.0`, as writers
/// of binary floating-point values print whole numbers.
pub open spec fn json_prim(p: PrimModel) -> Seq<char> {
    match p {
        PrimModel::Null => crate::lexicon::null_chars(),
        PrimModel::Bool(b) => if b {
            crate::lexicon::true_chars()
        } else {
            crate::lexicon::false_chars()
        },
        PrimModel::Num(t) => if is_plain_int(t) {
            t + seq!['.', '0']
        } else {
            t
        },
        PrimModel::Str(s) => quote_str(s),
    }
}

/// A value as JSON text at the given depth.
pub open spec fn json_text(v: ValueModel, n: int, depth: int) -> Seq<char>
    decreases v, 1int,
{
    match v {
        ValueModel::Prim(p) => json_prim(p),
        ValueModel::Arr(items) => if items.len() == 0 {
            seq!['[', ']']
        } else {
            seq!['['] + json_items(items, n, depth) + close_pre(n, depth) + seq![']']
        },
        ValueModel::Obj(entries) => if entries.len() == 0 {
            seq!['{', '}']
        } else {
            seq!['{'] + json_entries(entries, n, depth) + close_pre(n, depth) + seq!['}']
        },
    }
}

/// The comma-separated elements of an array, each after its prefix.
pub open spec fn json_items(items: Seq<ValueModel>, n: int, depth: int) -> Seq<char>
    decreases items, 0int,
{
    if items.len() == 0 {
        Seq::empty()
    } else if items.len() == 1 {
        item_pre(n, depth) + json_text(items[0], n, depth + 1)
    } else {
        item_pre(n, depth) + json_text(items[0], n, depth + 1) + seq![','] + json_items(
            items.drop_first(),
            n,
            depth,
        )
    }
}

/// The comma-separated entries of an object, each after its prefix.
pub open spec fn json_entries(entries: Seq<(Seq<char>, ValueModel)>, n: int, depth: int) -> Seq<
    char,
>
    decreases entries, 0int,
{
    if entries.len() == 0 {
        Seq::empty()
    } else {
        let one = item_pre(n, depth) + quote_str(entries[0].0) + seq![':'] + (if n == 0 {
            Seq::<char>::empty()
        } else {
            seq![' ']
        }) + json_text(entries[0].1, n, depth + 1);
        if entries.len() == 1 {
            one
        } else {
            one + seq![','] + json_entries(entries.drop_first(), n, depth)
        }
    }
}

/// Appends the JSON text of a scalar.
#[verifier::loop_isolation(false)]
fn write_json_prim(out: &mut Vec<char>, p: &StringOrNumberOrBoolOrNull)
    ensures
        final(out)@ == old(out)@ + json_prim(p.m()),
{
    match p {
        StringOrNumberOrBoolOrNull::Null => {
            out.push('n');
            out.push('u');
            out.push('l');
            out.push('l');
            proof {
                assert(final(out)@ =~= old(out)@ + json_prim(p.m()));
            }
        },
        StringOrNumberOrBoolOrNull::Bool(b) => {
            if *b {
                out.push('t');
                out.push('r');
                out.push('u');
                out.push('e');
            } else {
                out.push('f');
                out.push('a');
                out.push('l');
                out.push('s');
                out.push('e');
            }
            proof {
                assert(final(out)@ =~= old(out)@ + json_prim(p.m()));
            }
        },
        StringOrNumberOrBoolOrNull::Number(t) => {
            let tc = str_to_chars(t.as_str());
            let b: usize = if tc.len() > 0 && tc[0] == '-' {
                1
            } else {
                0
            };
            let mut plain = tc.len() > b;
            let mut i: usize = b;
            while i < tc.len() && plain
                invariant
                    b <= i <= tc@.len(),
                    plain ==> tc@.len() > b,
                    plain ==> forall|k: int| b <= k < i ==> crate::lexicon::is_digit(
                        #[trigger] tc@[k],
                    ),
                    !plain ==> !is_plain_int(tc@),
                decreases tc@.len() - i,
            {
                if !crate::lexicon::digit_char(tc[i]) {
                    plain = false;
                    proof {
                        assert(!is_plain_int(tc@));
                    }
                    break ;
                } else {
                    i = i + 1;
                }
            }
            crate::encode::push_all(out, &tc);
            if plain {
                proof {
                    assert(is_plain_int(tc@));
                }
                out.push('.');
                out.push('0');
            }
            proof {
                assert(final(out)@ =~= old(out)@ + json_prim(p.m()));
            }
        },
        StringOrNumberOrBoolOrNull::String(s) => {
            let sc = str_to_chars(s.as_str());
            crate::lexicon::push_quoted(out, &sc);
        },
    }
}

/// Appends the JSON text of a value.
#[verifier::loop_isolation(false)]
#[verifier::rlimit(60)]
fn write_json_value(
    out: &mut Vec<char>,
    v: &JsonValue,
    pad: &Vec<char>,
    Ghost(depth): Ghost<int>,
    n: usize,
)
    requires
        depth >= 0,
        pad@ == crate::encode::indent_sp(n as int, depth),
    ensures
        final(out)@ == old(out)@ + json_text(v.m(), n as int, depth),
    decreases *v, 1int,
{
    match v {
        JsonValue::Primitive(p) => {
            write_json_prim(out, p);
        },
        JsonValue::Array(items) => {
            proof {
                lemma_seq_m(items@);
                assert(decreases_to!(*v => *items));
            }
            let ghost im = seq_m(items@);
            if items.len() == 0 {
                out.push('[');
                out.push(']');
                proof {
                    assert(final(out)@ =~= old(out)@ + json_text(v.m(), n as int, depth));
                }
                return ;
            }
            out.push('[');
            let pad2 = deeper_pad(pad, n, Ghost(depth));
            let mut i: usize = 0;
            proof {
                assert(im.skip(0) =~= im);
            }
            while i < items.len()
                invariant
                    i <= items@.len(),
                    old(out)@ + seq!['['] + json_items(im, n as int, depth) == out@ + json_items(
                        im.skip(i as int),
                        n as int,
                        depth,
                    ),
                decreases items@.len() - i,
            {
                proof {
                    assert(im.skip(i as int)[0] == im[i as int]);
                    assert(im.skip(i as int).drop_first() =~= im.skip(i + 1));
                    assert(decreases_to!(*items => items@));
                    assert(decreases_to!(items@ => items@[i as int]));
                }
                if n > 0 {
                    out.push('\n');
                    crate::encode::push_all(out, &pad2);
                }
                write_json_value(out, &items[i], &pad2, Ghost(depth + 1), n);
                if i + 1 < items.len() {
                    out.push(',');
                    proof {
                        assert(json_items(im.skip(i as int), n as int, depth) =~= item_pre(
                            n as int,
                            depth,
                        ) + json_text(im[i as int], n as int, depth + 1) + seq![','] + json_items(
                            im.skip(i + 1),
                            n as int,
                            depth,
                        ));
                        assert(old(out)@ + seq!['['] + json_items(im, n as int, depth) =~= out@
                            + json_items(im.skip(i + 1), n as int, depth));
                    }
                } else {
                    proof {
                        assert(im.skip(i as int).len() == 1);
                        assert(json_items(im.skip(i as int), n as int, depth) =~= item_pre(
                            n as int,
                            depth,
                        ) + json_text(im[i as int], n as int, depth + 1));
                        assert(im.skip(i + 1) =~= Seq::<ValueModel>::empty());
                        assert(old(out)@ + seq!['['] + json_items(im, n as int, depth) =~= out@
                            + json_items(im.skip(i + 1), n as int, depth));
                    }
                }
                i = i + 1;
            }
            if n > 0 {
                out.push('\n');
                crate::encode::push_all(out, pad);
            }
            out.push(']');
            proof {
                assert(im.skip(im.len() as int) =~= Seq::<ValueModel>::empty());
                assert(final(out)@ =~= old(out)@ + json_text(v.m(), n as int, depth));
            }
        },
        JsonValue::Object(entries) => {
            proof {
                lemma_entries_m(entries@);
                assert(decreases_to!(*v => *entries));
            }
            let ghost em = entries_m(entries@);
            if entries.len() == 0 {
                out.push('{');
                out.push('}');
                proof {
                    assert(final(out)@ =~= old(out)@ + json_text(v.m(), n as int, depth));
                }
                return ;
            }
            out.push('{');
            let pad2 = deeper_pad(pad, n, Ghost(depth));
            let mut i: usize = 0;
            proof {
                assert(em.skip(0) =~= em);
            }
            while i < entries.len()
                invariant
                    i <= entries@.len(),
                    old(out)@ + seq!['{'] + json_entries(em, n as int, depth) == out@
                        + json_entries(em.skip(i as int), n as int, depth),
                decreases entries@.len() - i,
            {
                proof {
                    assert(em.skip(i as int)[0] == em[i as int]);
                    assert(em.skip(i as int).drop_first() =~= em.skip(i + 1));
                    assert(decreases_to!(*entries => entries@));
                    assert(decreases_to!(entries@ => entries@[i as int]));
                    assert(decreases_to!(entries@[i as int] => entries@[i as int].1));
                }
                if n > 0 {
                    out.push('\n');
                    crate::encode::push_all(out, &pad2);
                }
                let kc = str_to_chars(entries[i].0.as_str());
                crate::lexicon::push_quoted(out, &kc);
                out.push(':');
                if n > 0 {
                    out.push(' ');
                }
                write_json_value(out, &entries[i].1, &pad2, Ghost(depth + 1), n);
                let ghost one = item_pre(n as int, depth) + quote_str(em[i as int].0) + seq![':']
                    + (if n == 0 {
                    Seq::<char>::empty()
                } else {
                    seq![' ']
                }) + json_text(em[i as int].1, n as int, depth + 1);
                if i + 1 < entries.len() {
                    out.push(',');
                    proof {
                        assert(json_entries(em.skip(i as int), n as int, depth) =~= one + seq![',']
                            + json_entries(em.skip(i + 1), n as int, depth));
                        assert(old(out)@ + seq!['{'] + json_entries(em, n as int, depth) =~= out@
                            + json_entries(em.skip(i + 1), n as int, depth));
                    }
                } else {
                    proof {
                        assert(em.skip(i as int).len() == 1);
                        assert(json_entries(em.skip(i as int), n as int, depth) =~= one);
                        assert(em.skip(i + 1) =~= Seq::<(Seq<char>, ValueModel)>::empty());
                        assert(old(out)@ + seq!['{'] + json_entries(em, n as int, depth) =~= out@
                            + json_entries(em.skip(i + 1), n as int, depth));
                    }
                }
                i = i + 1;
            }
            if n > 0 {
                out.push('\n');
                crate::encode::push_all(out, pad);
            }
            out.push('}');
            proof {
                assert(em.skip(em.len() as int) =~= Seq::<(Seq<char>, ValueModel)>::empty());
                assert(final(out)@ =~= old(out)@ + json_text(v.m(), n as int, depth));
            }
        },
    }
}

/// The indentation one level deeper than `pad`.
#[verifier::loop_isolation(false)]
fn deeper_pad(pad: &Vec<char>, n: usize, Ghost(depth): Ghost<int>) -> (r: Vec<char>)
    requires
        depth >= 0,
        pad@ == crate::encode::indent_sp(n as int, depth),
    ensures
        r@ == crate::encode::indent_sp(n as int, depth + 1),
{
    let mut r = crate::chars::copy_range(pad, 0, pad.len());
    let mut j: usize = 0;
    proof {
        assert((n as int) * depth >= 0) by (nonlinear_arith)
            requires
                n as int >= 0,
                depth >= 0,
        ;
    }
    while j < n
        invariant
            j <= n,
            r@.len() == pad@.len() + j,
            r@.take(pad@.len() as int) == pad@,
            forall|k: int| pad@.len() <= k < r@.len() ==> r@[k] == ' ',
        decreases n - j,
    {
        r.push(' ');
        proof {
            assert(r@.take(pad@.len() as int) =~= pad@);
        }
        j = j + 1;
    }
    proof {
        assert((n as int) * (depth + 1) == (n as int) * depth + n as int) by (nonlinear_arith);
        assert forall|k: int| 0 <= k < r@.len() implies r@[k] == ' ' by {
            if k < pad@.len() {
                assert(pad@[k] == ' ');
                assert(r@.take(pad@.len() as int)[k] == r@[k]);
            }
        }
        assert(r@ =~= crate::encode::indent_sp(n as int, depth + 1));
    }
    r
}

/// The JSON text of a value, as one chunk: the compact form for indent
/// zero, the pretty form for a positive indent.
pub fn json_stringify_lines(value: &JsonValue, indent: usize) -> (r: Vec<String>)
    ensures
        r@.len() == 1,
        r@[0]@ == json_text(value.m(), indent as int, 0),
{
    let mut out: Vec<char> = Vec::new();
    let pad: Vec<char> = Vec::new();
    proof {
        assert(pad@ =~= crate::encode::indent_sp(indent as int, 0));
    }
    write_json_value(&mut out, value, &pad, Ghost(0), indent);
    let mut r: Vec<String> = Vec::new();
    r.push(chars_to_string(&out));
    r
}

} // verus!
