//! The emitter: from a value to TOON text.
//!
//! The text of an encoding is fixed, character for character, by the spec
//! function `encode_text`; `encode` returns exactly that text.  Lines are
//! separated by a single newline with no trailing newline.  Every emit
//! function yields its first line bare — no indentation, no newline — and
//! prefixes each further line with a newline and its indentation, so that a
//! caller can splice a block after a key or after a list dash.

use vstd::prelude::*;

use crate::lexicon::all_prims;
use crate::lexicon::render_key;
use crate::lexicon::render_prim;
use crate::lexicon::key_needs_quotes;
use crate::options::EncodeOptions;
use crate::value::JsonValue;
use crate::value::PrimModel;
use crate::value::ValueModel;

verus! {

broadcast use vstd::std_specs::vec::group_vec_axioms;

/// The indentation of a line at `depth`: `n * depth` spaces.
pub open spec fn indent_sp(n: int, depth: int) -> Seq<char> {
    if n * depth >= 0 {
        Seq::new((n * depth) as nat, |i: int| ' ')
    } else {
        Seq::empty()
    }
}

/// The first value bound to `k` among the entries, if any.
pub open spec fn lookup(entries: Seq<(Seq<char>, ValueModel)>, k: Seq<char>) -> Option<ValueModel>
    decreases entries.len(),
{
    if entries.len() == 0 {
        Option::None
    } else if entries[0].0 == k {
        Option::Some(entries[0].1)
    } else {
        lookup(entries.drop_first(), k)
    }
}

/// The keys of the entries, in order.
pub open spec fn keys_of(entries: Seq<(Seq<char>, ValueModel)>) -> Seq<Seq<char>> {
    Seq::new(entries.len(), |i: int| entries[i].0)
}

/// The key set of the entries.
pub open spec fn key_set(entries: Seq<(Seq<char>, ValueModel)>) -> Set<Seq<char>> {
    keys_of(entries).to_set()
}

/// Whether an array of values qualifies as a table: at least one element,
/// every element an object, every element's key set that of the first, and
/// every value a scalar.  The column order is the first element's.
pub open spec fn is_tabular(items: Seq<ValueModel>) -> bool {
    &&& items.len() >= 1
    &&& items[0] is Obj && items[0]->Obj_0.len() >= 1
    &&& forall|i: int| 0 <= i < items.len() ==> (#[trigger] items[i]) is Obj
    &&& forall|i: int|
        0 <= i < items.len() ==> key_set((#[trigger] items[i])->Obj_0) == key_set(
            items[0]->Obj_0,
        )
    &&& forall|i: int, k: Seq<char>|
        0 <= i < items.len() && key_set(items[0]->Obj_0).contains(k) ==> ((#[trigger] lookup(
            items[i]->Obj_0,
            k,
        )) matches Some(v) && v is Prim)
}

/// The column names of a table: the first element's keys in order.
pub open spec fn table_cols(items: Seq<ValueModel>) -> Seq<Seq<char>> {
    keys_of(items[0]->Obj_0)
}

/// A segment that folding may absorb: a key that stands unquoted.
pub open spec fn safe_seg(k: Seq<char>) -> bool {
    !key_needs_quotes(k)
}

/// Whether the chain may grow by one more segment under the cap.
pub open spec fn under_cap(cap: Option<usize>, len: nat) -> bool {
    match cap {
        Option::None => true,
        Option::Some(c) => len <= c,
    }
}

/// A folded key path rendered as text: a single key as itself (quoted when
/// it must be), several segments joined with dots.  Folding only ever
/// joins segments that stand unquoted, for which rendering is identity.
pub open spec fn render_path(path: Seq<Seq<char>>) -> Seq<char>
    decreases path.len(),
{
    if path.len() == 0 {
        Seq::empty()
    } else if path.len() == 1 {
        render_key(path[0])
    } else {
        render_key(path[0]) + seq!['.'] + render_path(path.drop_first())
    }
}

/// The cells of a scalar array, rendered and joined by the delimiter.
pub open spec fn cells_text(items: Seq<ValueModel>, d: char) -> Seq<char>
    decreases items.len(),
{
    if items.len() == 0 {
        Seq::empty()
    } else if items.len() == 1 {
        render_prim(items[0]->Prim_0, d)
    } else {
        render_prim(items[0]->Prim_0, d) + seq![d] + cells_text(items.drop_first(), d)
    }
}

/// The column names of a table header, rendered and joined by the
/// delimiter.
pub open spec fn cols_text(cols: Seq<Seq<char>>, d: char) -> Seq<char>
    decreases cols.len(),
{
    if cols.len() == 0 {
        Seq::empty()
    } else if cols.len() == 1 {
        render_key(cols[0])
    } else {
        render_key(cols[0]) + seq![d] + cols_text(cols.drop_first(), d)
    }
}

/// One table row: the row's cells in column order, joined by the
/// delimiter.
pub open spec fn row_text(cols: Seq<Seq<char>>, entries: Seq<(Seq<char>, ValueModel)>, d: char) -> Seq<
    char,
>
    decreases cols.len(),
{
    if cols.len() == 0 {
        Seq::empty()
    } else {
        let cell = match lookup(entries, cols[0]) {
            Option::Some(v) => render_prim(v->Prim_0, d),
            Option::None => Seq::empty(),
        };
        if cols.len() == 1 {
            cell
        } else {
            cell + seq![d] + row_text(cols.drop_first(), entries, d)
        }
    }
}

/// What follows the colon of a scalar-array header: a space under the
/// default comma, or the declared delimiter itself.
pub open spec fn delim_mark(d: char) -> Seq<char> {
    if d == ',' {
        seq![' ']
    } else {
        seq![d]
    }
}

/// What follows the colon of a table header: nothing under the default
/// comma, or the declared delimiter.
pub open spec fn table_delim_mark(d: char) -> Seq<char> {
    if d == ',' {
        Seq::empty()
    } else {
        seq![d]
    }
}

// The emit functions.  Parameters shared by all: `depth` is the depth of
// the first line of the block (whose indentation the caller writes), `n`
// the spaces per level, `d` the delimiter, `fold` whether chains fold,
// `cap` the folded-segment cap.

/// The text of one object entry: key, colon, and the entry's value.
pub open spec fn entry_text(
    k: Seq<char>,
    v: ValueModel,
    depth: int,
    n: int,
    d: char,
    fold: bool,
    cap: Option<usize>,
) -> Seq<char>
    decreases v, 3int, 0int,
{
    if fold && safe_seg(k) {
        entry_path_text(seq![k], v, depth, n, d, cap)
    } else {
        keyed_text(render_key(k), v, depth, n, d, fold, cap)
    }
}

/// The text of an entry whose key has begun folding: the chain grows while
/// the value is an object of exactly one safely named entry and the cap
/// allows.
pub open spec fn entry_path_text(
    path: Seq<Seq<char>>,
    v: ValueModel,
    depth: int,
    n: int,
    d: char,
    cap: Option<usize>,
) -> Seq<char>
    decreases v, 2int, 1int,
{
    match v {
        ValueModel::Obj(entries) => {
            if entries.len() == 1 && safe_seg(entries[0].0) && under_cap(
                cap,
                (path.len() + 1) as nat,
            ) {
                entry_path_text(path.push(entries[0].0), entries[0].1, depth, n, d, cap)
            } else {
                keyed_text(render_path(path), v, depth, n, d, true, cap)
            }
        },
        _ => keyed_text(render_path(path), v, depth, n, d, true, cap),
    }
}

/// The text of a rendered key bound to a value: an inline scalar or empty
/// container, or a nested block whose children stand one level deeper.
pub open spec fn keyed_text(
    ktext: Seq<char>,
    v: ValueModel,
    depth: int,
    n: int,
    d: char,
    fold: bool,
    cap: Option<usize>,
) -> Seq<char>
    decreases v, 2int, 0int,
{
    match v {
        ValueModel::Prim(p) => ktext + seq![':', ' '] + render_prim(p, d),
        ValueModel::Obj(entries) => if entries.len() == 0 {
            ktext + seq![':', ' ', '{', '}']
        } else {
            ktext + seq![':'] + obj_rest_text(entries, depth + 1, n, d, fold, cap)
        },
        ValueModel::Arr(items) => if items.len() == 0 {
            ktext + seq![':', ' ', '[', ']']
        } else {
            arr_text(ktext, items, depth, n, d, fold, cap)
        },
    }
}

/// The text of a non-empty array after its (possibly empty) rendered key:
/// the inline form when every element is a scalar, the table form when the
/// array qualifies, and otherwise the dashed list form.
pub open spec fn arr_text(
    ktext: Seq<char>,
    items: Seq<ValueModel>,
    depth: int,
    n: int,
    d: char,
    fold: bool,
    cap: Option<usize>,
) -> Seq<char>
    decreases items, 1int, 0int,
{
    let head = ktext + seq!['['] + crate::error::dec_digits(items.len()) + seq![']'];
    if all_prims(items) {
        head + seq![':'] + delim_mark(d) + cells_text(items, d)
    } else if is_tabular(items) {
        head + seq!['{'] + cols_text(table_cols(items), d) + seq!['}', ':'] + table_delim_mark(d)
            + rows_text(table_cols(items), items, depth + 1, n, d)
    } else {
        head + seq![':'] + items_text(items, depth + 1, n, d, fold, cap)
    }
}

/// The rows of a table, each on its own line one level deeper.
pub open spec fn rows_text(
    cols: Seq<Seq<char>>,
    items: Seq<ValueModel>,
    depth: int,
    n: int,
    d: char,
) -> Seq<char>
    decreases items, 0int, 0int,
{
    if items.len() == 0 {
        Seq::empty()
    } else {
        seq!['\n'] + indent_sp(n, depth) + row_text(cols, items[0]->Obj_0, d) + rows_text(
            cols,
            items.drop_first(),
            depth,
            n,
            d,
        )
    }
}

/// The items of a list-form array, each on its own dashed line one level
/// deeper.
pub open spec fn items_text(
    items: Seq<ValueModel>,
    depth: int,
    n: int,
    d: char,
    fold: bool,
    cap: Option<usize>,
) -> Seq<char>
    decreases items, 0int, 0int,
{
    if items.len() == 0 {
        Seq::empty()
    } else {
        seq!['\n'] + indent_sp(n, depth) + seq!['-', ' '] + elem_text(
            items[0],
            depth + 1,
            n,
            d,
            fold,
            cap,
        ) + items_text(items.drop_first(), depth, n, d, fold, cap)
    }
}

/// The text of one list element, spliced after its dash: a scalar, an
/// empty container, an object block, or a nested array block.
pub open spec fn elem_text(
    v: ValueModel,
    depth: int,
    n: int,
    d: char,
    fold: bool,
    cap: Option<usize>,
) -> Seq<char>
    decreases v, 2int, 0int,
{
    match v {
        ValueModel::Prim(p) => render_prim(p, d),
        ValueModel::Obj(entries) => if entries.len() == 0 {
            seq!['{', '}']
        } else {
            obj_body_text(entries, depth, n, d, fold, cap)
        },
        ValueModel::Arr(items) => if items.len() == 0 {
            seq!['[', ']']
        } else {
            arr_text(Seq::empty(), items, depth, n, d, fold, cap)
        },
    }
}

/// The entries of an object block: the first entry bare, each further
/// entry on its own line at the block's depth.
pub open spec fn obj_body_text(
    entries: Seq<(Seq<char>, ValueModel)>,
    depth: int,
    n: int,
    d: char,
    fold: bool,
    cap: Option<usize>,
) -> Seq<char>
    decreases entries, 4int, 0int,
{
    if entries.len() == 0 {
        Seq::empty()
    } else {
        entry_text(entries[0].0, entries[0].1, depth, n, d, fold, cap) + obj_rest_text(
            entries.drop_first(),
            depth,
            n,
            d,
            fold,
            cap,
        )
    }
}

/// Object entries each introduced by a newline and indentation.
pub open spec fn obj_rest_text(
    entries: Seq<(Seq<char>, ValueModel)>,
    depth: int,
    n: int,
    d: char,
    fold: bool,
    cap: Option<usize>,
) -> Seq<char>
    decreases entries, 4int, 1int,
{
    if entries.len() == 0 {
        Seq::empty()
    } else {
        seq!['\n'] + indent_sp(n, depth) + entry_text(entries[0].0, entries[0].1, depth, n, d, fold, cap)
            + obj_rest_text(entries.drop_first(), depth, n, d, fold, cap)
    }
}

/// `lookup` finds a binding exactly when some entry has the key, and the
/// first such entry's value.
pub proof fn lemma_lookup_exists(entries: Seq<(Seq<char>, ValueModel)>, k: Seq<char>)
    ensures
        (lookup(entries, k) is Some) <==> (exists|j: int|
            0 <= j < entries.len() && (#[trigger] entries[j].0) == k),
    decreases entries.len(),
{
    if entries.len() > 0 {
        lemma_lookup_exists(entries.drop_first(), k);
        if entries[0].0 == k {
        } else {
            assert forall|j: int| 0 <= j < entries.len() && (#[trigger] entries[j].0) == k implies
                lookup(entries, k) is Some by {
                assert(entries.drop_first()[j - 1] == entries[j]);
            }
            if lookup(entries, k) is Some {
                let j = choose|j: int|
                    0 <= j < entries.drop_first().len() && (#[trigger] entries.drop_first()[j].0)
                        == k;
                assert(entries[j + 1].0 == k);
            }
        }
    }
}

/// Looking up a key at a known first occurrence.
pub proof fn lemma_lookup_at(entries: Seq<(Seq<char>, ValueModel)>, k: Seq<char>, i: int)
    requires
        0 <= i < entries.len(),
        entries[i].0 == k,
        forall|j: int| 0 <= j < i ==> (#[trigger] entries[j].0) != k,
    ensures
        lookup(entries, k) == Some(entries[i].1),
    decreases i,
{
    if i > 0 {
        lemma_lookup_at(entries.drop_first(), k, i - 1);
        assert(entries.drop_first()[i - 1] == entries[i]);
    }
}

/// Looking up a key that no entry has.
pub proof fn lemma_lookup_none(entries: Seq<(Seq<char>, ValueModel)>, k: Seq<char>)
    requires
        forall|j: int| 0 <= j < entries.len() ==> (#[trigger] entries[j].0) != k,
    ensures
        lookup(entries, k) is None,
    decreases entries.len(),
{
    if entries.len() > 0 {
        assert forall|j: int| 0 <= j < entries.drop_first().len() implies (
        #[trigger] entries.drop_first()[j].0) != k by {
            assert(entries.drop_first()[j] == entries[j + 1]);
        }
        lemma_lookup_none(entries.drop_first(), k);
    }
}

/// The whole text of a value: a bare scalar or empty container on one
/// line, or the block of an object or array at depth zero.
pub open spec fn encode_text(
    v: ValueModel,
    n: int,
    d: char,
    fold: bool,
    cap: Option<usize>,
) -> Seq<char> {
    match v {
        ValueModel::Prim(p) => render_prim(p, d),
        ValueModel::Obj(entries) => if entries.len() == 0 {
            seq!['{', '}']
        } else {
            obj_body_text(entries, 0, n, d, fold, cap)
        },
        ValueModel::Arr(items) => if items.len() == 0 {
            seq!['[', ']']
        } else {
            arr_text(Seq::empty(), items, 0, n, d, fold, cap)
        },
    }
}

// --- executable emission ---

use crate::chars::eq_chars;
use crate::chars::str_to_chars;
use crate::value::StringOrNumberOrBoolOrNull;
use crate::value::entries_m;
use crate::value::lemma_entries_m;
use crate::value::lemma_seq_m;
use crate::value::seq_m;

/// The views of a vector of character vectors, in order.
pub open spec fn views_of(cols: Seq<Vec<char>>) -> Seq<Seq<char>> {
    Seq::new(cols.len(), |i: int| cols[i]@)
}

/// Appends all characters of `v`.
pub fn push_all(out: &mut Vec<char>, v: &Vec<char>)
    ensures
        final(out)@ == old(out)@ + v@,
{
    let mut i: usize = 0;
    while i < v.len()
        invariant
            i <= v@.len(),
            out@ == old(out)@ + v@.take(i as int),
        decreases v@.len() - i,
    {
        out.push(v[i]);
        proof {
            assert(old(out)@ + v@.take(i + 1 as int) =~= (old(out)@ + v@.take(i as int)) + seq![
                v@[i as int],
            ]);
        }
        i = i + 1;
    }
    proof {
        assert(v@.take(v@.len() as int) =~= v@);
    }
}

/// Appends `n * depth` spaces.
#[verifier::loop_isolation(false)]
pub fn write_indent(out: &mut Vec<char>, n: usize, depth: usize)
    ensures
        final(out)@ == old(out)@ + indent_sp(n as int, depth as int),
{
    let mut i: usize = 0;
    while i < depth
        invariant
            i <= depth,
            out@.len() == old(out)@.len() + i * n,
            old(out)@.len() <= out@.len(),
            out@.take(old(out)@.len() as int) == old(out)@,
            forall|j: int| old(out)@.len() <= j < out@.len() ==> out@[j] == ' ',
        decreases depth - i,
    {
        let mut j: usize = 0;
        while j < n
            invariant
                j <= n,
                out@.len() == old(out)@.len() + i * n + j,
                old(out)@.len() <= out@.len(),
                out@.take(old(out)@.len() as int) == old(out)@,
                forall|k: int| old(out)@.len() <= k < out@.len() ==> out@[k] == ' ',
            decreases n - j,
        {
            out.push(' ');
            proof {
                assert(out@.take(old(out)@.len() as int) =~= old(out)@);
            }
            j = j + 1;
        }
        proof {
            assert((i + 1) * n == i * n + n) by (nonlinear_arith);
        }
        i = i + 1;
    }
    proof {
        let o = old(out)@;
        assert((n as int) * (depth as int) >= 0) by (nonlinear_arith);
        assert((depth as int) * (n as int) == (n as int) * (depth as int)) by (nonlinear_arith);
        assert(indent_sp(n as int, depth as int).len() == n * depth);
        assert forall|k: int| 0 <= k < out@.len() implies out@[k] == (o + indent_sp(
            n as int,
            depth as int,
        ))[k] by {
            if k < o.len() {
                assert(out@.take(o.len() as int)[k] == out@[k]);
            }
        }
        assert(out@ =~= old(out)@ + indent_sp(n as int, depth as int));
    }
}

/// Appends the rendered form of a scalar.
pub fn write_prim(out: &mut Vec<char>, p: &StringOrNumberOrBoolOrNull, d: char)
    ensures
        final(out)@ == old(out)@ + render_prim(p.m(), d),
{
    match p {
        StringOrNumberOrBoolOrNull::Null => {
            out.push('n');
            out.push('u');
            out.push('l');
            out.push('l');
            proof {
                assert(final(out)@ =~= old(out)@ + crate::lexicon::null_chars());
            }
        },
        StringOrNumberOrBoolOrNull::Bool(b) => {
            if *b {
                out.push('t');
                out.push('r');
                out.push('u');
                out.push('e');
                proof {
                    assert(final(out)@ =~= old(out)@ + crate::lexicon::true_chars());
                }
            } else {
                out.push('f');
                out.push('a');
                out.push('l');
                out.push('s');
                out.push('e');
                proof {
                    assert(final(out)@ =~= old(out)@ + crate::lexicon::false_chars());
                }
            }
        },
        StringOrNumberOrBoolOrNull::Number(t) => {
            let tc = str_to_chars(t.as_str());
            push_all(out, &tc);
        },
        StringOrNumberOrBoolOrNull::String(s) => {
            let sc = str_to_chars(s.as_str());
            if crate::lexicon::string_needs_quotes(&sc, d) {
                crate::lexicon::push_quoted(out, &sc);
            } else {
                push_all(out, &sc);
            }
        },
    }
}

/// Appends the rendered form of a key.
pub fn write_key(out: &mut Vec<char>, k: &Vec<char>)
    ensures
        final(out)@ == old(out)@ + render_key(k@),
{
    if crate::lexicon::key_quotes_needed(k) {
        crate::lexicon::push_quoted(out, k);
    } else {
        push_all(out, k);
    }
}

/// The first value bound to `k` among the entries, when it is a scalar.
fn find_prim(entries: &Vec<(String, JsonValue)>, k: &Vec<char>) -> (r: Option<
    StringOrNumberOrBoolOrNull,
>)
    ensures
        match r {
            Option::Some(p) => lookup(entries_m(entries@), k@) == Some(
                ValueModel::Prim(p.m()),
            ),
            Option::None => !(lookup(entries_m(entries@), k@) matches Some(v) && v is Prim),
        },
{
    proof {
        lemma_entries_m(entries@);
    }
    let ghost em = entries_m(entries@);
    let mut j: usize = 0;
    while j < entries.len()
        invariant
            j <= entries@.len(),
            em == entries_m(entries@),
            em.len() == entries@.len(),
            forall|i: int| 0 <= i < entries@.len() ==> #[trigger] em[i] == (
                entries@[i].0@,
                entries@[i].1.m(),
            ),
            forall|i: int| 0 <= i < j ==> (#[trigger] em[i].0) != k@,
        decreases entries@.len() - j,
    {
        let kc = str_to_chars(entries[j].0.as_str());
        if eq_chars(&kc, k) {
            proof {
                lemma_lookup_at(em, k@, j as int);
            }
            match &entries[j].1 {
                JsonValue::Primitive(p) => {
                    return Some(p.clone());
                },
                JsonValue::Array(_) => {
                    return None;
                },
                JsonValue::Object(_) => {
                    return None;
                },
            }
        }
        j = j + 1;
    }
    proof {
        lemma_lookup_none(em, k@);
    }
    None
}

/// What a table row must satisfy against the column list.
pub open spec fn row_ok(row: Seq<(Seq<char>, ValueModel)>, cols: Seq<Seq<char>>) -> bool {
    &&& forall|c: int|
        0 <= c < cols.len() ==> ((#[trigger] lookup(row, cols[c])) matches Some(v) && v is Prim)
    &&& forall|j: int| 0 <= j < row.len() ==> cols.contains(#[trigger] row[j].0)
}

/// Rows that satisfy `row_ok` against the first row's keys have the first
/// row's key set, with every value a scalar.
proof fn lemma_row_ok_keyset(row: Seq<(Seq<char>, ValueModel)>, row0: Seq<(Seq<char>, ValueModel)>)
    requires
        row_ok(row, keys_of(row0)),
    ensures
        key_set(row) == key_set(row0),
        forall|k: Seq<char>|
            key_set(row0).contains(k) ==> ((#[trigger] lookup(row, k)) matches Some(v)
                && v is Prim),
{
    let cols = keys_of(row0);
    assert forall|k: Seq<char>| #[trigger] key_set(row).contains(k) implies key_set(
        row0,
    ).contains(k) by {
        let j = choose|j: int| 0 <= j < keys_of(row).len() && keys_of(row)[j] == k;
        assert(cols.contains(row[j].0));
        let c = choose|c: int| 0 <= c < cols.len() && cols[c] == row[j].0;
        assert(keys_of(row0)[c] == k);
    }
    assert forall|k: Seq<char>| #[trigger] key_set(row0).contains(k) implies ((lookup(row, k))
        matches Some(v) && v is Prim) by {
        let c = choose|c: int| 0 <= c < keys_of(row0).len() && keys_of(row0)[c] == k;
        assert(lookup(row, cols[c]) matches Some(v) && v is Prim);
    }
    assert forall|k: Seq<char>| #[trigger] key_set(row0).contains(k) implies key_set(
        row,
    ).contains(k) by {
        assert(lookup(row, k) is Some);
        lemma_lookup_exists(row, k);
        let j = choose|j: int| 0 <= j < row.len() && (#[trigger] row[j].0) == k;
        assert(keys_of(row)[j] == k);
    }
    assert(key_set(row) =~= key_set(row0));
}

/// Decides whether the array is a table, and if so returns its column
/// names in order.
#[verifier::loop_isolation(false)]
pub fn analyze_tabular(items: &Vec<JsonValue>) -> (r: Option<Vec<Vec<char>>>)
    ensures
        match r {
            Option::Some(cols) => is_tabular(seq_m(items@)) && views_of(cols@) == table_cols(
                seq_m(items@),
            ),
            Option::None => !is_tabular(seq_m(items@)),
        },
{
    proof {
        lemma_seq_m(items@);
    }
    let ghost im = seq_m(items@);
    if items.len() == 0 {
        return None;
    }
    let first_entries: &Vec<(String, JsonValue)> = match &items[0] {
        JsonValue::Object(entries) => entries,
        JsonValue::Primitive(_) => {
            return None;
        },
        JsonValue::Array(_) => {
            return None;
        },
    };
    proof {
        lemma_entries_m(first_entries@);
    }
    let ghost row0 = entries_m(first_entries@);
    let mut cols: Vec<Vec<char>> = Vec::new();
    let mut ci: usize = 0;
    while ci < first_entries.len()
        invariant
            ci <= first_entries@.len(),
            row0 == entries_m(first_entries@),
            row0.len() == first_entries@.len(),
            forall|i: int| 0 <= i < first_entries@.len() ==> #[trigger] row0[i] == (
                first_entries@[i].0@,
                first_entries@[i].1.m(),
            ),
            cols@.len() == ci,
            forall|i: int| 0 <= i < ci ==> (#[trigger] cols@[i])@ == row0[i].0,
        decreases first_entries@.len() - ci,
    {
        cols.push(str_to_chars(first_entries[ci].0.as_str()));
        ci = ci + 1;
    }
    proof {
        assert(views_of(cols@) =~= keys_of(row0));
        assert(im[0] == items@[0].m());
        assert(im[0]->Obj_0 == row0);
    }
    if cols.len() == 0 {
        return None;
    }
    let mut i: usize = 0;
    while i < items.len()
        invariant
            i <= items@.len(),
            im == seq_m(items@),
            im.len() == items@.len(),
            forall|j: int| 0 <= j < items@.len() ==> #[trigger] im[j] == items@[j].m(),
            items@.len() >= 1,
            im[0] is Obj,
            im[0]->Obj_0 == row0,
            views_of(cols@) == keys_of(row0),
            forall|j: int|
                0 <= j < i ==> (#[trigger] im[j]) is Obj && row_ok(im[j]->Obj_0, keys_of(row0)),
        decreases items@.len() - i,
    {
        let row_entries: &Vec<(String, JsonValue)> = match &items[i] {
            JsonValue::Object(entries) => entries,
            JsonValue::Primitive(_) => {
                return None;
            },
            JsonValue::Array(_) => {
                return None;
            },
        };
        proof {
            lemma_entries_m(row_entries@);
        }
        let ghost rowm = entries_m(row_entries@);
        let mut c: usize = 0;
        while c < cols.len()
            invariant
                c <= cols@.len(),
                rowm == entries_m(row_entries@),
                views_of(cols@) == keys_of(row0),
                forall|c2: int|
                    0 <= c2 < c ==> ((#[trigger] lookup(rowm, keys_of(row0)[c2])) matches Some(v)
                        && v is Prim),
            decreases cols@.len() - c,
        {
            match find_prim(row_entries, &cols[c]) {
                Option::Some(_) => {
                    proof {
                        assert(cols@[c as int]@ == keys_of(row0)[c as int]);
                    }
                },
                Option::None => {
                    proof {
                        if is_tabular(im) {
                            assert(keys_of(row0)[c as int] == row0[c as int].0);
                            assert(key_set(row0).contains(keys_of(row0)[c as int]));
                            assert(im[i as int]->Obj_0 == rowm);
                            assert(lookup(rowm, keys_of(row0)[c as int]) matches Some(v)
                                && v is Prim);
                            assert(false);
                        }
                    }
                    return None;
                },
            }
            c = c + 1;
        }
        let mut j: usize = 0;
        while j < row_entries.len()
            invariant
                j <= row_entries@.len(),
                rowm == entries_m(row_entries@),
                rowm.len() == row_entries@.len(),
                forall|x: int| 0 <= x < row_entries@.len() ==> #[trigger] rowm[x] == (
                    row_entries@[x].0@,
                    row_entries@[x].1.m(),
                ),
                views_of(cols@) == keys_of(row0),
                forall|x: int| 0 <= x < j ==> keys_of(row0).contains(#[trigger] rowm[x].0),
            decreases row_entries@.len() - j,
        {
            let kc = str_to_chars(row_entries[j].0.as_str());
            let mut c2: usize = 0;
            let mut found = false;
            while c2 < cols.len()
                invariant
                    c2 <= cols@.len(),
                    kc@ == rowm[j as int].0,
                    0 <= (j as int) < rowm.len(),
                    views_of(cols@) == keys_of(row0),
                    !found ==> forall|x: int| 0 <= x < c2 ==> keys_of(row0)[x] != kc@,
                    found ==> keys_of(row0).contains(kc@),
                decreases cols@.len() - c2,
            {
                if eq_chars(&cols[c2], &kc) {
                    found = true;
                    proof {
                        assert(keys_of(row0)[c2 as int] == kc@);
                    }
                    break ;
                }
                c2 = c2 + 1;
            }
            if !found {
                proof {
                    if is_tabular(im) {
                        assert(im[i as int]->Obj_0 == rowm);
                        assert(keys_of(rowm)[j as int] == rowm[j as int].0);
                        assert(key_set(rowm).contains(rowm[j as int].0));
                        assert(key_set(rowm) == key_set(row0));
                        let cx = choose|cx: int|
                            0 <= cx < keys_of(row0).len() && keys_of(row0)[cx] == kc@;
                        assert(false);
                    }
                }
                return None;
            }
            j = j + 1;
        }
        proof {
            lemma_entries_m(row_entries@);
            assert forall|x: int| 0 <= x < rowm.len() implies keys_of(row0).contains(
                #[trigger] rowm[x].0,
            ) by {}
            assert(row_ok(rowm, keys_of(row0)));
            assert(im[i as int] is Obj && im[i as int]->Obj_0 == rowm);
        }
        i = i + 1;
    }
    proof {
        assert forall|x: int| 0 <= x < im.len() implies (#[trigger] im[x]) is Obj by {}
        assert forall|x: int| 0 <= x < im.len() implies key_set((#[trigger] im[x])->Obj_0)
            == key_set(im[0]->Obj_0) by {
            lemma_row_ok_keyset(im[x]->Obj_0, row0);
        }
        assert forall|x: int, k: Seq<char>|
            0 <= x < im.len() && key_set(im[0]->Obj_0).contains(k) implies ((#[trigger] lookup(
            im[x]->Obj_0,
            k,
        )) matches Some(v) && v is Prim) by {
            lemma_row_ok_keyset(im[x]->Obj_0, row0);
        }
        assert(is_tabular(im));
        assert(table_cols(im) == keys_of(row0));
    }
    Some(cols)
}

/// A rendered key stands as a prefix of its entry's text.
proof fn lemma_keyed_prefix(
    ktext: Seq<char>,
    v: ValueModel,
    depth: int,
    n: int,
    d: char,
    fold: bool,
    cap: Option<usize>,
)
    ensures
        keyed_text(ktext, v, depth, n, d, fold, cap) == ktext + keyed_text(
            Seq::empty(),
            v,
            depth,
            n,
            d,
            fold,
            cap,
        ),
{
    let e = Seq::<char>::empty();
    match v {
        ValueModel::Prim(p) => {
            assert(keyed_text(ktext, v, depth, n, d, fold, cap) =~= ktext + keyed_text(
                e,
                v,
                depth,
                n,
                d,
                fold,
                cap,
            ));
        },
        ValueModel::Obj(entries) => {
            assert(keyed_text(ktext, v, depth, n, d, fold, cap) =~= ktext + keyed_text(
                e,
                v,
                depth,
                n,
                d,
                fold,
                cap,
            ));
        },
        ValueModel::Arr(items) => {
            if items.len() == 0 {
                assert(keyed_text(ktext, v, depth, n, d, fold, cap) =~= ktext + keyed_text(
                    e,
                    v,
                    depth,
                    n,
                    d,
                    fold,
                    cap,
                ));
            } else {
                assert(arr_text(ktext, items, depth, n, d, fold, cap) =~= ktext + arr_text(
                    e,
                    items,
                    depth,
                    n,
                    d,
                    fold,
                    cap,
                ));
            }
        },
    }
}

/// The indentation one level deeper than `pad`.
#[verifier::loop_isolation(false)]
fn deeper(pad: &Vec<char>, n: usize, Ghost(depth): Ghost<int>) -> (r: Vec<char>)
    requires
        depth >= 0,
        pad@ == indent_sp(n as int, depth),
    ensures
        r@ == indent_sp(n as int, depth + 1),
{
    let mut r = crate::chars::copy_range(pad, 0, pad.len());
    let mut j: usize = 0;
    proof {
        assert((n as int) * depth >= 0) by (nonlinear_arith)
            requires
                n as int >= 0,
                depth >= 0,
        ;
    }
    while j < n
        invariant
            j <= n,
            r@.len() == pad@.len() + j,
            r@.take(pad@.len() as int) == pad@,
            forall|k: int| pad@.len() <= k < r@.len() ==> r@[k] == ' ',
        decreases n - j,
    {
        r.push(' ');
        proof {
            assert(r@.take(pad@.len() as int) =~= pad@);
        }
        j = j + 1;
    }
    proof {
        assert((n as int) * (depth + 1) == (n as int) * depth + n as int) by (nonlinear_arith);
        assert forall|k: int| 0 <= k < r@.len() implies r@[k] == ' ' by {
            if k < pad@.len() {
                assert(pad@[k] == ' ');
                assert(r@.take(pad@.len() as int)[k] == r@[k]);
            }
        }
        assert(r@ =~= indent_sp(n as int, depth + 1));
    }
    r
}

/// Writes one object entry: its (possibly folded) key and its value.
#[verifier::loop_isolation(false)]
fn write_entry(
    out: &mut Vec<char>,
    k: &Vec<char>,
    v: &JsonValue,
    pad: &Vec<char>,
    Ghost(depth): Ghost<int>,
    n: usize,
    d: char,
    fold: bool,
    cap: Option<usize>,
)
    requires
        depth >= 0,
        pad@ == indent_sp(n as int, depth),
    ensures
        final(out)@ == old(out)@ + entry_text(k@, v.m(), depth, n as int, d, fold, cap),
    decreases *v, 3int, 0int,
{
    if fold && !crate::lexicon::key_quotes_needed(k) {
        let mut path: Vec<Vec<char>> = Vec::new();
        path.push(crate::chars::copy_range(k, 0, k.len()));
        proof {
            assert(k@.subrange(0, k@.len() as int) =~= k@);
            assert(views_of(path@) =~= seq![k@]);
        }
        write_entry_path(out, path, v, pad, Ghost(depth), n, d, cap);
    } else {
        write_key(out, k);
        write_keyed0(out, v, pad, Ghost(depth), n, d, fold, cap);
        proof {
            lemma_keyed_prefix(render_key(k@), v.m(), depth, n as int, d, fold, cap);
            assert(final(out)@ =~= old(out)@ + entry_text(k@, v.m(), depth, n as int, d, fold, cap));
        }
    }
}

/// Writes an entry whose key chain is folding.
#[verifier::loop_isolation(false)]
fn write_entry_path(
    out: &mut Vec<char>,
    path: Vec<Vec<char>>,
    v: &JsonValue,
    pad: &Vec<char>,
    Ghost(depth): Ghost<int>,
    n: usize,
    d: char,
    cap: Option<usize>,
)
    requires
        depth >= 0,
        pad@ == indent_sp(n as int, depth),
        path@.len() >= 1,
    ensures
        final(out)@ == old(out)@ + entry_path_text(
            views_of(path@),
            v.m(),
            depth,
            n as int,
            d,
            cap,
        ),
    decreases *v, 2int, 1int,
{
    match v {
        JsonValue::Object(entries) => {
            proof {
                lemma_entries_m(entries@);
            }
            if entries.len() == 1 {
                let k2 = str_to_chars(entries[0].0.as_str());
                let cap_ok = match cap {
                    Option::Some(c) => path.len() < c,
                    Option::None => true,
                };
                proof {
                    assert(cap_ok == under_cap(cap, (views_of(path@).len() + 1) as nat));
                }
                if !crate::lexicon::key_quotes_needed(&k2) && cap_ok {
                    let ghost path0 = path@;
                    let mut path2 = path;
                    path2.push(k2);
                    proof {
                        assert(path2@.drop_last() =~= path0);
                        assert(views_of(path2@.drop_last()) =~~= views_of(path0));
                        assert(views_of(path2@) =~= views_of(path2@.drop_last()).push(
                            entries_m(entries@)[0].0,
                        ));
                    }
                    let ghost pv = views_of(path2@.drop_last());
                    proof {
                        assert(decreases_to!(*v => *entries));
                        assert(decreases_to!(*entries => entries@));
                        assert(decreases_to!(entries@ => entries@[0]));
                        assert(decreases_to!(entries@[0] => entries@[0].1));
                    }
                    write_entry_path(out, path2, &entries[0].1, pad, Ghost(depth), n, d, cap);
                    proof {
                        assert(entry_path_text(pv, v.m(), depth, n as int, d, cap)
                            == entry_path_text(
                            pv.push(entries_m(entries@)[0].0),
                            entries_m(entries@)[0].1,
                            depth,
                            n as int,
                            d,
                            cap,
                        ));
                    }
                    return ;
                }
            }
        },
        _ => {},
    }
    write_path_key(out, &path);
    write_keyed0(out, v, pad, Ghost(depth), n, d, true, cap);
    proof {
        lemma_keyed_prefix(render_path(views_of(path@)), v.m(), depth, n as int, d, true, cap);
        assert(final(out)@ =~= old(out)@ + entry_path_text(
            views_of(path@),
            v.m(),
            depth,
            n as int,
            d,
            cap,
        ));
    }
}

/// Writes a folded key path: segments joined with dots.
#[verifier::loop_isolation(false)]
fn write_path_key(out: &mut Vec<char>, path: &Vec<Vec<char>>)
    requires
        path@.len() >= 1,
    ensures
        final(out)@ == old(out)@ + render_path(views_of(path@)),
{
    let ghost pv = views_of(path@);
    let mut i: usize = 0;
    proof {
        assert(pv.skip(0) =~= pv);
    }
    while i < path.len()
        invariant
            i <= path@.len(),
            old(out)@ + render_path(pv) == out@ + render_path(pv.skip(i as int)),
        decreases path@.len() - i,
    {
        proof {
            assert(pv.skip(i as int)[0] == pv[i as int]);
            assert(pv.skip(i as int).drop_first() =~= pv.skip(i + 1));
        }
        write_key(out, &path[i]);
        if i + 1 < path.len() {
            out.push('.');
            proof {
                assert(render_path(pv.skip(i as int)) =~= render_key(pv[i as int]) + seq!['.']
                    + render_path(pv.skip(i + 1)));
                assert(old(out)@ + render_path(pv) =~= out@ + render_path(pv.skip(i + 1)));
            }
        } else {
            proof {
                assert(pv.skip(i as int).len() == 1);
                assert(render_path(pv.skip(i as int)) == render_key(pv[i as int]));
                assert(pv.skip(i + 1) =~= Seq::<Seq<char>>::empty());
                assert(old(out)@ + render_path(pv) =~= out@ + render_path(pv.skip(i + 1)));
            }
        }
        i = i + 1;
    }
    proof {
        assert(pv.skip(path@.len() as int) =~= Seq::<Seq<char>>::empty());
        assert(final(out)@ =~= old(out)@ + render_path(pv));
    }
}

/// Writes everything after an entry's rendered key: colon and value.
#[verifier::loop_isolation(false)]
fn write_keyed0(
    out: &mut Vec<char>,
    v: &JsonValue,
    pad: &Vec<char>,
    Ghost(depth): Ghost<int>,
    n: usize,
    d: char,
    fold: bool,
    cap: Option<usize>,
)
    requires
        depth >= 0,
        pad@ == indent_sp(n as int, depth),
    ensures
        final(out)@ == old(out)@ + keyed_text(Seq::empty(), v.m(), depth, n as int, d, fold, cap),
    decreases *v, 2int, 0int,
{
    match v {
        JsonValue::Primitive(p) => {
            out.push(':');
            out.push(' ');
            write_prim(out, p, d);
            proof {
                assert(final(out)@ =~= old(out)@ + keyed_text(
                    Seq::empty(),
                    v.m(),
                    depth,
                    n as int,
                    d,
                    fold,
                    cap,
                ));
            }
        },
        JsonValue::Object(entries) => {
            if entries.len() == 0 {
                out.push(':');
                out.push(' ');
                out.push('{');
                out.push('}');
                proof {
                    lemma_entries_m(entries@);
                    assert(final(out)@ =~= old(out)@ + keyed_text(
                        Seq::empty(),
                        v.m(),
                        depth,
                        n as int,
                        d,
                        fold,
                        cap,
                    ));
                }
            } else {
                out.push(':');
                proof {
                    assert(decreases_to!(*v => *entries));
                }
                let pad2 = deeper(pad, n, Ghost(depth));
                write_obj_rest(out, entries, 0, &pad2, Ghost(depth + 1), n, d, fold, cap);
                proof {
                    lemma_entries_m(entries@);
                    assert(entries_m(entries@).skip(0) =~= entries_m(entries@));
                    assert(final(out)@ =~= old(out)@ + keyed_text(
                        Seq::empty(),
                        v.m(),
                        depth,
                        n as int,
                        d,
                        fold,
                        cap,
                    ));
                }
            }
        },
        JsonValue::Array(items) => {
            if items.len() == 0 {
                out.push(':');
                out.push(' ');
                out.push('[');
                out.push(']');
                proof {
                    lemma_seq_m(items@);
                    assert(final(out)@ =~= old(out)@ + keyed_text(
                        Seq::empty(),
                        v.m(),
                        depth,
                        n as int,
                        d,
                        fold,
                        cap,
                    ));
                }
            } else {
                proof {
                    assert(decreases_to!(*v => *items));
                }
                write_arr0(out, items, pad, Ghost(depth), n, d, fold, cap);
                proof {
                    lemma_seq_m(items@);
                }
            }
        },
    }
}

/// Writes a non-empty array after its rendered key: the inline, table, or
/// list form.
#[verifier::loop_isolation(false)]
#[verifier::rlimit(100)]
#[verifier::spinoff_prover]
fn write_arr0(
    out: &mut Vec<char>,
    items: &Vec<JsonValue>,
    pad: &Vec<char>,
    Ghost(depth): Ghost<int>,
    n: usize,
    d: char,
    fold: bool,
    cap: Option<usize>,
)
    requires
        depth >= 0,
        pad@ == indent_sp(n as int, depth),
        items@.len() >= 1,
    ensures
        final(out)@ == old(out)@ + arr_text(
            Seq::empty(),
            seq_m(items@),
            depth,
            n as int,
            d,
            fold,
            cap,
        ),
    decreases *items, 1int, 0int,
{
    proof {
        lemma_seq_m(items@);
    }
    let ghost im = seq_m(items@);
    out.push('[');
    crate::error::push_decimal(out, items.len());
    out.push(']');
    let ghost head = Seq::<char>::empty() + seq!['['] + crate::error::dec_digits(im.len())
        + seq![']'];
    proof {
        assert(out@ =~= old(out)@ + head);
    }
    let mut allp = true;
    let mut ai: usize = 0;
    while ai < items.len() && allp
        invariant
            ai <= items@.len(),
            allp ==> forall|j: int| 0 <= j < ai ==> (#[trigger] im[j]) is Prim,
            !allp ==> ai < items@.len() && !(im[ai as int] is Prim),
        decreases items@.len() - ai,
    {
        match &items[ai] {
            JsonValue::Primitive(_) => {
                proof {
                    assert(im[ai as int] == items@[ai as int].m());
                }
                ai = ai + 1;
            },
            JsonValue::Array(_) => {
                proof {
                    assert(im[ai as int] == items@[ai as int].m());
                }
                allp = false;
                break ;
            },
            JsonValue::Object(_) => {
                proof {
                    assert(im[ai as int] == items@[ai as int].m());
                }
                allp = false;
                break ;
            },
        }
    }
    if allp {
        proof {
            assert(all_prims(im));
        }
        out.push(':');
        if d == ',' {
            out.push(' ');
        } else {
            out.push(d);
        }
        let ghost base = out@;
        proof {
            assert(base =~= old(out)@ + head + seq![':'] + delim_mark(d));
        }
        write_cells(out, items, d);
        proof {
            assert(final(out)@ =~= old(out)@ + arr_text(
                Seq::empty(),
                im,
                depth,
                n as int,
                d,
                fold,
                cap,
            ));
        }
        return ;
    }
    proof {
        if all_prims(im) {
            assert(im[ai as int] is Prim);
        }
        assert(!all_prims(im));
    }
    match analyze_tabular(items) {
        Option::Some(cols) => {
            out.push('{');
            write_cols(out, &cols, d);
            out.push('}');
            out.push(':');
            if d != ',' {
                out.push(d);
            }
            let pad2 = deeper(pad, n, Ghost(depth));
            write_rows(out, &cols, items, &pad2, Ghost(depth + 1), n, d);
            proof {
                assert(final(out)@ =~= old(out)@ + arr_text(
                    Seq::empty(),
                    im,
                    depth,
                    n as int,
                    d,
                    fold,
                    cap,
                ));
            }
        },
        Option::None => {
            out.push(':');
            let pad2 = deeper(pad, n, Ghost(depth));
            write_items(out, items, &pad2, Ghost(depth + 1), n, d, fold, cap);
            proof {
                assert(final(out)@ =~= old(out)@ + arr_text(
                    Seq::empty(),
                    im,
                    depth,
                    n as int,
                    d,
                    fold,
                    cap,
                ));
            }
        },
    }
}

/// Writes the cells of an all-scalar array, joined by the delimiter.
#[verifier::loop_isolation(false)]
fn write_cells(out: &mut Vec<char>, items: &Vec<JsonValue>, d: char)
    requires
        all_prims(seq_m(items@)),
        items@.len() >= 1,
    ensures
        final(out)@ == old(out)@ + cells_text(seq_m(items@), d),
{
    proof {
        lemma_seq_m(items@);
    }
    let ghost im = seq_m(items@);
    let mut i: usize = 0;
    proof {
        assert(im.skip(0) =~= im);
    }
    while i < items.len()
        invariant
            i <= items@.len(),
            old(out)@ + cells_text(im, d) == out@ + cells_text(im.skip(i as int), d),
        decreases items@.len() - i,
    {
        proof {
            assert(im.skip(i as int)[0] == im[i as int]);
            assert(im.skip(i as int).drop_first() =~= im.skip(i + 1));
        }
        match &items[i] {
            JsonValue::Primitive(p) => {
                proof {
                    assert(im[i as int] == items@[i as int].m());
                }
                write_prim(out, p, d);
            },
            JsonValue::Array(_) => {
                proof {
                    assert(im[i as int] == items@[i as int].m());
                    assert(im[i as int] is Prim);
                    assert(false);
                }
            },
            JsonValue::Object(_) => {
                proof {
                    assert(im[i as int] == items@[i as int].m());
                    assert(im[i as int] is Prim);
                    assert(false);
                }
            },
        }
        if i + 1 < items.len() {
            out.push(d);
            proof {
                assert(cells_text(im.skip(i as int), d) =~= render_prim(im[i as int]->Prim_0, d)
                    + seq![d] + cells_text(im.skip(i + 1), d));
                assert(old(out)@ + cells_text(im, d) =~= out@ + cells_text(im.skip(i + 1), d));
            }
        } else {
            proof {
                assert(im.skip(i as int).len() == 1);
                assert(im.skip(i + 1) =~= Seq::<ValueModel>::empty());
                assert(old(out)@ + cells_text(im, d) =~= out@ + cells_text(im.skip(i + 1), d));
            }
        }
        i = i + 1;
    }
    proof {
        assert(im.skip(im.len() as int) =~= Seq::<ValueModel>::empty());
        assert(final(out)@ =~= old(out)@ + cells_text(im, d));
    }
}

/// Writes the column names of a table header, joined by the delimiter.
#[verifier::loop_isolation(false)]
fn write_cols(out: &mut Vec<char>, cols: &Vec<Vec<char>>, d: char)
    requires
        cols@.len() >= 1,
    ensures
        final(out)@ == old(out)@ + cols_text(views_of(cols@), d),
{
    let ghost cv = views_of(cols@);
    let mut i: usize = 0;
    proof {
        assert(cv.skip(0) =~= cv);
    }
    while i < cols.len()
        invariant
            i <= cols@.len(),
            old(out)@ + cols_text(cv, d) == out@ + cols_text(cv.skip(i as int), d),
        decreases cols@.len() - i,
    {
        proof {
            assert(cv.skip(i as int)[0] == cv[i as int]);
            assert(cv.skip(i as int).drop_first() =~= cv.skip(i + 1));
        }
        write_key(out, &cols[i]);
        if i + 1 < cols.len() {
            out.push(d);
            proof {
                assert(cols_text(cv.skip(i as int), d) =~= render_key(cv[i as int]) + seq![d]
                    + cols_text(cv.skip(i + 1), d));
                assert(old(out)@ + cols_text(cv, d) =~= out@ + cols_text(cv.skip(i + 1), d));
            }
        } else {
            proof {
                assert(cv.skip(i as int).len() == 1);
                assert(cv.skip(i + 1) =~= Seq::<Seq<char>>::empty());
                assert(old(out)@ + cols_text(cv, d) =~= out@ + cols_text(cv.skip(i + 1), d));
            }
        }
        i = i + 1;
    }
    proof {
        assert(cv.skip(cols@.len() as int) =~= Seq::<Seq<char>>::empty());
        assert(final(out)@ =~= old(out)@ + cols_text(cv, d));
    }
}

/// Writes the rows of a table, one line each.
#[verifier::loop_isolation(false)]
fn write_rows(
    out: &mut Vec<char>,
    cols: &Vec<Vec<char>>,
    items: &Vec<JsonValue>,
    pad: &Vec<char>,
    Ghost(depth): Ghost<int>,
    n: usize,
    d: char,
)
    requires
        depth >= 0,
        pad@ == indent_sp(n as int, depth),
        is_tabular(seq_m(items@)),
        views_of(cols@) == table_cols(seq_m(items@)),
    ensures
        final(out)@ == old(out)@ + rows_text(table_cols(seq_m(items@)), seq_m(items@), depth, n as int, d),
    decreases *items, 0int, 0int,
{
    proof {
        lemma_seq_m(items@);
    }
    let ghost im = seq_m(items@);
    let ghost cv = views_of(cols@);
    let mut i: usize = 0;
    proof {
        assert(im.skip(0) =~= im);
    }
    while i < items.len()
        invariant
            i <= items@.len(),
            old(out)@ + rows_text(cv, im, depth, n as int, d) == out@ + rows_text(
                cv,
                im.skip(i as int),
                depth,
                n as int,
                d,
            ),
        decreases items@.len() - i,
    {
        proof {
            assert(im.skip(i as int)[0] == im[i as int]);
            assert(im.skip(i as int).drop_first() =~= im.skip(i + 1));
        }
        out.push('\n');
        push_all(out, pad);
        match &items[i] {
            JsonValue::Object(entries) => {
                proof {
                    lemma_entries_m(entries@);
                    assert(im[i as int] == items@[i as int].m());
                    assert(im[i as int]->Obj_0 == entries_m(entries@));
                }
                write_row(out, cols, entries, d, Ghost(im), Ghost(i as int));
            },
            JsonValue::Primitive(_) => {
                proof {
                    assert(im[i as int] is Obj);
                    assert(false);
                }
            },
            JsonValue::Array(_) => {
                proof {
                    assert(im[i as int] is Obj);
                    assert(false);
                }
            },
        }
        proof {
            assert(rows_text(cv, im.skip(i as int), depth, n as int, d) =~= seq!['\n'] + indent_sp(
                n as int,
                depth,
            ) + row_text(cv, im[i as int]->Obj_0, d) + rows_text(
                cv,
                im.skip(i + 1),
                depth,
                n as int,
                d,
            ));
            assert(old(out)@ + rows_text(cv, im, depth, n as int, d) =~= out@ + rows_text(
                cv,
                im.skip(i + 1),
                depth,
                n as int,
                d,
            ));
        }
        i = i + 1;
    }
    proof {
        assert(im.skip(im.len() as int) =~= Seq::<ValueModel>::empty());
        assert(final(out)@ =~= old(out)@ + rows_text(cv, im, depth, n as int, d));
    }
}

/// Writes one table row: its cells in column order.
#[verifier::loop_isolation(false)]
fn write_row(
    out: &mut Vec<char>,
    cols: &Vec<Vec<char>>,
    entries: &Vec<(String, JsonValue)>,
    d: char,
    Ghost(im): Ghost<Seq<ValueModel>>,
    Ghost(ix): Ghost<int>,
)
    requires
        is_tabular(im),
        0 <= ix < im.len(),
        im[ix]->Obj_0 == entries_m(entries@),
        views_of(cols@) == table_cols(im),
    ensures
        final(out)@ == old(out)@ + row_text(views_of(cols@), entries_m(entries@), d),
{
    let ghost cv = views_of(cols@);
    let ghost rowm = entries_m(entries@);
    let mut c: usize = 0;
    proof {
        assert(cv.skip(0) =~= cv);
    }
    while c < cols.len()
        invariant
            c <= cols@.len(),
            old(out)@ + row_text(cv, rowm, d) == out@ + row_text(cv.skip(c as int), rowm, d),
        decreases cols@.len() - c,
    {
        proof {
            assert(cv.skip(c as int)[0] == cv[c as int]);
            assert(cv.skip(c as int).drop_first() =~= cv.skip(c + 1));
        }
        match find_prim(entries, &cols[c]) {
            Option::Some(p) => {
                write_prim(out, &p, d);
            },
            Option::None => {
                proof {
                    assert(cv[c as int] == keys_of(im[0]->Obj_0)[c as int]);
                    assert(key_set(im[0]->Obj_0).contains(cv[c as int]));
                    assert(lookup(im[ix]->Obj_0, cv[c as int]) matches Some(v) && v is Prim);
                    assert(false);
                }
            },
        }
        if c + 1 < cols.len() {
            out.push(d);
            proof {
                assert(row_text(cv.skip(c as int), rowm, d) =~= render_prim(
                    lookup(rowm, cv[c as int])->Some_0->Prim_0,
                    d,
                ) + seq![d] + row_text(cv.skip(c + 1), rowm, d));
                assert(old(out)@ + row_text(cv, rowm, d) =~= out@ + row_text(
                    cv.skip(c + 1),
                    rowm,
                    d,
                ));
            }
        } else {
            proof {
                assert(cv.skip(c as int).len() == 1);
                assert(cv.skip(c + 1) =~= Seq::<Seq<char>>::empty());
                assert(old(out)@ + row_text(cv, rowm, d) =~= out@ + row_text(
                    cv.skip(c + 1),
                    rowm,
                    d,
                ));
            }
        }
        c = c + 1;
    }
    proof {
        assert(cv.skip(cols@.len() as int) =~= Seq::<Seq<char>>::empty());
        assert(final(out)@ =~= old(out)@ + row_text(cv, rowm, d));
    }
}

/// Writes the items of a list-form array, one dashed line each.
#[verifier::loop_isolation(false)]
fn write_items(
    out: &mut Vec<char>,
    items: &Vec<JsonValue>,
    pad: &Vec<char>,
    Ghost(depth): Ghost<int>,
    n: usize,
    d: char,
    fold: bool,
    cap: Option<usize>,
)
    requires
        depth >= 0,
        pad@ == indent_sp(n as int, depth),
    ensures
        final(out)@ == old(out)@ + items_text(seq_m(items@), depth, n as int, d, fold, cap),
    decreases *items, 0int, 0int,
{
    proof {
        lemma_seq_m(items@);
    }
    let ghost im = seq_m(items@);
    let pad2 = deeper(pad, n, Ghost(depth));
    let mut i: usize = 0;
    proof {
        assert(im.skip(0) =~= im);
    }
    while i < items.len()
        invariant
            i <= items@.len(),
            old(out)@ + items_text(im, depth, n as int, d, fold, cap) == out@ + items_text(
                im.skip(i as int),
                depth,
                n as int,
                d,
                fold,
                cap,
            ),
        decreases items@.len() - i,
    {
        proof {
            assert(im.skip(i as int)[0] == im[i as int]);
            assert(im.skip(i as int).drop_first() =~= im.skip(i + 1));
        }
        out.push('\n');
        push_all(out, pad);
        out.push('-');
        out.push(' ');
        proof {
            assert(decreases_to!(*items => items@));
            assert(decreases_to!(items@ => items@[i as int]));
        }
        write_elem(out, &items[i], &pad2, Ghost(depth + 1), n, d, fold, cap);
        proof {
            assert(items_text(im.skip(i as int), depth, n as int, d, fold, cap) =~= seq!['\n']
                + indent_sp(n as int, depth) + seq!['-', ' '] + elem_text(
                im[i as int],
                depth + 1,
                n as int,
                d,
                fold,
                cap,
            ) + items_text(im.skip(i + 1), depth, n as int, d, fold, cap));
            assert(old(out)@ + items_text(im, depth, n as int, d, fold, cap) =~= out@ + items_text(
                im.skip(i + 1),
                depth,
                n as int,
                d,
                fold,
                cap,
            ));
        }
        i = i + 1;
    }
    proof {
        assert(im.skip(im.len() as int) =~= Seq::<ValueModel>::empty());
        assert(final(out)@ =~= old(out)@ + items_text(im, depth, n as int, d, fold, cap));
    }
}

/// Writes one list element after its dash.
#[verifier::loop_isolation(false)]
fn write_elem(
    out: &mut Vec<char>,
    v: &JsonValue,
    pad: &Vec<char>,
    Ghost(depth): Ghost<int>,
    n: usize,
    d: char,
    fold: bool,
    cap: Option<usize>,
)
    requires
        depth >= 0,
        pad@ == indent_sp(n as int, depth),
    ensures
        final(out)@ == old(out)@ + elem_text(v.m(), depth, n as int, d, fold, cap),
    decreases *v, 2int, 0int,
{
    match v {
        JsonValue::Primitive(p) => {
            write_prim(out, p, d);
        },
        JsonValue::Object(entries) => {
            if entries.len() == 0 {
                out.push('{');
                out.push('}');
                proof {
                    lemma_entries_m(entries@);
                    assert(final(out)@ =~= old(out)@ + elem_text(
                        v.m(),
                        depth,
                        n as int,
                        d,
                        fold,
                        cap,
                    ));
                }
            } else {
                proof {
                    assert(decreases_to!(*v => *entries));
                }
                write_obj_body(out, entries, pad, Ghost(depth), n, d, fold, cap);
                proof {
                    lemma_entries_m(entries@);
                }
            }
        },
        JsonValue::Array(items) => {
            if items.len() == 0 {
                out.push('[');
                out.push(']');
                proof {
                    lemma_seq_m(items@);
                    assert(final(out)@ =~= old(out)@ + elem_text(
                        v.m(),
                        depth,
                        n as int,
                        d,
                        fold,
                        cap,
                    ));
                }
            } else {
                proof {
                    assert(decreases_to!(*v => *items));
                }
                write_arr0(out, items, pad, Ghost(depth), n, d, fold, cap);
                proof {
                    lemma_seq_m(items@);
                }
            }
        },
    }
}

/// Writes a non-empty object block: the first entry bare, the rest each on
/// their own line.
#[verifier::loop_isolation(false)]
fn write_obj_body(
    out: &mut Vec<char>,
    entries: &Vec<(String, JsonValue)>,
    pad: &Vec<char>,
    Ghost(depth): Ghost<int>,
    n: usize,
    d: char,
    fold: bool,
    cap: Option<usize>,
)
    requires
        depth >= 0,
        pad@ == indent_sp(n as int, depth),
        entries@.len() >= 1,
    ensures
        final(out)@ == old(out)@ + obj_body_text(entries_m(entries@), depth, n as int, d, fold, cap),
    decreases *entries, 4int, 0int,
{
    proof {
        lemma_entries_m(entries@);
        assert(decreases_to!(*entries => entries@));
        assert(decreases_to!(entries@ => entries@[0]));
        assert(decreases_to!(entries@[0] => entries@[0].1));
    }
    let ghost em = entries_m(entries@);
    let kc = str_to_chars(entries[0].0.as_str());
    write_entry(out, &kc, &entries[0].1, pad, Ghost(depth), n, d, fold, cap);
    write_obj_rest(out, entries, 1, pad, Ghost(depth), n, d, fold, cap);
    proof {
        assert(em.skip(1) =~= em.drop_first());
        assert(final(out)@ =~= old(out)@ + obj_body_text(em, depth, n as int, d, fold, cap));
    }
}

/// Writes object entries from `from` on, each on its own line at the
/// block's depth.
#[verifier::loop_isolation(false)]
fn write_obj_rest(
    out: &mut Vec<char>,
    entries: &Vec<(String, JsonValue)>,
    from: usize,
    pad: &Vec<char>,
    Ghost(depth): Ghost<int>,
    n: usize,
    d: char,
    fold: bool,
    cap: Option<usize>,
)
    requires
        depth >= 0,
        pad@ == indent_sp(n as int, depth),
        from <= entries@.len(),
    ensures
        final(out)@ == old(out)@ + obj_rest_text(
            entries_m(entries@).skip(from as int),
            depth,
            n as int,
            d,
            fold,
            cap,
        ),
    decreases *entries, 3int, 0int,
{
    proof {
        lemma_entries_m(entries@);
    }
    let ghost em = entries_m(entries@);
    let mut i: usize = from;
    while i < entries.len()
        invariant
            from <= i <= entries@.len(),
            old(out)@ + obj_rest_text(em.skip(from as int), depth, n as int, d, fold, cap) == out@
                + obj_rest_text(em.skip(i as int), depth, n as int, d, fold, cap),
        decreases entries@.len() - i,
    {
        proof {
            assert(em.skip(i as int)[0] == em[i as int]);
            assert(em.skip(i as int).drop_first() =~= em.skip(i + 1));
            assert(decreases_to!(*entries => entries@));
            assert(decreases_to!(entries@ => entries@[i as int]));
            assert(decreases_to!(entries@[i as int] => entries@[i as int].1));
        }
        out.push('\n');
        push_all(out, pad);
        let kc = str_to_chars(entries[i].0.as_str());
        write_entry(out, &kc, &entries[i].1, pad, Ghost(depth), n, d, fold, cap);
        proof {
            assert(obj_rest_text(em.skip(i as int), depth, n as int, d, fold, cap) =~= seq!['\n']
                + indent_sp(n as int, depth) + entry_text(
                em[i as int].0,
                em[i as int].1,
                depth,
                n as int,
                d,
                fold,
                cap,
            ) + obj_rest_text(em.skip(i + 1), depth, n as int, d, fold, cap));
            assert(old(out)@ + obj_rest_text(em.skip(from as int), depth, n as int, d, fold, cap)
                =~= out@ + obj_rest_text(em.skip(i + 1), depth, n as int, d, fold, cap));
        }
        i = i + 1;
    }
    proof {
        assert(em.skip(em.len() as int) =~= Seq::<(Seq<char>, ValueModel)>::empty());
        assert(final(out)@ =~= old(out)@ + obj_rest_text(
            em.skip(from as int),
            depth,
            n as int,
            d,
            fold,
            cap,
        ));
    }
}

/// Encodes a value as TOON text: exactly `encode_text` of the value's
/// mathematical form under the effective options.  The same value and
/// options always give the same text.
pub fn encode(value: JsonValue, options: Option<EncodeOptions>) -> (r: String)
    ensures
        r@ == encode_text(
            value.m(),
            crate::options::enc_indent(options),
            crate::options::enc_delim(options),
            crate::options::enc_folding(options),
            crate::options::enc_flatten(options),
        ),
{
    let n = crate::options::get_enc_indent(&options);
    let d = crate::options::get_enc_delim(&options);
    let fold = crate::options::get_enc_folding(&options);
    let cap = crate::options::get_enc_flatten(&options);
    let mut out: Vec<char> = Vec::new();
    let pad: Vec<char> = Vec::new();
    proof {
        assert(pad@ =~= indent_sp(n as int, 0));
    }
    match &value {
        JsonValue::Primitive(p) => {
            write_prim(&mut out, p, d);
        },
        JsonValue::Object(entries) => {
            if entries.len() == 0 {
                out.push('{');
                out.push('}');
                proof {
                    lemma_entries_m(entries@);
                    assert(out@ =~= seq!['{', '}']);
                }
            } else {
                write_obj_body(&mut out, entries, &pad, Ghost(0), n, d, fold, cap);
            }
        },
        JsonValue::Array(items) => {
            if items.len() == 0 {
                out.push('[');
                out.push(']');
                proof {
                    lemma_seq_m(items@);
                    assert(out@ =~= seq!['[', ']']);
                }
            } else {
                write_arr0(&mut out, items, &pad, Ghost(0), n, d, fold, cap);
                proof {
                    assert(out@ =~= Seq::<char>::empty() + out@);
                }
            }
        },
    }
    crate::chars::chars_to_string(&out)
}

/// An array of objects with one uniform scalar schema is always emitted
/// in the table form: the header carries the column names of the first
/// element, and each element becomes one row of cells in column order.
pub proof fn lemma_encoder_chooses_table(
    ktext: Seq<char>,
    items: Seq<ValueModel>,
    depth: int,
    n: int,
    d: char,
    fold: bool,
    cap: Option<usize>,
)
    requires
        is_tabular(items),
    ensures
        arr_text(ktext, items, depth, n, d, fold, cap) == ktext + seq!['[']
            + crate::error::dec_digits(items.len()) + seq![']'] + seq!['{'] + cols_text(
            table_cols(items),
            d,
        ) + seq!['}', ':'] + table_delim_mark(d) + rows_text(
            table_cols(items),
            items,
            depth + 1,
            n,
            d,
        ),
{
    assert(items[0] is Obj);
    assert(!(items[0] is Prim));
    assert(!all_prims(items));
    assert(arr_text(ktext, items, depth, n, d, fold, cap) =~= ktext + seq!['[']
        + crate::error::dec_digits(items.len()) + seq![']'] + seq!['{'] + cols_text(
        table_cols(items),
        d,
    ) + seq!['}', ':'] + table_delim_mark(d) + rows_text(table_cols(items), items, depth + 1, n, d));
}

/// Encoding is deterministic: any two encodings of one value under the
/// same options are character-identical, each being `encode_text` of the
/// value's form.
pub proof fn lemma_encode_deterministic(
    r1: Seq<char>,
    r2: Seq<char>,
    v: ValueModel,
    n: int,
    d: char,
    fold: bool,
    cap: Option<usize>,
)
    requires
        r1 == encode_text(v, n, d, fold, cap),
        r2 == encode_text(v, n, d, fold, cap),
    ensures
        r1 == r2,
{
}

} // verus!
