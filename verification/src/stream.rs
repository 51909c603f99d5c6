//! The event bridge: a value as a linear, balanced, pre-order sequence of
//! events, and back.
//!
//! `events_of` fixes the sequence `encode_stream_events` emits;
//! `ev_parse` fixes what `value_of_events` accepts.  The two are inverse:
//! reading the events of a value yields the value
//! (`lemma_value_of_events_of`).

use vstd::prelude::*;

use crate::error::ErrorKind;
use crate::error::ToonError;
use crate::error::make_error;
use crate::lexicon::key_needs_quotes;
use crate::options::EncodeOptions;
use crate::value::JsonValue;
use crate::value::PrimModel;
use crate::value::StringOrNumberOrBoolOrNull;
use crate::value::ValueModel;
use crate::value::entries_m;
use crate::value::lemma_entries_m;
use crate::value::lemma_seq_m;
use crate::value::seq_m;

verus! {

broadcast use vstd::std_specs::vec::group_vec_axioms;

/// One event of the stream form of a value.
#[derive(Debug, PartialEq)]
pub enum JsonStreamEvent {
    StartObject,
    /// An object key; `was_quoted` is the key quoting predicate's verdict.
    Key { key: String, was_quoted: bool },
    Primitive { value: StringOrNumberOrBoolOrNull },
    /// The length is advisory: the events up to `EndArray` decide.
    StartArray { length: usize },
    EndArray,
    EndObject,
}

/// The mathematical form of an event.
#[verifier::ext_equal]
pub enum EventModel {
    StartObj,
    Key(Seq<char>, bool),
    Prim(PrimModel),
    StartArr(int),
    EndArr,
    EndObj,
}

impl JsonStreamEvent {
    /// The mathematical form of this event.
    pub open spec fn m(self) -> EventModel {
        match self {
            JsonStreamEvent::StartObject => EventModel::StartObj,
            JsonStreamEvent::Key { key, was_quoted } => EventModel::Key(key@, was_quoted),
            JsonStreamEvent::Primitive { value } => EventModel::Prim(value.m()),
            JsonStreamEvent::StartArray { length } => EventModel::StartArr(length as int),
            JsonStreamEvent::EndArray => EventModel::EndArr,
            JsonStreamEvent::EndObject => EventModel::EndObj,
        }
    }
}

/// The mathematical forms of a vector of events.
pub open spec fn evs_m(s: Seq<JsonStreamEvent>) -> Seq<EventModel> {
    Seq::new(s.len(), |i: int| s[i].m())
}

/// The pre-order event sequence of a value.
pub open spec fn events_of(v: ValueModel) -> Seq<EventModel>
    decreases v, 1int,
{
    match v {
        ValueModel::Prim(p) => seq![EventModel::Prim(p)],
        ValueModel::Arr(items) => seq![EventModel::StartArr(items.len() as int)] + events_of_seq(
            items,
        ) + seq![EventModel::EndArr],
        ValueModel::Obj(entries) => seq![EventModel::StartObj] + events_of_entries(entries) + seq![
            EventModel::EndObj,
        ],
    }
}

/// The concatenated events of the elements of an array.
pub open spec fn events_of_seq(items: Seq<ValueModel>) -> Seq<EventModel>
    decreases items, 0int,
{
    if items.len() == 0 {
        Seq::empty()
    } else {
        events_of(items[0]) + events_of_seq(items.drop_first())
    }
}

/// The concatenated key and value events of an object's entries.
pub open spec fn events_of_entries(entries: Seq<(Seq<char>, ValueModel)>) -> Seq<EventModel>
    decreases entries, 0int,
{
    if entries.len() == 0 {
        Seq::empty()
    } else {
        seq![EventModel::Key(entries[0].0, key_needs_quotes(entries[0].0))] + events_of(
            entries[0].1,
        ) + events_of_entries(entries.drop_first())
    }
}

// --- reading events back ---

/// Reads one value from the events at `i`: what `value_of_events`
/// accepts.  `None` is a mismatched end or an unexpected event.
pub open spec fn ev_parse(s: Seq<EventModel>, i: int) -> Option<(ValueModel, int)>
    decreases s.len() - i, 0int,
{
    if i < 0 || i >= s.len() {
        None
    } else {
        match s[i] {
            EventModel::Prim(p) => Some((ValueModel::Prim(p), i + 1)),
            EventModel::StartArr(_) => match ev_parse_items(s, i + 1) {
                Option::None => None,
                Option::Some((items, j)) => Some((ValueModel::Arr(items), j)),
            },
            EventModel::StartObj => match ev_parse_entries(s, i + 1) {
                Option::None => None,
                Option::Some((entries, j)) => Some((ValueModel::Obj(entries), j)),
            },
            _ => None,
        }
    }
}

/// Reads array elements up to the matching `EndArr`.
pub open spec fn ev_parse_items(s: Seq<EventModel>, i: int) -> Option<(Seq<ValueModel>, int)>
    decreases s.len() - i, 1int,
{
    if i < 0 || i >= s.len() {
        None
    } else if s[i] == EventModel::EndArr {
        Some((Seq::empty(), i + 1))
    } else {
        match ev_parse(s, i) {
            Option::None => None,
            Option::Some((v, j)) => if i < j {
                match ev_parse_items(
                    s,
                    if j <= s.len() {
                        j
                    } else {
                        s.len() as int
                    },
                ) {
                    Option::None => None,
                    Option::Some((rest, k)) => Some((seq![v] + rest, k)),
                }
            } else {
                None
            },
        }
    }
}

/// Reads key/value pairs up to the matching `EndObj`.
pub open spec fn ev_parse_entries(s: Seq<EventModel>, i: int) -> Option<
    (Seq<(Seq<char>, ValueModel)>, int),
>
    decreases s.len() - i, 1int,
{
    if i < 0 || i >= s.len() {
        None
    } else if s[i] == EventModel::EndObj {
        Some((Seq::empty(), i + 1))
    } else {
        match s[i] {
            EventModel::Key(k, _) => match ev_parse(s, i + 1) {
                Option::None => None,
                Option::Some((v, j)) => if i + 1 < j {
                    match ev_parse_entries(
                        s,
                        if j <= s.len() {
                            j
                        } else {
                            s.len() as int
                        },
                    ) {
                        Option::None => None,
                        Option::Some((rest, end)) => Some((seq![(k, v)] + rest, end)),
                    }
                } else {
                    None
                },
            },
            _ => None,
        }
    }
}

/// A value's events begin with a scalar or an opener, never an end or a
/// key, and there is at least one of them.
proof fn lemma_events_head(v: ValueModel)
    ensures
        events_of(v).len() >= 1,
        events_of(v)[0] != EventModel::EndArr,
        events_of(v)[0] != EventModel::EndObj,
        !(events_of(v)[0] is Key),
{
    match v {
        ValueModel::Prim(p) => {},
        ValueModel::Arr(items) => {},
        ValueModel::Obj(entries) => {},
    }
}

/// Reading a value's events out of any surrounding stream yields the
/// value and stops right after them.
pub proof fn lemma_ev_parse_events(pre: Seq<EventModel>, v: ValueModel, post: Seq<EventModel>)
    ensures
        ev_parse(pre + events_of(v) + post, pre.len() as int) == Some(
            (v, pre.len() as int + events_of(v).len() as int),
        ),
    decreases v, 1int,
{
    let s = pre + events_of(v) + post;
    let i = pre.len() as int;
    match v {
        ValueModel::Prim(p) => {
            assert(s[i] == EventModel::Prim(p));
        },
        ValueModel::Arr(items) => {
            assert(s[i] == EventModel::StartArr(items.len() as int));
            let pre2 = pre + seq![EventModel::StartArr(items.len() as int)];
            lemma_ev_items(pre2, items, post);
            assert(pre2 + events_of_seq(items) + seq![EventModel::EndArr] + post =~= s);
            assert(ev_parse_items(s, i + 1) == Some(
                (items, pre2.len() as int + events_of_seq(items).len() as int + 1),
            ));
        },
        ValueModel::Obj(entries) => {
            assert(s[i] == EventModel::StartObj);
            let pre2 = pre + seq![EventModel::StartObj];
            lemma_ev_entries(pre2, entries, post);
            assert(pre2 + events_of_entries(entries) + seq![EventModel::EndObj] + post =~= s);
            assert(ev_parse_entries(s, i + 1) == Some(
                (entries, pre2.len() as int + events_of_entries(entries).len() as int + 1),
            ));
        },
    }
}

/// Reading element events up to the closing end yields the elements.
proof fn lemma_ev_items(pre: Seq<EventModel>, items: Seq<ValueModel>, post: Seq<EventModel>)
    ensures
        ev_parse_items(pre + events_of_seq(items) + seq![EventModel::EndArr] + post, pre.len() as int)
            == Some((items, pre.len() as int + events_of_seq(items).len() as int + 1)),
    decreases items, 0int,
{
    let s = pre + events_of_seq(items) + seq![EventModel::EndArr] + post;
    let i = pre.len() as int;
    if items.len() == 0 {
        assert(s[i] == EventModel::EndArr);
        assert(Seq::<ValueModel>::empty() =~= items);
    } else {
        let v0 = items[0];
        lemma_events_head(v0);
        assert(s[i] == events_of(v0)[0]);
        assert(s[i] != EventModel::EndArr);
        let post2 = events_of_seq(items.drop_first()) + seq![EventModel::EndArr] + post;
        lemma_ev_parse_events(pre, v0, post2);
        assert(pre + events_of(v0) + post2 =~= s);
        let j: int = pre.len() as int + events_of(v0).len() as int;
        assert(ev_parse(s, i) == Some((v0, j)));
        assert(i < j);
        assert(j <= s.len());
        let pre2 = pre + events_of(v0);
        lemma_ev_items(pre2, items.drop_first(), post);
        assert(pre2 + events_of_seq(items.drop_first()) + seq![EventModel::EndArr] + post =~= s);
        assert(ev_parse_items(s, j) == Some(
            (items.drop_first(), pre2.len() as int + events_of_seq(items.drop_first()).len() as int + 1),
        ));
        assert(seq![v0] + items.drop_first() =~= items);
        assert(events_of_seq(items).len() == events_of(v0).len() + events_of_seq(
            items.drop_first(),
        ).len());
    }
}

/// Reading entry events up to the closing end yields the entries.
proof fn lemma_ev_entries(
    pre: Seq<EventModel>,
    entries: Seq<(Seq<char>, ValueModel)>,
    post: Seq<EventModel>,
)
    ensures
        ev_parse_entries(
            pre + events_of_entries(entries) + seq![EventModel::EndObj] + post,
            pre.len() as int,
        ) == Some((entries, pre.len() as int + events_of_entries(entries).len() as int + 1)),
    decreases entries, 0int,
{
    let s = pre + events_of_entries(entries) + seq![EventModel::EndObj] + post;
    let i = pre.len() as int;
    if entries.len() == 0 {
        assert(s[i] == EventModel::EndObj);
        assert(Seq::<(Seq<char>, ValueModel)>::empty() =~= entries);
    } else {
        let k0 = entries[0].0;
        let v0 = entries[0].1;
        let kev = EventModel::Key(k0, key_needs_quotes(k0));
        assert(s[i] == kev);
        assert(s[i] != EventModel::EndObj);
        let post2 = events_of_entries(entries.drop_first()) + seq![EventModel::EndObj] + post;
        let pre1 = pre + seq![kev];
        lemma_ev_parse_events(pre1, v0, post2);
        assert(pre1 + events_of(v0) + post2 =~= s);
        let j: int = pre1.len() as int + events_of(v0).len() as int;
        assert(ev_parse(s, i + 1) == Some((v0, j)));
        lemma_events_head(v0);
        assert(i + 1 < j);
        assert(j <= s.len());
        let pre2 = pre1 + events_of(v0);
        lemma_ev_entries(pre2, entries.drop_first(), post);
        assert(pre2 + events_of_entries(entries.drop_first()) + seq![EventModel::EndObj] + post
            =~= s);
        assert(ev_parse_entries(s, j) == Some(
            (entries.drop_first(), pre2.len() as int + events_of_entries(entries.drop_first()).len() as int + 1),
        ));
        assert(seq![(k0, v0)] + entries.drop_first() =~= entries);
        assert(events_of_entries(entries).len() == 1 + events_of(v0).len() + events_of_entries(
            entries.drop_first(),
        ).len());
    }
}

/// The event bridge inverts: reading the events of a value yields the
/// value, consuming them all.
pub proof fn lemma_value_of_events_of(v: ValueModel)
    ensures
        ev_parse(events_of(v), 0) == Some((v, events_of(v).len() as int)),
{
    lemma_ev_parse_events(Seq::empty(), v, Seq::empty());
    assert(Seq::<EventModel>::empty() + events_of(v) + Seq::<EventModel>::empty() =~= events_of(
        v,
    ));
}

// --- executable bridge ---

/// Appends the events of a value in pre-order.
#[verifier::loop_isolation(false)]
fn push_events(out: &mut Vec<JsonStreamEvent>, v: &JsonValue)
    ensures
        evs_m(final(out)@) == evs_m(old(out)@) + events_of(v.m()),
    decreases *v, 1int,
{
    match v {
        JsonValue::Primitive(p) => {
            out.push(JsonStreamEvent::Primitive { value: p.clone() });
            proof {
                assert(evs_m(out@) =~= evs_m(old(out)@) + events_of(v.m()));
            }
        },
        JsonValue::Array(items) => {
            proof {
                lemma_seq_m(items@);
                assert(decreases_to!(*v => *items));
            }
            let ghost im = seq_m(items@);
            out.push(JsonStreamEvent::StartArray { length: items.len() });
            proof {
                assert(evs_m(out@) =~= evs_m(old(out)@) + seq![
                    EventModel::StartArr(im.len() as int),
                ]);
                assert(im.skip(0) =~= im);
            }
            let mut i: usize = 0;
            while i < items.len()
                invariant
                    i <= items@.len(),
                    evs_m(old(out)@) + seq![EventModel::StartArr(im.len() as int)]
                        + events_of_seq(im) == evs_m(out@) + events_of_seq(im.skip(i as int)),
                decreases items@.len() - i,
            {
                proof {
                    assert(im.skip(i as int)[0] == im[i as int]);
                    assert(im.skip(i as int).drop_first() =~= im.skip(i + 1));
                    assert(decreases_to!(*items => items@));
                    assert(decreases_to!(items@ => items@[i as int]));
                }
                push_events(out, &items[i]);
                proof {
                    assert(events_of_seq(im.skip(i as int)) =~= events_of(im[i as int])
                        + events_of_seq(im.skip(i + 1)));
                    assert(evs_m(old(out)@) + seq![EventModel::StartArr(im.len() as int)]
                        + events_of_seq(im) =~= evs_m(out@) + events_of_seq(im.skip(i + 1)));
                }
                i = i + 1;
            }
            proof {
                assert(im.skip(im.len() as int) =~= Seq::<ValueModel>::empty());
                assert(events_of_seq(im.skip(im.len() as int)) == Seq::<EventModel>::empty());
                assert(evs_m(out@) + events_of_seq(im.skip(im.len() as int)) =~= evs_m(out@));
            }
            let ghost before = out@;
            out.push(JsonStreamEvent::EndArray);
            proof {
                assert forall|k: int| 0 <= k < out@.len() implies evs_m(out@)[k] == evs_m(
                    before,
                ).push(EventModel::EndArr)[k] by {
                    if k < before.len() {
                        assert(out@[k] == before[k]);
                        assert(evs_m(before)[k] == before[k].m());
                    }
                }
                assert(evs_m(out@) =~= evs_m(before).push(EventModel::EndArr));
                assert(evs_m(before).push(EventModel::EndArr) =~= evs_m(old(out)@) + events_of(
                    v.m(),
                ));
            }
        },
        JsonValue::Object(entries) => {
            proof {
                lemma_entries_m(entries@);
                assert(decreases_to!(*v => *entries));
            }
            let ghost em = entries_m(entries@);
            out.push(JsonStreamEvent::StartObject);
            proof {
                assert(evs_m(out@) =~= evs_m(old(out)@) + seq![EventModel::StartObj]);
                assert(em.skip(0) =~= em);
            }
            let mut i: usize = 0;
            while i < entries.len()
                invariant
                    i <= entries@.len(),
                    evs_m(old(out)@) + seq![EventModel::StartObj] + events_of_entries(em)
                        == evs_m(out@) + events_of_entries(em.skip(i as int)),
                decreases entries@.len() - i,
            {
                proof {
                    assert(em.skip(i as int)[0] == em[i as int]);
                    assert(em.skip(i as int).drop_first() =~= em.skip(i + 1));
                    assert(decreases_to!(*entries => entries@));
                    assert(decreases_to!(entries@ => entries@[i as int]));
                    assert(decreases_to!(entries@[i as int] => entries@[i as int].1));
                }
                let kc = crate::chars::str_to_chars(entries[i].0.as_str());
                let wq = crate::lexicon::key_quotes_needed(&kc);
                out.push(JsonStreamEvent::Key { key: entries[i].0.clone(), was_quoted: wq });
                push_events(out, &entries[i].1);
                proof {
                    assert(events_of_entries(em.skip(i as int)) =~= seq![
                        EventModel::Key(em[i as int].0, key_needs_quotes(em[i as int].0)),
                    ] + events_of(em[i as int].1) + events_of_entries(em.skip(i + 1)));
                    assert(evs_m(old(out)@) + seq![EventModel::StartObj] + events_of_entries(em)
                        =~= evs_m(out@) + events_of_entries(em.skip(i + 1)));
                }
                i = i + 1;
            }
            proof {
                assert(em.skip(em.len() as int) =~= Seq::<(Seq<char>, ValueModel)>::empty());
                assert(events_of_entries(em.skip(em.len() as int)) == Seq::<EventModel>::empty());
                assert(evs_m(out@) + events_of_entries(em.skip(em.len() as int)) =~= evs_m(out@));
            }
            let ghost before = out@;
            out.push(JsonStreamEvent::EndObject);
            proof {
                assert forall|k: int| 0 <= k < out@.len() implies evs_m(out@)[k] == evs_m(
                    before,
                ).push(EventModel::EndObj)[k] by {
                    if k < before.len() {
                        assert(out@[k] == before[k]);
                        assert(evs_m(before)[k] == before[k].m());
                    }
                }
                assert(evs_m(out@) =~= evs_m(before).push(EventModel::EndObj));
                assert(evs_m(before).push(EventModel::EndObj) =~= evs_m(old(out)@) + events_of(
                    v.m(),
                ));
            }
        },
    }
}

/// The pre-order events of a value: exactly `events_of` of its form.
/// Options carry no setting that changes the events (the only value
/// transform is the identity).
pub fn encode_stream_events(value: JsonValue, options: Option<EncodeOptions>) -> (r: Vec<
    JsonStreamEvent,
>)
    ensures
        evs_m(r@) == events_of(value.m()),
{
    let _ = options;
    let mut out: Vec<JsonStreamEvent> = Vec::new();
    push_events(&mut out, &value);
    proof {
        assert(evs_m(out@) =~= events_of(value.m()));
    }
    out
}

/// Reads one value from the events at `i`; exactly `ev_parse`.
#[verifier::loop_isolation(false)]
fn ev_value(events: &Vec<JsonStreamEvent>, i: usize) -> (r: Result<(JsonValue, usize), ToonError>)
    requires
        i <= events@.len(),
    ensures
        r matches Ok((v, ni)) ==> ev_parse(evs_m(events@), i as int) == Some((v.m(), ni as int))
            && i < ni <= events@.len(),
        r matches Err(e) ==> ev_parse(evs_m(events@), i as int) is None && e.kind
            == ErrorKind::Structure,
    decreases events@.len() - i, 1int,
{
    // binding the length as a machine word bounds the indices below
    let el: usize = events.len();
    let ghost s = evs_m(events@);
    if i >= events.len() {
        return Err(make_error(ErrorKind::Structure, 1, i, "unexpected end of events"));
    }
    match &events[i] {
        JsonStreamEvent::Primitive { value } => {
            proof {
                assert(s[i as int] == events@[i as int].m());
            }
            Ok((JsonValue::Primitive(value.clone()), i + 1))
        },
        JsonStreamEvent::StartArray { .. } => {
            proof {
                assert(s[i as int] == events@[i as int].m());
            }
            let mut items: Vec<JsonValue> = Vec::new();
            let mut j: usize = i + 1;
            loop
                invariant
                    i < j <= events@.len(),
                    ev_parse_items(s, i + 1) == (match ev_parse_items(s, j as int) {
                        Option::None => Option::<(Seq<ValueModel>, int)>::None,
                        Option::Some((rest, k)) => Option::Some(
                            (seq_m(items@) + rest, k),
                        ),
                    }),
                decreases events@.len() - j,
            {
                proof {
                    lemma_seq_m(items@);
                }
                if j >= events.len() {
                    proof {
                        assert(ev_parse_items(s, j as int) is None);
                    }
                    return Err(
                        make_error(ErrorKind::Structure, 1, j, "unterminated array events"),
                    );
                }
                let is_end = match &events[j] {
                    JsonStreamEvent::EndArray => true,
                    _ => false,
                };
                if is_end {
                    proof {
                        assert(s[j as int] == EventModel::EndArr);
                        assert(ev_parse_items(s, j as int) == Some(
                            (Seq::<ValueModel>::empty(), j + 1 as int),
                        ));
                        assert(seq_m(items@) + Seq::<ValueModel>::empty() =~= seq_m(items@));
                        assert(ev_parse(s, i as int) == Some(
                            (ValueModel::Arr(seq_m(items@)), j + 1 as int),
                        ));
                    }
                    let ghost itemsg = items@;
                    let result = JsonValue::Array(items);
                    proof {
                        assert(result.m() == ValueModel::Arr(seq_m(itemsg)));
                    }
                    return Ok((result, j + 1));
                }
                let ghost j0 = j;
                let ghost items0 = items@;
                let (v, nj) = ev_value(events, j)?;
                proof {
                    assert(s[j0 as int] != EventModel::EndArr);
                    assert(ev_parse(s, j0 as int) == Some((v.m(), nj as int)));
                }
                items.push(v);
                proof {
                    lemma_seq_m(items@);
                    lemma_seq_m(items0);
                    assert forall|k: int| 0 <= k < items@.len() implies seq_m(items@)[k] == seq_m(
                        items0,
                    ).push(v.m())[k] by {
                        assert(seq_m(items@)[k] == items@[k].m());
                        if k < items0.len() {
                            assert(items@[k] == items0[k]);
                            assert(seq_m(items0)[k] == items0[k].m());
                        }
                    }
                    assert(seq_m(items@) =~= seq_m(items0).push(v.m()));
                    assert(ev_parse_items(s, j0 as int) == (match ev_parse_items(s, nj as int) {
                        Option::None => Option::<(Seq<ValueModel>, int)>::None,
                        Option::Some((rest, k)) => Option::Some((seq![v.m()] + rest, k)),
                    }));
                    match ev_parse_items(s, nj as int) {
                        Option::None => {},
                        Option::Some((rest, k)) => {
                            assert(seq_m(items0) + (seq![v.m()] + rest) =~= seq_m(items@) + rest);
                        },
                    }
                }
                j = nj;
            }
        },
        JsonStreamEvent::StartObject => {
            proof {
                assert(s[i as int] == events@[i as int].m());
            }
            let mut entries: Vec<(String, JsonValue)> = Vec::new();
            let mut j: usize = i + 1;
            loop
                invariant
                    i < j <= events@.len(),
                    ev_parse_entries(s, i + 1) == (match ev_parse_entries(s, j as int) {
                        Option::None => Option::<(Seq<(Seq<char>, ValueModel)>, int)>::None,
                        Option::Some((rest, k)) => Option::Some(
                            (entries_m(entries@) + rest, k),
                        ),
                    }),
                decreases events@.len() - j,
            {
                proof {
                    lemma_entries_m(entries@);
                }
                if j >= events.len() {
                    return Err(
                        make_error(ErrorKind::Structure, 1, j, "unterminated object events"),
                    );
                }
                let is_end = match &events[j] {
                    JsonStreamEvent::EndObject => true,
                    _ => false,
                };
                if is_end {
                    proof {
                        assert(s[j as int] == EventModel::EndObj);
                        assert(entries_m(entries@) + Seq::<(Seq<char>, ValueModel)>::empty()
                            =~= entries_m(entries@));
                        assert(ev_parse(s, i as int) == Some(
                            (ValueModel::Obj(entries_m(entries@)), j + 1 as int),
                        ));
                    }
                    let ghost eg = entries@;
                    let result = JsonValue::Object(entries);
                    proof {
                        assert(result.m() == ValueModel::Obj(entries_m(eg)));
                    }
                    return Ok((result, j + 1));
                }
                let key: String = match &events[j] {
                    JsonStreamEvent::Key { key, .. } => key.clone(),
                    _ => {
                        let msg = match &events[j] {
                            JsonStreamEvent::EndArray => "Mismatched endArray",
                            _ => "unexpected event in object",
                        };
                        proof {
                            assert(!(s[j as int] is Key));
                            assert(s[j as int] != EventModel::EndObj);
                            assert(ev_parse_entries(s, j as int) is None);
                        }
                        return Err(make_error(ErrorKind::Structure, 1, j, msg));
                    },
                };
                let ghost j0 = j;
                let ghost entries0 = entries@;
                proof {
                    assert(s[j0 as int] matches EventModel::Key(k, _) && k == key@);
                }
                if j + 1 > events.len() {
                    return Err(
                        make_error(ErrorKind::Structure, 1, j, "unterminated object events"),
                    );
                }
                let (v, nj) = ev_value(events, j + 1)?;
                entries.push((key, v));
                proof {
                    lemma_entries_m(entries@);
                    lemma_entries_m(entries0);
                    assert forall|k: int| 0 <= k < entries@.len() implies entries_m(entries@)[k]
                        == entries_m(entries0).push((key@, v.m()))[k] by {
                        assert(entries_m(entries@)[k] == (entries@[k].0@, entries@[k].1.m()));
                        if k < entries0.len() {
                            assert(entries@[k] == entries0[k]);
                            assert(entries_m(entries0)[k] == (entries0[k].0@, entries0[k].1.m()));
                        }
                    }
                    assert(entries_m(entries@) =~= entries_m(entries0).push((key@, v.m())));
                    assert(ev_parse_entries(s, j0 as int) == (match ev_parse_entries(
                        s,
                        nj as int,
                    ) {
                        Option::None => Option::<(Seq<(Seq<char>, ValueModel)>, int)>::None,
                        Option::Some((rest, k)) => Option::Some((seq![(key@, v.m())] + rest, k)),
                    }));
                    match ev_parse_entries(s, nj as int) {
                        Option::None => {},
                        Option::Some((rest, k)) => {
                            assert(entries_m(entries0) + (seq![(key@, v.m())] + rest)
                                =~= entries_m(entries@) + rest);
                        },
                    }
                }
                j = nj;
            }
        },
        JsonStreamEvent::Key { .. } => {
            Err(make_error(ErrorKind::Structure, 1, i, "unexpected key event"))
        },
        JsonStreamEvent::EndArray => {
            Err(make_error(ErrorKind::Structure, 1, i, "Mismatched endArray"))
        },
        JsonStreamEvent::EndObject => {
            Err(make_error(ErrorKind::Structure, 1, i, "Mismatched endObject"))
        },
    }
}

/// Rebuilds the value of a balanced, well-nested event sequence; a
/// mismatched end, an unexpected event, or trailing events fail.
pub fn value_of_events(events: Vec<JsonStreamEvent>) -> (r: Result<JsonValue, ToonError>)
    ensures
        r matches Ok(v) ==> ev_parse(evs_m(events@), 0) == Some(
            (v.m(), events@.len() as int),
        ),
        r matches Err(e) ==> (ev_parse(evs_m(events@), 0) is None || !(ev_parse(
            evs_m(events@),
            0,
        ) matches Some((_, j)) && j == events@.len())),
{
    let (v, ni) = ev_value(&events, 0)?;
    if ni != events.len() {
        return Err(make_error(ErrorKind::Structure, 1, ni, "trailing events"));
    }
    Ok(v)
}

/// The tail of the joined lines from index `i` on: each line prefixed by
/// a newline.
pub open spec fn sp_join(ls: Seq<Seq<char>>, i: int) -> Seq<char>
    decreases ls.len() - i,
{
    if i < 0 || i >= ls.len() {
        Seq::empty()
    } else {
        seq!['\n'] + ls[i] + sp_join(ls, i + 1)
    }
}

/// The lines joined with newlines: the text whose decode the stream
/// reports.
pub open spec fn joined_lines(ls: Seq<Seq<char>>) -> Seq<char> {
    if ls.len() == 0 {
        Seq::empty()
    } else {
        ls[0] + sp_join(ls, 1)
    }
}

/// The views of a vector of strings.
pub open spec fn strs_m(s: Seq<String>) -> Seq<Seq<char>> {
    Seq::new(s.len(), |i: int| s[i]@)
}

/// The events of the value that the joined lines decode to: exactly
/// `events_of` of `sp_decode_value` on the newline-joined text under the
/// effective options — a balanced pre-order walk of a well-formed value,
/// with a decode error carried as its diagnostic string value.
#[verifier::loop_isolation(false)]
pub fn decode_stream_sync(lines: Vec<String>, options: Option<crate::options::DecodeOptions>) -> (r:
    Vec<JsonStreamEvent>)
    ensures
        evs_m(r@) == events_of(
            crate::decode::sp_decode_value(
                joined_lines(strs_m(lines@)),
                crate::options::dec_indent(options),
                crate::options::dec_strict(options),
                crate::options::dec_expand(options),
            ),
        ),
{
    let ghost lsv = strs_m(lines@);
    let mut text: Vec<char> = Vec::new();
    let mut i: usize = 0;
    while i < lines.len()
        invariant
            i <= lines@.len(),
            i == 0 ==> text@ == Seq::<char>::empty(),
            i >= 1 ==> joined_lines(lsv) == text@ + sp_join(lsv, i as int),
        decreases lines@.len() - i,
    {
        let ghost text0 = text@;
        if i > 0 {
            text.push('\n');
        }
        let lc = crate::chars::str_to_chars(lines[i].as_str());
        crate::encode::push_all(&mut text, &lc);
        proof {
            assert(lc@ == lsv[i as int]);
            if i == 0 {
                assert(text@ =~= lsv[0]);
                if lines@.len() == 1 {
                    assert(sp_join(lsv, 1) == Seq::<char>::empty());
                    assert(joined_lines(lsv) =~= text@ + sp_join(lsv, 1));
                } else {
                    assert(joined_lines(lsv) =~= text@ + sp_join(lsv, 1));
                }
            } else {
                assert(text@ =~= text0 + seq!['\n'] + lsv[i as int]);
                assert(sp_join(lsv, i as int) == seq!['\n'] + lsv[i as int] + sp_join(
                    lsv,
                    i + 1,
                ));
                assert(text0 + sp_join(lsv, i as int) =~= text@ + sp_join(lsv, i + 1));
            }
        }
        i = i + 1;
    }
    proof {
        if lines@.len() == 0 {
            assert(text@ =~= joined_lines(lsv));
        } else {
            assert(sp_join(lsv, lines@.len() as int) == Seq::<char>::empty());
            assert(text@ + sp_join(lsv, lines@.len() as int) =~= text@);
        }
    }
    let joined = crate::chars::chars_to_string(&text);
    let value = crate::decode::decode(joined.as_str(), options);
    let r = encode_stream_events(value, None);
    r
}

} // verus!
