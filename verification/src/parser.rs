//! The event assembler and the events reader: from a tokenized property
//! sequence to typed event records.

use vstd::prelude::*;

use crate::props::{item_view, item_views, ItemView, PropView, RawItem, TokErrView, TokenizeError};
use crate::text::{str_eq, to_upper, upper_seq};
use crate::types::{
    coerce_dt_spec, coerce_int_spec, coerce_text_spec, IcalDateTime, IcalDateTimeView, IcalInt,
    IcalText,
};

verus! {

/// The assembled output record of one event component. Construction is
/// all-or-nothing: a value of this type always has every field populated per
/// the schema, required fields included.
pub struct Event {
    pub created: Option<IcalDateTime>,
    pub description: Option<String>,
    pub dt_stamp: Option<IcalDateTime>,
    pub dt_start: IcalDateTime,
    pub dt_end: Option<IcalDateTime>,
    pub last_modified: Option<IcalDateTime>,
    pub location: Option<String>,
    pub sequence: i32,
    pub summary: Option<String>,
    pub uid: String,
}

/// The spec-level shape of an assembled event.
pub struct EventView {
    pub created: Option<IcalDateTimeView>,
    pub description: Option<Seq<char>>,
    pub dt_stamp: Option<IcalDateTimeView>,
    pub dt_start: IcalDateTimeView,
    pub dt_end: Option<IcalDateTimeView>,
    pub last_modified: Option<IcalDateTimeView>,
    pub location: Option<Seq<char>>,
    pub sequence: i32,
    pub summary: Option<Seq<char>>,
    pub uid: Seq<char>,
}

pub open spec fn dt_opt_view(d: Option<IcalDateTime>) -> Option<IcalDateTimeView> {
    match d {
        Some(d) => Some(d@),
        None => None,
    }
}

impl View for Event {
    type V = EventView;

    open spec fn view(&self) -> EventView {
        EventView {
            created: dt_opt_view(self.created),
            description: self.description.deep_view(),
            dt_stamp: dt_opt_view(self.dt_stamp),
            dt_start: self.dt_start@,
            dt_end: dt_opt_view(self.dt_end),
            last_modified: dt_opt_view(self.last_modified),
            location: self.location.deep_view(),
            sequence: self.sequence,
            summary: self.summary.deep_view(),
            uid: self.uid@,
        }
    }
}

/// The spec-level shape of a parse error.
pub enum CalErrView {
    MissingProperty(Seq<char>),
    InvalidPropertyValue { property: Seq<char>, found: Seq<char>, expected: Seq<char> },
    UnknownProperty(Seq<char>),
    ParserError(TokErrView),
}

/// The error taxonomy of event parsing.
#[derive(Debug)]
pub enum CalendarParseError {
    /// A required field was never observed before the event component closed.
    MissingProperty(&'static str),
    /// A recognized property's value could not be coerced to its declared
    /// type; `found` is the literal offending text, `expected` the type name.
    InvalidPropertyValue { property: &'static str, found: String, expected: &'static str },
    /// Reserved for strict-mode validation; never raised by the current
    /// policy, which ignores unknown properties.
    UnknownProperty(String),
    /// A tokenizer-level error, carried through opaquely.
    ParserError(TokenizeError),
}

impl View for CalendarParseError {
    type V = CalErrView;

    open spec fn view(&self) -> CalErrView {
        match self {
            CalendarParseError::MissingProperty(f) => CalErrView::MissingProperty(f@),
            CalendarParseError::InvalidPropertyValue { property, found, expected } => {
                CalErrView::InvalidPropertyValue {
                    property: property@,
                    found: found@,
                    expected: expected@,
                }
            },
            CalendarParseError::UnknownProperty(n) => CalErrView::UnknownProperty(n@),
            CalendarParseError::ParserError(e) => CalErrView::ParserError(e@),
        }
    }
}

/// The running field state of one event component's assembly.
pub struct AsmState {
    pub created: Option<IcalDateTimeView>,
    pub description: Option<Seq<char>>,
    pub dt_start: Option<IcalDateTimeView>,
    pub dt_stamp: Option<IcalDateTimeView>,
    pub dt_end: Option<IcalDateTimeView>,
    pub last_modified: Option<IcalDateTimeView>,
    pub location: Option<Seq<char>>,
    pub sequence: i32,
    pub summary: Option<Seq<char>>,
    pub uid: Option<Seq<char>>,
}

/// The state before any property is seen: every field at its default, the
/// schema default `0` for `sequence`.
pub open spec fn init_state() -> AsmState {
    AsmState {
        created: None,
        description: None,
        dt_start: None,
        dt_stamp: None,
        dt_end: None,
        last_modified: None,
        location: None,
        sequence: 0,
        summary: None,
        uid: None,
    }
}

/// One assembly step: case-fold the property name, look it up in the field
/// schema, coerce on a match (overwriting the field, so a repeated property's
/// last occurrence wins), ignore an unknown name, and fail with the coercer's
/// diagnostic on a coercion failure.
pub open spec fn asm_step(st: AsmState, p: PropView) -> Result<AsmState, CalErrView> {
    let n = upper_seq(p.name);
    if n == "CREATED"@ {
        match coerce_dt_spec(p) {
            Ok(v) => Ok(AsmState { created: Some(v), ..st }),
            Err(found) => Err(
                CalErrView::InvalidPropertyValue {
                    property: "CREATED"@,
                    found,
                    expected: "DATE-TIME"@,
                },
            ),
        }
    } else if n == "DESCRIPTION"@ {
        Ok(AsmState { description: Some(coerce_text_spec(p)), ..st })
    } else if n == "DTSTART"@ {
        match coerce_dt_spec(p) {
            Ok(v) => Ok(AsmState { dt_start: Some(v), ..st }),
            Err(found) => Err(
                CalErrView::InvalidPropertyValue {
                    property: "DTSTART"@,
                    found,
                    expected: "DATE-TIME"@,
                },
            ),
        }
    } else if n == "DTSTAMP"@ {
        match coerce_dt_spec(p) {
            Ok(v) => Ok(AsmState { dt_stamp: Some(v), ..st }),
            Err(found) => Err(
                CalErrView::InvalidPropertyValue {
                    property: "DTSTAMP"@,
                    found,
                    expected: "DATE-TIME"@,
                },
            ),
        }
    } else if n == "DTEND"@ {
        match coerce_dt_spec(p) {
            Ok(v) => Ok(AsmState { dt_end: Some(v), ..st }),
            Err(found) => Err(
                CalErrView::InvalidPropertyValue {
                    property: "DTEND"@,
                    found,
                    expected: "DATE-TIME"@,
                },
            ),
        }
    } else if n == "LAST-MODIFIED"@ {
        match coerce_dt_spec(p) {
            Ok(v) => Ok(AsmState { last_modified: Some(v), ..st }),
            Err(found) => Err(
                CalErrView::InvalidPropertyValue {
                    property: "LAST-MODIFIED"@,
                    found,
                    expected: "DATE-TIME"@,
                },
            ),
        }
    } else if n == "LOCATION"@ {
        Ok(AsmState { location: Some(coerce_text_spec(p)), ..st })
    } else if n == "SEQUENCE"@ {
        match coerce_int_spec(p) {
            Ok(v) => Ok(AsmState { sequence: v, ..st }),
            Err(found) => Err(
                CalErrView::InvalidPropertyValue {
                    property: "SEQUENCE"@,
                    found,
                    expected: "INT"@,
                },
            ),
        }
    } else if n == "SUMMARY"@ {
        Ok(AsmState { summary: Some(coerce_text_spec(p)), ..st })
    } else if n == "UID"@ {
        Ok(AsmState { uid: Some(coerce_text_spec(p)), ..st })
    } else {
        Ok(st)
    }
}

/// Fail-fast assembly over a property sequence: a tokenizer-level item fails
/// immediately, a coercion failure aborts with that failure, and otherwise
/// each property updates the state in order.
pub open spec fn asm_fold(st: AsmState, items: Seq<ItemView>) -> Result<AsmState, CalErrView>
    decreases items.len(),
{
    if items.len() == 0 {
        Ok(st)
    } else {
        match items[0] {
            Err(e) => Err(CalErrView::ParserError(e)),
            Ok(p) => match asm_step(st, p) {
                Err(e) => Err(e),
                Ok(st2) => asm_fold(st2, items.drop_first()),
            },
        }
    }
}

/// The required-field check after the sequence is exhausted: `DTSTART` is
/// checked before `UID`, and a missing one fails naming that field.
pub open spec fn finish_spec(st: AsmState) -> Result<EventView, CalErrView> {
    match (st.dt_start, st.uid) {
        (None, _) => Err(CalErrView::MissingProperty("DTSTART"@)),
        (Some(_), None) => Err(CalErrView::MissingProperty("UID"@)),
        (Some(ds), Some(u)) => Ok(
            EventView {
                created: st.created,
                description: st.description,
                dt_stamp: st.dt_stamp,
                dt_start: ds,
                dt_end: st.dt_end,
                last_modified: st.last_modified,
                location: st.location,
                sequence: st.sequence,
                summary: st.summary,
                uid: u,
            },
        ),
    }
}

/// What assembling one event component's property sequence returns.
pub open spec fn assemble_spec(items: Seq<ItemView>) -> Result<EventView, CalErrView> {
    match asm_fold(init_state(), items) {
        Err(e) => Err(e),
        Ok(st) => finish_spec(st),
    }
}

/// Assembly of a concatenation runs the left part first; only if it stays
/// clean does the right part run from the state the left part reached.
pub proof fn lemma_asm_fold_split(st: AsmState, a: Seq<ItemView>, b: Seq<ItemView>)
    ensures
        asm_fold(st, a + b) == (match asm_fold(st, a) {
            Ok(st2) => asm_fold(st2, b),
            Err(e) => Err(e),
        }),
    decreases a.len(),
{
    if a.len() == 0 {
        assert(a + b =~= b);
    } else {
        assert((a + b)[0] == a[0]);
        assert((a + b).drop_first() =~= a.drop_first() + b);
        match a[0] {
            Err(_) => {},
            Ok(p) => {
                match asm_step(st, p) {
                    Err(_) => {},
                    Ok(st2) => {
                        lemma_asm_fold_split(st2, a.drop_first(), b);
                    },
                }
            },
        }
    }
}

/// The case-folded property names the field schema recognizes.
pub open spec fn is_schema_name(n: Seq<char>) -> bool {
    ||| n == "CREATED"@
    ||| n == "DESCRIPTION"@
    ||| n == "DTSTART"@
    ||| n == "DTSTAMP"@
    ||| n == "DTEND"@
    ||| n == "LAST-MODIFIED"@
    ||| n == "LOCATION"@
    ||| n == "SEQUENCE"@
    ||| n == "SUMMARY"@
    ||| n == "UID"@
}

/// A property whose case-folded name is not in the field schema never
/// causes failure and leaves the assembly state unchanged, so it cannot
/// appear in the resulting event.
pub proof fn lemma_unknown_property_ignored(st: AsmState, p: PropView)
    requires
        !is_schema_name(upper_seq(p.name)),
    ensures
        asm_step(st, p) == Ok::<AsmState, CalErrView>(st),
{
}

/// Whether an item is a property whose case-folded name is `n`.
pub open spec fn names_prop(item: ItemView, n: Seq<char>) -> bool {
    match item {
        Ok(p) => upper_seq(p.name) == n,
        Err(_) => false,
    }
}

proof fn lemma_fold_no_dtstart(st: AsmState, items: Seq<ItemView>)
    requires
        asm_fold(st, items) is Ok,
        forall|i: int| 0 <= i < items.len() ==> !names_prop(#[trigger] items[i], "DTSTART"@),
    ensures
        asm_fold(st, items)->Ok_0.dt_start == st.dt_start,
    decreases items.len(),
{
    if items.len() > 0 {
        match items[0] {
            Err(_) => {
                assert(false);
            },
            Ok(p) => {
                match asm_step(st, p) {
                    Err(_) => {
                        assert(false);
                    },
                    Ok(st2) => {
                        assert(st2.dt_start == st.dt_start);
                        assert forall|i: int|
                            0 <= i < items.drop_first().len() implies !names_prop(
                            #[trigger] items.drop_first()[i],
                            "DTSTART"@,
                        ) by {
                            assert(items.drop_first()[i] == items[i + 1]);
                        }
                        lemma_fold_no_dtstart(st2, items.drop_first());
                    },
                }
            },
        }
    }
}

proof fn lemma_fold_no_uid(st: AsmState, items: Seq<ItemView>)
    requires
        asm_fold(st, items) is Ok,
        forall|i: int| 0 <= i < items.len() ==> !names_prop(#[trigger] items[i], "UID"@),
    ensures
        asm_fold(st, items)->Ok_0.uid == st.uid,
    decreases items.len(),
{
    if items.len() > 0 {
        match items[0] {
            Err(_) => {
                assert(false);
            },
            Ok(p) => {
                match asm_step(st, p) {
                    Err(_) => {
                        assert(false);
                    },
                    Ok(st2) => {
                        assert(st2.uid == st.uid);
                        assert forall|i: int|
                            0 <= i < items.drop_first().len() implies !names_prop(
                            #[trigger] items.drop_first()[i],
                            "UID"@,
                        ) by {
                            assert(items.drop_first()[i] == items[i + 1]);
                        }
                        lemma_fold_no_uid(st2, items.drop_first());
                    },
                }
            },
        }
    }
}

proof fn lemma_fold_no_sequence(st: AsmState, items: Seq<ItemView>)
    requires
        asm_fold(st, items) is Ok,
        forall|i: int| 0 <= i < items.len() ==> !names_prop(#[trigger] items[i], "SEQUENCE"@),
    ensures
        asm_fold(st, items)->Ok_0.sequence == st.sequence,
    decreases items.len(),
{
    if items.len() > 0 {
        match items[0] {
            Err(_) => {
                assert(false);
            },
            Ok(p) => {
                match asm_step(st, p) {
                    Err(_) => {
                        assert(false);
                    },
                    Ok(st2) => {
                        assert(st2.sequence == st.sequence);
                        assert forall|i: int|
                            0 <= i < items.drop_first().len() implies !names_prop(
                            #[trigger] items.drop_first()[i],
                            "SEQUENCE"@,
                        ) by {
                            assert(items.drop_first()[i] == items[i + 1]);
                        }
                        lemma_fold_no_sequence(st2, items.drop_first());
                    },
                }
            },
        }
    }
}

/// A body whose items are all processed cleanly but that never names
/// `DTSTART` assembles to `MissingProperty("DTSTART")`, whatever else it
/// holds.
pub proof fn lemma_missing_dtstart(items: Seq<ItemView>)
    requires
        asm_fold(init_state(), items) is Ok,
        forall|i: int| 0 <= i < items.len() ==> !names_prop(#[trigger] items[i], "DTSTART"@),
    ensures
        assemble_spec(items) == Err::<EventView, CalErrView>(
            CalErrView::MissingProperty("DTSTART"@),
        ),
{
    lemma_fold_no_dtstart(init_state(), items);
}

/// A body whose items are all processed cleanly, that sets `DTSTART` but
/// never names `UID`, assembles to `MissingProperty("UID")`, whatever else
/// it holds.
pub proof fn lemma_missing_uid(items: Seq<ItemView>)
    requires
        asm_fold(init_state(), items) is Ok,
        asm_fold(init_state(), items)->Ok_0.dt_start is Some,
        forall|i: int| 0 <= i < items.len() ==> !names_prop(#[trigger] items[i], "UID"@),
    ensures
        assemble_spec(items) == Err::<EventView, CalErrView>(CalErrView::MissingProperty("UID"@)),
{
    lemma_fold_no_uid(init_state(), items);
}

/// A body whose items are all processed cleanly and that never names
/// `SEQUENCE` assembles with the schema default `sequence == 0`.
pub proof fn lemma_sequence_default(items: Seq<ItemView>)
    requires
        asm_fold(init_state(), items) is Ok,
        forall|i: int| 0 <= i < items.len() ==> !names_prop(#[trigger] items[i], "SEQUENCE"@),
    ensures
        asm_fold(init_state(), items)->Ok_0.sequence == 0,
        assemble_spec(items) is Ok ==> assemble_spec(items)->Ok_0.sequence == 0,
{
    lemma_fold_no_sequence(init_state(), items);
}

/// Assembly over a single item is one tokenizer-error check and one step.
pub proof fn lemma_asm_fold_singleton(st: AsmState, item: ItemView)
    ensures
        asm_fold(st, seq![item]) == (match item {
            Err(e) => Err::<AsmState, CalErrView>(CalErrView::ParserError(e)),
            Ok(p) => asm_step(st, p),
        }),
{
    assert(seq![item][0] == item);
    assert(seq![item].drop_first() =~= Seq::<ItemView>::empty());
    match item {
        Err(_) => {},
        Ok(p) => {
            match asm_step(st, p) {
                Err(_) => {},
                Ok(st2) => {
                    assert(asm_fold(st2, seq![item].drop_first()) == Ok::<AsmState, CalErrView>(
                        st2,
                    ));
                },
            }
        },
    }
}

/// Among repeated `SEQUENCE` properties the last occurrence wins: the
/// assembled state carries the coerced value of the last one.
pub proof fn lemma_sequence_last_wins(items: Seq<ItemView>, j: int)
    requires
        asm_fold(init_state(), items) is Ok,
        0 <= j < items.len(),
        names_prop(items[j], "SEQUENCE"@),
        forall|i: int| j < i < items.len() ==> !names_prop(#[trigger] items[i], "SEQUENCE"@),
    ensures
        coerce_int_spec(items[j]->Ok_0) is Ok,
        asm_fold(init_state(), items)->Ok_0.sequence == coerce_int_spec(items[j]->Ok_0)->Ok_0,
        assemble_spec(items) is Ok ==> assemble_spec(items)->Ok_0.sequence == coerce_int_spec(
            items[j]->Ok_0,
        )->Ok_0,
{
    reveal_strlit("CREATED");
    reveal_strlit("DESCRIPTION");
    reveal_strlit("DTSTART");
    reveal_strlit("DTSTAMP");
    reveal_strlit("DTEND");
    reveal_strlit("LAST-MODIFIED");
    reveal_strlit("LOCATION");
    reveal_strlit("SEQUENCE");
    let pre = items.take(j + 1);
    let post = items.skip(j + 1);
    assert(items =~= pre + post);
    lemma_asm_fold_split(init_state(), pre, post);
    assert(asm_fold(init_state(), pre) is Ok);
    let pre0 = items.take(j);
    assert(pre =~= pre0 + seq![items[j]]);
    lemma_asm_fold_split(init_state(), pre0, seq![items[j]]);
    assert(asm_fold(init_state(), pre0) is Ok);
    let stj0 = asm_fold(init_state(), pre0)->Ok_0;
    let p = items[j]->Ok_0;
    assert(items[j] is Ok);
    assert(seq![items[j]].drop_first() =~= Seq::<ItemView>::empty());
    assert(asm_fold(init_state(), pre) == asm_fold(stj0, seq![items[j]]));
    assert("CREATED"@.len() == 7);
    assert("DESCRIPTION"@.len() == 11);
    assert("DTSTART"@.len() == 7);
    assert("DTSTAMP"@.len() == 7);
    assert("DTEND"@.len() == 5);
    assert("LAST-MODIFIED"@.len() == 13);
    assert("LOCATION"@.len() == 8);
    assert("SEQUENCE"@.len() == 8);
    assert("LOCATION"@[0] == 'L');
    assert("SEQUENCE"@[0] == 'S');
    assert(upper_seq(p.name) == "SEQUENCE"@);
    assert(upper_seq(p.name) != "CREATED"@);
    assert(upper_seq(p.name) != "DESCRIPTION"@);
    assert(upper_seq(p.name) != "DTSTART"@);
    assert(upper_seq(p.name) != "DTSTAMP"@);
    assert(upper_seq(p.name) != "DTEND"@);
    assert(upper_seq(p.name) != "LAST-MODIFIED"@);
    assert(upper_seq(p.name) != "LOCATION"@);
    lemma_asm_fold_singleton(stj0, items[j]);
    assert(asm_fold(stj0, seq![items[j]]) == asm_step(stj0, p));
    assert(coerce_int_spec(p) is Ok);
    let stj = asm_fold(init_state(), pre)->Ok_0;
    assert(stj.sequence == coerce_int_spec(p)->Ok_0);
    assert forall|i: int| 0 <= i < post.len() implies !names_prop(
        #[trigger] post[i],
        "SEQUENCE"@,
    ) by {
        assert(post[i] == items[j + 1 + i]);
    }
    assert(asm_fold(stj, post) is Ok);
    lemma_fold_no_sequence(stj, post);
}

/// Reverse a vector by moving its items onto a fresh one, back to front.
fn reverse_vec<T>(v: Vec<T>) -> (r: Vec<T>)
    ensures
        r@ == v@.reverse(),
{
    let ghost orig = v@;
    let mut input = v;
    let mut out: Vec<T> = Vec::new();
    while input.len() > 0
        invariant
            input@.len() <= orig.len(),
            input@ == orig.subrange(0, input@.len() as int),
            out@ == orig.skip(input@.len() as int).reverse(),
        decreases input.len(),
    {
        let ghost m = input@.len() as int;
        match input.pop() {
            Some(x) => {
                proof {
                    assert(input@ =~= orig.subrange(0, m - 1));
                    assert(x == orig[m - 1]);
                }
                out.push(x);
                proof {
                    assert(out@ =~= orig.skip(m - 1).reverse());
                }
            },
            None => {
                proof {
                    assert(false);
                }
            },
        }
    }
    proof {
        assert(orig.skip(0) =~= orig);
        assert(out@ =~= orig.reverse());
    }
    out
}

/// The running exec-side field state of one assembly.
struct Builder {
    created: Option<IcalDateTime>,
    description: Option<String>,
    dt_start: Option<IcalDateTime>,
    dt_stamp: Option<IcalDateTime>,
    dt_end: Option<IcalDateTime>,
    last_modified: Option<IcalDateTime>,
    location: Option<String>,
    sequence: i32,
    summary: Option<String>,
    uid: Option<String>,
}

impl View for Builder {
    type V = AsmState;

    closed spec fn view(&self) -> AsmState {
        AsmState {
            created: dt_opt_view(self.created),
            description: self.description.deep_view(),
            dt_start: dt_opt_view(self.dt_start),
            dt_stamp: dt_opt_view(self.dt_stamp),
            dt_end: dt_opt_view(self.dt_end),
            last_modified: dt_opt_view(self.last_modified),
            location: self.location.deep_view(),
            sequence: self.sequence,
            summary: self.summary.deep_view(),
            uid: self.uid.deep_view(),
        }
    }
}

impl Event {
    /// Assemble one event component from the ordered items between its
    /// opening and closing markers (markers excluded), per
    /// [`assemble_spec`]: fail-fast on tokenizer items and coercion
    /// failures, last occurrence wins for repeated properties, unknown
    /// properties are ignored, and a missing required field fails naming it.
    pub fn from_properties(properties: Vec<RawItem>) -> (r: Result<Event, CalendarParseError>)
        ensures
            match r {
                Ok(ev) => assemble_spec(item_views(properties@)) == Ok::<EventView, CalErrView>(
                    ev@,
                ),
                Err(e) => assemble_spec(item_views(properties@)) == Err::<EventView, CalErrView>(
                    e@,
                ),
            },
    {
        let ghost orig = properties@;
        let ghost all = item_views(orig);
        let mut stack = reverse_vec(properties);
        let mut b = Builder {
            created: None,
            description: None,
            dt_start: None,
            dt_stamp: None,
            dt_end: None,
            last_modified: None,
            location: None,
            sequence: 0,
            summary: None,
            uid: None,
        };
        let ghost mut i: int = 0;
        proof {
            assert(orig.skip(0) =~= orig);
            assert(b@ == init_state());
        }
        while stack.len() > 0
            invariant
                0 <= i <= orig.len(),
                orig == properties@,
                stack@ == orig.skip(i).reverse(),
                all == item_views(orig),
                asm_fold(init_state(), all) == asm_fold(b@, item_views(orig.skip(i))),
            decreases stack.len(),
        {
            let ghost tail = item_views(orig.skip(i));
            proof {
                assert(orig.skip(i).len() > 0);
                assert(tail[0] == item_view(orig[i]));
                assert(tail.drop_first() =~= item_views(orig.skip(i + 1)));
            }
            let item = match stack.pop() {
                Some(item) => item,
                None => {
                    proof {
                        assert(false);
                    }
                    return Err(CalendarParseError::MissingProperty("DTSTART"));
                },
            };
            proof {
                assert(item == orig.skip(i).reverse().last());
                assert(orig.skip(i).reverse().last() == orig[i]);
                assert(stack@ =~= orig.skip(i + 1).reverse());
            }
            let p = match item {
                Ok(p) => p,
                Err(e) => {
                    return Err(CalendarParseError::ParserError(e));
                },
            };
            let ghost st0 = b@;
            let name_upper = to_upper(p.name.as_str());
            let n = name_upper.as_str();
            if str_eq(n, "CREATED") {
                match IcalDateTime::parse(p) {
                    Ok(v) => {
                        b.created = Some(v);
                    },
                    Err(found) => {
                        return Err(
                            CalendarParseError::InvalidPropertyValue {
                                property: "CREATED",
                                found,
                                expected: "DATE-TIME",
                            },
                        );
                    },
                }
            } else if str_eq(n, "DESCRIPTION") {
                let v = match IcalText::parse(p) {
                    Ok(v) => v,
                    Err(v) => v,
                };
                b.description = Some(v);
            } else if str_eq(n, "DTSTART") {
                match IcalDateTime::parse(p) {
                    Ok(v) => {
                        b.dt_start = Some(v);
                    },
                    Err(found) => {
                        return Err(
                            CalendarParseError::InvalidPropertyValue {
                                property: "DTSTART",
                                found,
                                expected: "DATE-TIME",
                            },
                        );
                    },
                }
            } else if str_eq(n, "DTSTAMP") {
                match IcalDateTime::parse(p) {
                    Ok(v) => {
                        b.dt_stamp = Some(v);
                    },
                    Err(found) => {
                        return Err(
                            CalendarParseError::InvalidPropertyValue {
                                property: "DTSTAMP",
                                found,
                                expected: "DATE-TIME",
                            },
                        );
                    },
                }
            } else if str_eq(n, "DTEND") {
                match IcalDateTime::parse(p) {
                    Ok(v) => {
                        b.dt_end = Some(v);
                    },
                    Err(found) => {
                        return Err(
                            CalendarParseError::InvalidPropertyValue {
                                property: "DTEND",
                                found,
                                expected: "DATE-TIME",
                            },
                        );
                    },
                }
            } else if str_eq(n, "LAST-MODIFIED") {
                match IcalDateTime::parse(p) {
                    Ok(v) => {
                        b.last_modified = Some(v);
                    },
                    Err(found) => {
                        return Err(
                            CalendarParseError::InvalidPropertyValue {
                                property: "LAST-MODIFIED",
                                found,
                                expected: "DATE-TIME",
                            },
                        );
                    },
                }
            } else if str_eq(n, "LOCATION") {
                let v = match IcalText::parse(p) {
                    Ok(v) => v,
                    Err(v) => v,
                };
                b.location = Some(v);
            } else if str_eq(n, "SEQUENCE") {
                match IcalInt::parse(p) {
                    Ok(v) => {
                        b.sequence = v;
                    },
                    Err(found) => {
                        return Err(
                            CalendarParseError::InvalidPropertyValue {
                                property: "SEQUENCE",
                                found,
                                expected: "INT",
                            },
                        );
                    },
                }
            } else if str_eq(n, "SUMMARY") {
                let v = match IcalText::parse(p) {
                    Ok(v) => v,
                    Err(v) => v,
                };
                b.summary = Some(v);
            } else if str_eq(n, "UID") {
                let v = match IcalText::parse(p) {
                    Ok(v) => v,
                    Err(v) => v,
                };
                b.uid = Some(v);
            }
            proof {
                assert(asm_step(st0, tail[0]->Ok_0) == Ok::<AsmState, CalErrView>(b@));
                i = i + 1;
            }
        }
        proof {
            assert(orig.skip(i).reverse().len() == 0);
            assert(orig.skip(i).len() == 0);
            assert(item_views(orig.skip(i)).len() == 0);
            assert(asm_fold(b@, item_views(orig.skip(i))) == Ok::<AsmState, CalErrView>(b@));
        }
        let dt_start = match b.dt_start {
            Some(d) => d,
            None => {
                return Err(CalendarParseError::MissingProperty("DTSTART"));
            },
        };
        let uid = match b.uid {
            Some(u) => u,
            None => {
                return Err(CalendarParseError::MissingProperty("UID"));
            },
        };
        Ok(
            Event {
                created: b.created,
                description: b.description,
                dt_stamp: b.dt_stamp,
                dt_start,
                dt_end: b.dt_end,
                last_modified: b.last_modified,
                location: b.location,
                sequence: b.sequence,
                summary: b.summary,
                uid,
            },
        )
    }
}

/// The spec-level reader state.
pub enum RStateView {
    /// Outside any component.
    Scanning,
    /// Inside the outer wrapper component.
    InWrapper,
    /// Inside a component kind the reader does not model, discarding
    /// properties until a closing marker of the same name; the flag records
    /// the enclosing state to resume.
    Skipping { name: Seq<char>, in_wrapper: bool },
}

enum ReaderState {
    Scanning,
    InWrapper,
    Skipping { name: String, in_wrapper: bool },
}

pub open spec fn is_begin(p: PropView) -> bool {
    upper_seq(p.name) == "BEGIN"@
}

pub open spec fn is_end(p: PropView) -> bool {
    upper_seq(p.name) == "END"@
}

/// Whether an item is the closing marker of an event component.
pub open spec fn is_event_end(item: ItemView) -> bool {
    match item {
        Ok(p) => is_end(p) && p.value == Some("VEVENT"@),
        Err(_) => false,
    }
}

/// The items of one event component's body: everything up to, not
/// including, the first closing event marker (or the whole rest of the
/// stream if no such marker follows).
pub open spec fn event_span(items: Seq<ItemView>) -> Seq<ItemView>
    decreases items.len(),
{
    if items.len() == 0 {
        Seq::empty()
    } else if is_event_end(items[0]) {
        Seq::empty()
    } else {
        seq![items[0]] + event_span(items.drop_first())
    }
}

/// The items that follow an event component's closing marker.
pub open spec fn after_event_span(items: Seq<ItemView>) -> Seq<ItemView>
    decreases items.len(),
{
    if items.len() == 0 {
        Seq::empty()
    } else if is_event_end(items[0]) {
        items.drop_first()
    } else {
        after_event_span(items.drop_first())
    }
}

pub proof fn lemma_after_span_len(items: Seq<ItemView>)
    ensures
        after_event_span(items).len() <= items.len(),
    decreases items.len(),
{
    if items.len() > 0 && !is_event_end(items[0]) {
        lemma_after_span_len(items.drop_first());
    }
}

/// The whole output sequence the reader produces from a given state over a
/// given item sequence: one result per discovered event component, one error
/// item per tokenizer-level error or marker without a component name, and
/// nothing for the wrapper, for unknown components, or for stray properties.
pub open spec fn reader_outputs(st: RStateView, items: Seq<ItemView>) -> Seq<
    Result<EventView, CalErrView>,
>
    decreases items.len(),
    via reader_outputs_decreases
{
    if items.len() == 0 {
        Seq::empty()
    } else {
        let rest = items.drop_first();
        match items[0] {
            Err(e) => seq![Err(CalErrView::ParserError(e))] + reader_outputs(st, rest),
            Ok(p) => match st {
                RStateView::Skipping { name, in_wrapper } => {
                    if is_end(p) && p.value == Some(name) {
                        if in_wrapper {
                            reader_outputs(RStateView::InWrapper, rest)
                        } else {
                            reader_outputs(RStateView::Scanning, rest)
                        }
                    } else {
                        reader_outputs(st, rest)
                    }
                },
                _ => {
                    if is_begin(p) {
                        match p.value {
                            None => seq![
                                Err(CalErrView::ParserError(TokErrView::InvalidComponent)),
                            ] + reader_outputs(st, rest),
                            Some(v) => {
                                if v == "VCALENDAR"@ {
                                    reader_outputs(RStateView::InWrapper, rest)
                                } else if v == "VEVENT"@ {
                                    seq![assemble_spec(event_span(rest))] + reader_outputs(
                                        st,
                                        after_event_span(rest),
                                    )
                                } else {
                                    reader_outputs(
                                        RStateView::Skipping {
                                            name: v,
                                            in_wrapper: st is InWrapper,
                                        },
                                        rest,
                                    )
                                }
                            },
                        }
                    } else if is_end(p) && p.value == Some("VCALENDAR"@) {
                        reader_outputs(RStateView::Scanning, rest)
                    } else {
                        reader_outputs(st, rest)
                    }
                },
            },
        }
    }
}

#[via_fn]
proof fn reader_outputs_decreases(st: RStateView, items: Seq<ItemView>) {
    if items.len() > 0 {
        lemma_after_span_len(items.drop_first());
    }
}

/// The spec-level shape of one yielded result.
pub open spec fn out_view(r: Result<Event, CalendarParseError>) -> Result<EventView, CalErrView> {
    match r {
        Ok(ev) => Ok(ev@),
        Err(e) => Err(e@),
    }
}

fn is_event_end_x(item: &RawItem) -> (r: bool)
    ensures
        r == is_event_end(item_view(*item)),
{
    match item {
        Ok(p) => {
            let n = to_upper(p.name.as_str());
            if str_eq(n.as_str(), "END") {
                match &p.value {
                    Some(v) => str_eq(v.as_str(), "VEVENT"),
                    None => false,
                }
            } else {
                false
            }
        },
        Err(_) => false,
    }
}

/// A pull-based reader over a tokenized item sequence: it unwraps the outer
/// wrapper component, yields one result per event component, skips unknown
/// component kinds, and surfaces tokenizer-level errors as their own items.
pub struct EventsReader {
    stack: Vec<RawItem>,
    state: ReaderState,
}

impl EventsReader {
    /// The items the reader has not consumed yet, in order.
    pub closed spec fn remaining(self) -> Seq<ItemView> {
        item_views(self.stack@.reverse())
    }

    /// The reader's current state.
    pub closed spec fn state_view(self) -> RStateView {
        match self.state {
            ReaderState::Scanning => RStateView::Scanning,
            ReaderState::InWrapper => RStateView::InWrapper,
            ReaderState::Skipping { name, in_wrapper } => RStateView::Skipping {
                name: name@,
                in_wrapper,
            },
        }
    }

    /// Build a reader over a tokenizer's output sequence, starting outside
    /// any component.
    pub fn new(items: Vec<RawItem>) -> (r: EventsReader)
        ensures
            r.remaining() == item_views(items@),
            r.state_view() == RStateView::Scanning,
    {
        let stack = reverse_vec(items);
        proof {
            assert(items@.reverse().reverse() =~= items@);
        }
        EventsReader { stack, state: ReaderState::Scanning }
    }

    /// Pull the next result: the head of [`reader_outputs`] over the
    /// reader's state and unconsumed items, or nothing once no output is
    /// left; the items consumed for it are gone, so a fresh reader is needed
    /// to reparse.
    pub fn next(&mut self) -> (r: Option<Result<Event, CalendarParseError>>)
        ensures
            ({
                let outs = reader_outputs(old(self).state_view(), old(self).remaining());
                match r {
                    None => outs.len() == 0 && final(self).remaining().len() == 0,
                    Some(item) => {
                        &&& outs.len() > 0
                        &&& out_view(item) == outs[0]
                        &&& reader_outputs(final(self).state_view(), final(self).remaining())
                            == outs.drop_first()
                    },
                }
            }),
    {
        let ghost outs0 = reader_outputs(self.state_view(), self.remaining());
        while self.stack.len() > 0
            invariant
                outs0 == reader_outputs(old(self).state_view(), old(self).remaining()),
                outs0 == reader_outputs(self.state_view(), self.remaining()),
            decreases self.stack.len(),
        {
            let ghost st0 = self.state_view();
            let ghost rem0 = self.remaining();
            let item = match self.stack.pop() {
                Some(item) => item,
                None => {
                    proof {
                        assert(false);
                    }
                    return None;
                },
            };
            proof {
                assert(rem0.len() > 0);
                assert(rem0[0] == item_view(item));
                assert(item_views(self.stack@.reverse()) =~= rem0.drop_first());
            }
            let ghost rest = rem0.drop_first();
            let p = match item {
                Ok(p) => p,
                Err(e) => {
                    return Some(Err(CalendarParseError::ParserError(e)));
                },
            };
            let name_upper = to_upper(p.name.as_str());
            let n = name_upper.as_str();
            let in_skip = matches!(self.state, ReaderState::Skipping { .. });
            if in_skip {
                let mut resume: Option<bool> = None;
                if str_eq(n, "END") {
                    match (&self.state, &p.value) {
                        (ReaderState::Skipping { name, in_wrapper }, Some(v)) => {
                            if str_eq(v.as_str(), name.as_str()) {
                                resume = Some(*in_wrapper);
                            }
                        },
                        _ => {},
                    }
                }
                match resume {
                    Some(true) => {
                        self.state = ReaderState::InWrapper;
                    },
                    Some(false) => {
                        self.state = ReaderState::Scanning;
                    },
                    None => {},
                }
                proof {
                    assert(outs0 == reader_outputs(self.state_view(), self.remaining()));
                }
            } else {
                if str_eq(n, "BEGIN") {
                    match p.value {
                        None => {
                            return Some(
                                Err(
                                    CalendarParseError::ParserError(
                                        TokenizeError::InvalidComponent,
                                    ),
                                ),
                            );
                        },
                        Some(v) => {
                            if str_eq(v.as_str(), "VCALENDAR") {
                                self.state = ReaderState::InWrapper;
                            } else if str_eq(v.as_str(), "VEVENT") {
                                let mut span: Vec<RawItem> = Vec::new();
                                let mut found_end = false;
                                proof {
                                    assert(item_views(span@) =~= Seq::<ItemView>::empty());
                                    assert(item_views(span@) + event_span(rest) =~= event_span(
                                        rest,
                                    ));
                                }
                                while !found_end && self.stack.len() > 0
                                    invariant
                                        self.state_view() == st0,
                                        !found_end ==> event_span(rest) == item_views(span@)
                                            + event_span(self.remaining()) && after_event_span(
                                            rest,
                                        ) == after_event_span(self.remaining()),
                                        found_end ==> item_views(span@) == event_span(rest)
                                            && self.remaining() == after_event_span(rest),
                                    decreases self.stack.len(),
                                {
                                    let ghost cur = self.remaining();
                                    let ghost span0 = span@;
                                    let item2 = match self.stack.pop() {
                                        Some(item2) => item2,
                                        None => {
                                            proof {
                                                assert(false);
                                            }
                                            return None;
                                        },
                                    };
                                    proof {
                                        assert(cur.len() > 0);
                                        assert(cur[0] == item_view(item2));
                                        assert(item_views(self.stack@.reverse())
                                            =~= cur.drop_first());
                                    }
                                    if is_event_end_x(&item2) {
                                        found_end = true;
                                        proof {
                                            assert(event_span(cur) =~= Seq::<ItemView>::empty());
                                            assert(item_views(span0) + event_span(cur)
                                                =~= item_views(span0));
                                            assert(after_event_span(cur) == cur.drop_first());
                                        }
                                    } else {
                                        span.push(item2);
                                        proof {
                                            assert(event_span(cur) == seq![cur[0]] + event_span(
                                                cur.drop_first(),
                                            ));
                                            assert(item_views(span@) =~= item_views(span0).push(
                                                item_view(item2),
                                            ));
                                            assert(item_views(span0) + (seq![item_view(item2)]
                                                + event_span(cur.drop_first())) =~= item_views(
                                                span@,
                                            ) + event_span(cur.drop_first()));
                                        }
                                    }
                                }
                                proof {
                                    if !found_end {
                                        assert(self.remaining().len() == 0);
                                        assert(event_span(self.remaining()) =~= Seq::<
                                            ItemView,
                                        >::empty());
                                        assert(after_event_span(self.remaining()) =~= Seq::<
                                            ItemView,
                                        >::empty());
                                        assert(item_views(span@) + event_span(self.remaining())
                                            =~= item_views(span@));
                                    }
                                    assert(item_views(span@) == event_span(rest));
                                    assert(self.remaining() == after_event_span(rest));
                                }
                                let result = Event::from_properties(span);
                                return Some(result);
                            } else {
                                let iw = matches!(self.state, ReaderState::InWrapper);
                                self.state = ReaderState::Skipping { name: v, in_wrapper: iw };
                            }
                        },
                    }
                } else if str_eq(n, "END") {
                    let is_cal_end = match &p.value {
                        Some(v) => str_eq(v.as_str(), "VCALENDAR"),
                        None => false,
                    };
                    if is_cal_end {
                        self.state = ReaderState::Scanning;
                    }
                }
                proof {
                    assert(outs0 == reader_outputs(self.state_view(), self.remaining()));
                }
            }
        }
        proof {
            assert(self.remaining().len() == 0);
            assert(reader_outputs(self.state_view(), self.remaining()).len() == 0);
        }
        None
    }
}

/// The views of a yielded result vector, in order.
pub open spec fn out_views(rs: Seq<Result<Event, CalendarParseError>>) -> Seq<
    Result<EventView, CalErrView>,
> {
    rs.map_values(|x: Result<Event, CalendarParseError>| out_view(x))
}

/// Pull every result out of a fresh reader over a tokenized sequence: the
/// whole output of [`reader_outputs`] from the initial state, in order.
pub fn read_all(items: Vec<RawItem>) -> (r: Vec<Result<Event, CalendarParseError>>)
    ensures
        out_views(r@) == reader_outputs(RStateView::Scanning, item_views(items@)),
{
    let ghost all = reader_outputs(RStateView::Scanning, item_views(items@));
    let mut reader = EventsReader::new(items);
    let mut out: Vec<Result<Event, CalendarParseError>> = Vec::new();
    let mut done = false;
    proof {
        assert(out_views(out@) + all =~= all);
    }
    while !done
        invariant
            all == reader_outputs(RStateView::Scanning, item_views(items@)),
            out_views(out@) + reader_outputs(reader.state_view(), reader.remaining()) == all,
            done ==> reader_outputs(reader.state_view(), reader.remaining()).len() == 0,
        decreases reader_outputs(reader.state_view(), reader.remaining()).len() + (if done {
            0int
        } else {
            1int
        }),
    {
        let ghost pending = reader_outputs(reader.state_view(), reader.remaining());
        match reader.next() {
            Some(x) => {
                out.push(x);
                proof {
                    assert(out_views(out@) =~= out_views(out@.drop_last()).push(out_view(x)));
                    assert(out_views(out@) + reader_outputs(
                        reader.state_view(),
                        reader.remaining(),
                    ) =~= out_views(out@.drop_last()) + pending);
                }
            },
            None => {
                done = true;
            },
        }
    }
    proof {
        assert(out_views(out@) =~= all);
    }
    out
}

} // verus!
