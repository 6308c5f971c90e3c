//! The type coercers: each maps one raw property to one typed value or to a
//! failure carrying the offending text.

use vstd::prelude::*;

use crate::datetime::{parse_date_time, parse_date_time_spec, DateTimeFields};
use crate::props::{PropView, RawProperty};
use crate::text::{parse_i32, parse_i32_spec, str_eq, unescape, unescape_spec};

verus! {

/// The spec-level shape of a parsed date-time value.
pub enum IcalDateTimeView {
    Naive(DateTimeFields),
    Utc(DateTimeFields),
    Tz(Seq<char>, DateTimeFields),
}

/// A parsed date-time value: exactly one of a zone-less local date-time, a
/// date-time anchored to UTC, or a local date-time paired with an IANA zone
/// identifier. A UTC marker and a zone identifier never occur together.
#[derive(Debug)]
pub enum IcalDateTime {
    Naive(DateTimeFields),
    Utc(DateTimeFields),
    Tz(String, DateTimeFields),
}

impl View for IcalDateTime {
    type V = IcalDateTimeView;

    open spec fn view(&self) -> IcalDateTimeView {
        match self {
            IcalDateTime::Naive(f) => IcalDateTimeView::Naive(*f),
            IcalDateTime::Utc(f) => IcalDateTimeView::Utc(*f),
            IcalDateTime::Tz(id, f) => IcalDateTimeView::Tz(id@, *f),
        }
    }
}

impl PartialEq for IcalDateTime {
    fn eq(&self, other: &IcalDateTime) -> (r: bool) {
        match (self, other) {
            (IcalDateTime::Naive(a), IcalDateTime::Naive(b)) => a == b,
            (IcalDateTime::Utc(a), IcalDateTime::Utc(b)) => a == b,
            (IcalDateTime::Tz(ia, a), IcalDateTime::Tz(ib, b)) => str_eq(
                ia.as_str(),
                ib.as_str(),
            ) && a == b,
            _ => false,
        }
    }
}

impl vstd::std_specs::cmp::PartialEqSpecImpl for IcalDateTime {
    open spec fn obeys_eq_spec() -> bool {
        true
    }

    open spec fn eq_spec(&self, other: &IcalDateTime) -> bool {
        self@ == other@
    }
}

/// Whether an identifier names a zone of the IANA time-zone database that
/// `chrono_tz` compiles in. The lookup depends on the identifier alone.
pub uninterp spec fn is_known_zone(id: Seq<char>) -> bool;

/// Relies on `chrono_tz::Tz::from_str`: a lookup of the identifier in the
/// compiled-in IANA zone table, `Ok` exactly when the identifier names a
/// zone of that table.
#[verifier::external_body]
fn zone_exists(id: &str) -> (r: bool)
    ensures
        r == is_known_zone(id@),
{
    id.parse::<chrono_tz::Tz>().is_ok()
}

/// The raw text value of a property, an absent value reading as empty text.
pub open spec fn prop_value_or_empty(p: PropView) -> Seq<char> {
    match p.value {
        Some(v) => v,
        None => Seq::empty(),
    }
}

/// Whether a raw date-time text carries the UTC suffix `Z`.
pub open spec fn has_z_suffix(v: Seq<char>) -> bool {
    v.len() > 0 && v.last() == 'Z'
}

/// A raw date-time text with its UTC suffix stripped, if it carries one.
pub open spec fn dt_value_body(v: Seq<char>) -> Seq<char> {
    if has_z_suffix(v) {
        v.drop_last()
    } else {
        v
    }
}

/// The zone identifier selected by a parameter list: the last `TZID`
/// parameter wins, and its last value is taken; a last `TZID` parameter
/// without values selects none.
pub open spec fn tzid_of(params: Seq<(Seq<char>, Seq<Seq<char>>)>) -> Option<Seq<char>>
    decreases params.len(),
{
    if params.len() == 0 {
        None
    } else if params.last().0 == "TZID"@ {
        if params.last().1.len() > 0 {
            Some(params.last().1.last())
        } else {
            None
        }
    } else {
        tzid_of(params.drop_last())
    }
}

/// What the date-time coercer returns: the resolution table over the UTC
/// suffix and the zone parameter, after the text (suffix stripped) parses
/// against the fixed layout; every failure carries the raw text found.
pub open spec fn coerce_dt_spec(p: PropView) -> Result<IcalDateTimeView, Seq<char>> {
    let raw = prop_value_or_empty(p);
    match parse_date_time_spec(dt_value_body(raw)) {
        None => Err(raw),
        Some(f) => match (has_z_suffix(raw), tzid_of(p.params)) {
            (true, Some(_)) => Err(raw),
            (false, Some(id)) => if is_known_zone(id) {
                Ok(IcalDateTimeView::Tz(id, f))
            } else {
                Err(raw)
            },
            (true, None) => Ok(IcalDateTimeView::Utc(f)),
            (false, None) => Ok(IcalDateTimeView::Naive(f)),
        },
    }
}

/// What the integer coercer returns: the value of the signed 32-bit decimal
/// text, or the text itself on failure.
pub open spec fn coerce_int_spec(p: PropView) -> Result<i32, Seq<char>> {
    match parse_i32_spec(prop_value_or_empty(p)) {
        Some(n) => Ok(n),
        None => Err(prop_value_or_empty(p)),
    }
}

/// What the escaped-text coercer returns: the decoded text; it never fails,
/// and an absent value decodes to empty text.
pub open spec fn coerce_text_spec(p: PropView) -> Seq<char> {
    unescape_spec(prop_value_or_empty(p))
}

/// A valid-layout text with no UTC suffix and no zone parameter coerces to
/// a `Naive` value carrying exactly the rendered fields.
pub proof fn lemma_dt_naive(p: PropView, f: DateTimeFields)
    requires
        crate::datetime::valid_fields(f),
        p.value == Some(crate::datetime::dt_text(f)),
        tzid_of(p.params) is None,
    ensures
        coerce_dt_spec(p) == Ok::<IcalDateTimeView, Seq<char>>(IcalDateTimeView::Naive(f)),
{
    let raw = prop_value_or_empty(p);
    crate::datetime::lemma_dt_text_round_trip(f);
    assert(crate::datetime::is_digit(raw.last()));
    assert(raw.last() != 'Z');
    assert(dt_value_body(raw) == raw);
}

/// The same text with a `Z` suffix appended coerces to a `Utc` value with
/// identical fields.
pub proof fn lemma_dt_utc(p: PropView, f: DateTimeFields)
    requires
        crate::datetime::valid_fields(f),
        p.value == Some(crate::datetime::dt_text(f).push('Z')),
        tzid_of(p.params) is None,
    ensures
        coerce_dt_spec(p) == Ok::<IcalDateTimeView, Seq<char>>(IcalDateTimeView::Utc(f)),
{
    let raw = prop_value_or_empty(p);
    crate::datetime::lemma_dt_text_round_trip(f);
    assert(has_z_suffix(raw));
    assert(dt_value_body(raw) =~= crate::datetime::dt_text(f));
}

/// The unsuffixed text with a zone parameter naming a known zone coerces to
/// a `Tz` value carrying that zone identifier and the same local fields.
pub proof fn lemma_dt_zoned(p: PropView, f: DateTimeFields, id: Seq<char>)
    requires
        crate::datetime::valid_fields(f),
        p.value == Some(crate::datetime::dt_text(f)),
        tzid_of(p.params) == Some(id),
        is_known_zone(id),
    ensures
        coerce_dt_spec(p) == Ok::<IcalDateTimeView, Seq<char>>(IcalDateTimeView::Tz(id, f)),
{
    let raw = prop_value_or_empty(p);
    crate::datetime::lemma_dt_text_round_trip(f);
    assert(crate::datetime::is_digit(raw.last()));
    assert(raw.last() != 'Z');
    assert(dt_value_body(raw) == raw);
}

/// A UTC suffix together with a zone parameter always fails, whatever the
/// text; the failure carries the raw text.
pub proof fn lemma_dt_utc_and_zone_conflict(p: PropView)
    requires
        has_z_suffix(prop_value_or_empty(p)),
        tzid_of(p.params) is Some,
    ensures
        coerce_dt_spec(p) == Err::<IcalDateTimeView, Seq<char>>(prop_value_or_empty(p)),
{
}

/// A zone parameter naming an unknown zone always fails, whatever the text;
/// the failure carries the raw text and nothing panics or falls back.
pub proof fn lemma_dt_unknown_zone(p: PropView, id: Seq<char>)
    requires
        tzid_of(p.params) == Some(id),
        !is_known_zone(id),
    ensures
        coerce_dt_spec(p) == Err::<IcalDateTimeView, Seq<char>>(prop_value_or_empty(p)),
{
}

fn find_tzid(params: &Option<Vec<(String, Vec<String>)>>) -> (r: Option<String>)
    ensures
        match r {
            Some(id) => tzid_of(crate::props::params_view(*params)) == Some(id@),
            None => tzid_of(crate::props::params_view(*params)) is None,
        },
{
    let ps: &Vec<(String, Vec<String>)> = match params {
        Some(ps) => ps,
        None => { return None; },
    };
    let ghost pv = ps.deep_view();
    proof {
        assert(crate::props::params_view(*params) == pv);
    }
    let mut j: usize = ps.len();
    proof {
        assert(pv.take(ps.len() as int) =~= pv);
    }
    while j > 0
        invariant
            j <= ps.len(),
            pv == ps.deep_view(),
            crate::props::params_view(*params) == pv,
            tzid_of(pv) == tzid_of(pv.take(j as int)),
        decreases j,
    {
        j = j - 1;
        let pair = &ps[j];
        proof {
            assert(pv[j as int] == pair.deep_view());
            assert(pv.take(j + 1).last() == pv[j as int]);
            assert(pv.take(j + 1).drop_last() =~= pv.take(j as int));
        }
        if str_eq(pair.0.as_str(), "TZID") {
            proof {
                let t = pv.take(j + 1);
                assert(t.len() > 0);
                assert(t.last().0 == "TZID"@);
                assert(tzid_of(pv) == tzid_of(t));
            }
            if pair.1.len() > 0 {
                let id = pair.1[pair.1.len() - 1].clone();
                proof {
                    assert(pv[j as int].1.last() == pair.1@[pair.1.len() - 1]@);
                    assert(tzid_of(pv) == Some(id@));
                }
                return Some(id);
            } else {
                proof {
                    assert(pv[j as int].1.len() == 0);
                    assert(tzid_of(pv) is None);
                }
                return None;
            }
        }
    }
    proof {
        assert(pv.take(0) =~= Seq::<(Seq<char>, Seq<Seq<char>>)>::empty());
    }
    None
}

impl IcalDateTime {
    /// Coerce one raw property to a date-time value, per [`coerce_dt_spec`]:
    /// strip an optional `Z` suffix, parse the fixed layout, then resolve the
    /// UTC marker against the zone parameter; a failure carries the raw text.
    pub fn parse(property: RawProperty) -> (r: Result<IcalDateTime, String>)
        ensures
            match r {
                Ok(dt) => coerce_dt_spec(property@) == Ok::<IcalDateTimeView, Seq<char>>(dt@),
                Err(e) => coerce_dt_spec(property@) == Err::<IcalDateTimeView, Seq<char>>(e@),
            },
    {
        let ghost pv = property@;
        let tz_id = find_tzid(&property.params);
        let value_string = match property.value {
            Some(v) => v,
            None => String::new(),
        };
        proof {
            assert(prop_value_or_empty(pv) == value_string@);
        }
        let ghost raw = value_string@;
        let n = value_string.as_str().unicode_len();
        let has_z = if n > 0 {
            value_string.as_str().get_char(n - 1) == 'Z'
        } else {
            false
        };
        let fields_opt = if has_z {
            let b = value_string.as_str().substring_char(0, n - 1);
            proof {
                assert(b@ =~= dt_value_body(raw));
            }
            parse_date_time(b)
        } else {
            parse_date_time(value_string.as_str())
        };
        let f = match fields_opt {
            Some(f) => f,
            None => { return Err(value_string); },
        };
        match (has_z, tz_id) {
            (true, Some(_)) => Err(value_string),
            (false, Some(id)) => {
                if zone_exists(id.as_str()) {
                    Ok(IcalDateTime::Tz(id, f))
                } else {
                    Err(value_string)
                }
            },
            (true, None) => Ok(IcalDateTime::Utc(f)),
            (false, None) => Ok(IcalDateTime::Naive(f)),
        }
    }
}

/// The integer coercer.
pub struct IcalInt;

impl IcalInt {
    /// Coerce one raw property to a signed 32-bit integer, per
    /// [`coerce_int_spec`]; a failure carries the literal text found.
    pub fn parse(property: RawProperty) -> (r: Result<i32, String>)
        ensures
            match r {
                Ok(n) => coerce_int_spec(property@) == Ok::<i32, Seq<char>>(n),
                Err(e) => coerce_int_spec(property@) == Err::<i32, Seq<char>>(e@),
            },
    {
        let ghost pv = property@;
        let value_string = match property.value {
            Some(v) => v,
            None => String::new(),
        };
        proof {
            assert(prop_value_or_empty(pv) == value_string@);
        }
        match parse_i32(value_string.as_str()) {
            Some(n) => Ok(n),
            None => Err(value_string),
        }
    }
}

/// The escaped-text coercer.
pub struct IcalText;

impl IcalText {
    /// Coerce one raw property to decoded text, per [`coerce_text_spec`]: an
    /// absent value reads as empty text, and escape pairs are decoded in one
    /// left-to-right pass. This coercer never fails.
    pub fn parse(property: RawProperty) -> (r: Result<String, String>)
        ensures
            r is Ok,
            coerce_text_spec(property@) == r->Ok_0@,
    {
        let ghost pv = property@;
        let value_string = match property.value {
            Some(v) => v,
            None => String::new(),
        };
        proof {
            assert(prop_value_or_empty(pv) == value_string@);
        }
        Ok(unescape(value_string.as_str()))
    }
}

} // verus!
