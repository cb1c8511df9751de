//! Range bounds: all of one range are numbers or all are strings.

use crate::error::Error;
use crate::index::value::{number_key, number_key_spec};
use crate::json::{json_wf, Json, JsonV};
use crate::model::predicate::opt_json;
use vstd::prelude::*;

verus! {

#[derive(PartialEq, Eq, Structural, Clone, Copy, Debug)]
pub enum RangeKind {
    Number,
    Text,
}

/// The kind so far after looking at one more bound.
pub open spec fn kind_step(acc: Result<Option<RangeKind>, Error>, b: Option<JsonV>) -> Result<
    Option<RangeKind>,
    Error,
> {
    match acc {
        Err(e) => Err(e),
        Ok(k) => match b {
            None => Ok(k),
            Some(v) => {
                let this: Result<RangeKind, Error> = match v {
                    JsonV::Number(n) => if number_key_spec(n) is Ok {
                        Ok(RangeKind::Number)
                    } else {
                        Err(Error::ExponentOutOfRange)
                    },
                    JsonV::Str(_) => Ok(RangeKind::Text),
                    _ => Err(Error::RangeBoundType),
                };
                match this {
                    Err(e) => Err(e),
                    Ok(t) => if k is Some && k->0 != t {
                        Err(Error::RangeMixedTypes)
                    } else {
                        Ok(Some(t))
                    },
                }
            },
        },
    }
}

/// The kind of a range with bounds gt, gte, lt, lte; numbers when none.
pub open spec fn range_kind_spec(
    gt: Option<JsonV>,
    gte: Option<JsonV>,
    lt: Option<JsonV>,
    lte: Option<JsonV>,
) -> Result<RangeKind, Error> {
    match kind_step(kind_step(kind_step(kind_step(Ok(None), gt), gte), lt), lte) {
        Ok(Some(k)) => Ok(k),
        Ok(None) => Ok(RangeKind::Number),
        Err(e) => Err(e),
    }
}

pub open spec fn bound_wf(b: Option<JsonV>) -> bool {
    b matches Some(v) ==> json_wf(v)
}

fn step(acc: Result<Option<RangeKind>, Error>, b: &Option<Json>) -> (r: Result<
    Option<RangeKind>,
    Error,
>)
    requires
        bound_wf(opt_json(*b)),
    ensures
        r == kind_step(acc, opt_json(*b)),
{
    let k = match acc {
        Err(e) => {
            return Err(e);
        },
        Ok(k) => k,
    };
    match b {
        None => Ok(k),
        Some(v) => {
            let this = match v {
                Json::Number(n) => {
                    assert(v@ == JsonV::Number(n.literal@));
                    match number_key(n) {
                        Ok(_) => RangeKind::Number,
                        Err(_) => {
                            return Err(Error::ExponentOutOfRange);
                        },
                    }
                },
                Json::Str(s) => {
                    assert(v@ == JsonV::Str(s@));
                    RangeKind::Text
                },
                Json::Null => {
                    assert(v@ == JsonV::Null);
                    return Err(Error::RangeBoundType);
                },
                Json::Bool(x) => {
                    assert(v@ == JsonV::Bool(*x));
                    return Err(Error::RangeBoundType);
                },
                Json::Array(_) => {
                    return Err(Error::RangeBoundType);
                },
                Json::Object(_) => {
                    return Err(Error::RangeBoundType);
                },
            };
            match k {
                Some(prev) => if prev != this {
                    Err(Error::RangeMixedTypes)
                } else {
                    Ok(Some(this))
                },
                None => Ok(Some(this)),
            }
        },
    }
}

/// All bounds of one range are numbers or all are strings; none means
/// numbers. Bounds are gt, gte, lt, lte.
pub fn kind(bounds: [&Option<Json>; 4]) -> (r: Result<RangeKind, Error>)
    requires
        bound_wf(opt_json(*bounds[0])),
        bound_wf(opt_json(*bounds[1])),
        bound_wf(opt_json(*bounds[2])),
        bound_wf(opt_json(*bounds[3])),
    ensures
        r == range_kind_spec(
            opt_json(*bounds[0]),
            opt_json(*bounds[1]),
            opt_json(*bounds[2]),
            opt_json(*bounds[3]),
        ),
{
    let a0 = step(Ok(None), bounds[0]);
    let a1 = step(a0, bounds[1]);
    let a2 = step(a1, bounds[2]);
    let a3 = step(a2, bounds[3]);
    match a3 {
        Ok(Some(k)) => Ok(k),
        Ok(None) => Ok(RangeKind::Number),
        Err(e) => Err(e),
    }
}


/// A string bound.
pub open spec fn text_bound(b: Option<JsonV>) -> bool {
    b matches Some(JsonV::Str(_))
}

/// A number bound with a key.
pub open spec fn number_bound(b: Option<JsonV>) -> bool {
    b matches Some(JsonV::Number(n)) && number_key_spec(n) is Ok
}

/// A range is a string range when every bound given is a string, a number
/// range when every bound given is a number (or none is given), and is
/// refused when it mixes the two.
pub proof fn law_range_kind(gt: Option<JsonV>, gte: Option<JsonV>, lt: Option<JsonV>, lte: Option<JsonV>)
    ensures
        (gt is None || text_bound(gt)) && (gte is None || text_bound(gte)) && (lt is None || text_bound(lt)) && (
        lte is None || text_bound(lte)) && (gt is Some || gte is Some || lt is Some || lte is Some) ==> range_kind_spec(
            gt,
            gte,
            lt,
            lte,
        ) == Ok::<RangeKind, Error>(RangeKind::Text),
        (gt is None || number_bound(gt)) && (gte is None || number_bound(gte)) && (lt is None || number_bound(lt)) && (
        lte is None || number_bound(lte)) ==> range_kind_spec(gt, gte, lt, lte) == Ok::<RangeKind, Error>(
            RangeKind::Number,
        ),
        (gt is None || text_bound(gt) || number_bound(gt)) && (gte is None || text_bound(gte) || number_bound(gte)) && (
        lt is None || text_bound(lt) || number_bound(lt)) && (lte is None || text_bound(lte) || number_bound(lte)) && (
        text_bound(gt) || text_bound(gte) || text_bound(lt) || text_bound(lte)) && (number_bound(gt) || number_bound(gte)
            || number_bound(lt) || number_bound(lte)) ==> range_kind_spec(gt, gte, lt, lte) == Err::<RangeKind, Error>(
            Error::RangeMixedTypes,
        ),
{
}

} // verus!
