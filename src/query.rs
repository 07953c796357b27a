//! Queries: an ordered list of criteria, each adding its selection to a
//! shared result, so that a query gives the union of its criteria.
use vstd::prelude::*;
use crate::date::{Date, DateError, parse_user_date, user_date_spec, today};
use crate::event::{Event, EventView};
use crate::filter::{
    DateComparison, accumulate, date_selection, string_selection, event_views,
    filter_by_reference_date, filter_by_string,
};

verus! {

/// One criterion of a query.
#[derive(Debug)]
pub enum Criterion {
    /// A date filter; the text is the reference date where the comparison
    /// needs one.
    Date(DateComparison, String),
    /// Comma-separated category terms, and whether matching events are
    /// excluded rather than selected.
    Category(String, bool),
    /// A description prefix.
    Description(String),
}

/// The result after one more criterion, where `today` is the local date.
pub open spec fn criterion_result(
    acc: Seq<EventView>,
    orig: Seq<EventView>,
    c: Criterion,
    today: Date,
) -> Result<Seq<EventView>, DateError> {
    match c {
        Criterion::Date(comparison, text) => match comparison {
            DateComparison::Today | DateComparison::All => Ok(
                accumulate(acc, orig, date_selection(comparison, today)),
            ),
            _ => match user_date_spec(text@) {
                Ok(d) => Ok(accumulate(acc, orig, date_selection(comparison, d))),
                Err(e) => Err(e),
            },
        },
        Criterion::Category(terms, excluded) => Ok(
            accumulate(acc, orig, string_selection(terms@, excluded, true)),
        ),
        Criterion::Description(text) => Ok(
            accumulate(acc, orig, string_selection(text@, false, false)),
        ),
    }
}

/// The result of the criteria applied in order from an empty result; the
/// first failing criterion fails the query.
pub open spec fn query_result(orig: Seq<EventView>, criteria: Seq<Criterion>, today: Date) -> Result<
    Seq<EventView>,
    DateError,
>
    decreases criteria.len(),
{
    if criteria.len() == 0 {
        Ok(Seq::empty())
    } else {
        match query_result(orig, criteria.drop_last(), today) {
            Ok(acc) => criterion_result(acc, orig, criteria.last(), today),
            Err(e) => Err(e),
        }
    }
}

/// Applies the criteria in order to `orig`, with `today` as the local date.
pub fn query_on(orig: &[Event], criteria: &Vec<Criterion>, today: Date) -> (r: Result<
    Vec<Event>,
    DateError,
>)
    ensures
        match r {
            Ok(v) => query_result(event_views(orig@), criteria@, today) == Ok::<
                Seq<EventView>,
                DateError,
            >(event_views(v@)),
            Err(e) => query_result(event_views(orig@), criteria@, today) == Err::<
                Seq<EventView>,
                DateError,
            >(e),
        },
{
    let ghost ov = event_views(orig@);
    let mut results: Vec<Event> = Vec::new();
    let mut i: usize = 0;
    assert(criteria@.take(0) =~= Seq::<Criterion>::empty());
    assert(event_views(results@) =~= Seq::<EventView>::empty());
    while i < criteria.len()
        invariant
            i <= criteria@.len(),
            ov == event_views(orig@),
            query_result(ov, criteria@.take(i as int), today) == Ok::<Seq<EventView>, DateError>(
                event_views(results@),
            ),
        decreases criteria@.len() - i,
    {
        assert(criteria@.take(i + 1).drop_last() =~= criteria@.take(i as int));
        assert(criteria@.take(i + 1).last() == criteria@[i as int]);
        match &criteria[i] {
            Criterion::Date(comparison, text) => {
                match comparison {
                    DateComparison::Today | DateComparison::All => {
                        filter_by_reference_date(orig, &mut results, today, *comparison);
                    },
                    _ => match parse_user_date(text.as_str()) {
                        Ok(d) => {
                            filter_by_reference_date(orig, &mut results, d, *comparison);
                        },
                        Err(e) => {
                            proof {
                                lemma_query_stops(ov, criteria@, today, i as int);
                            }
                            return Err(e);
                        },
                    },
                }
            },
            Criterion::Category(terms, excluded) => {
                filter_by_string(orig, &mut results, terms.as_str(), *excluded, true);
            },
            Criterion::Description(text) => {
                filter_by_string(orig, &mut results, text.as_str(), false, false);
            },
        }
        i = i + 1;
    }
    assert(criteria@.take(criteria@.len() as int) =~= criteria@);
    Ok(results)
}

/// Once a criterion fails, the query fails with its error.
proof fn lemma_query_stops(orig: Seq<EventView>, criteria: Seq<Criterion>, today: Date, i: int)
    requires
        0 <= i < criteria.len(),
        query_result(orig, criteria.take(i), today) is Ok,
        criterion_result(query_result(orig, criteria.take(i), today)->Ok_0, orig, criteria[i], today) is Err,
    ensures
        query_result(orig, criteria, today) == criterion_result(
            query_result(orig, criteria.take(i), today)->Ok_0,
            orig,
            criteria[i],
            today,
        ),
    decreases criteria.len() - i,
{
    let n = criteria.len();
    assert(criteria.take(i + 1).drop_last() =~= criteria.take(i));
    assert(criteria.take(i + 1).last() == criteria[i]);
    lemma_query_stops_prefix(orig, criteria, today, i + 1, n as int);
    assert(criteria.take(n as int) =~= criteria);
}

/// A failed prefix fails every longer prefix with the same error.
proof fn lemma_query_stops_prefix(
    orig: Seq<EventView>,
    criteria: Seq<Criterion>,
    today: Date,
    k: int,
    m: int,
)
    requires
        0 <= k <= m <= criteria.len(),
        query_result(orig, criteria.take(k), today) is Err,
    ensures
        query_result(orig, criteria.take(m), today) == query_result(orig, criteria.take(k), today),
    decreases m - k,
{
    if m > k {
        lemma_query_stops_prefix(orig, criteria, today, k, m - 1);
        assert(criteria.take(m).drop_last() =~= criteria.take(m - 1));
    }
}

/// Applies the criteria in order to `orig`, with the local date now as today.
pub fn query(orig: &[Event], criteria: &Vec<Criterion>) -> (r: Result<Vec<Event>, DateError>)
    ensures
        exists|d: Date|
            d.wf() && match r {
                Ok(v) => query_result(event_views(orig@), criteria@, d) == Ok::<
                    Seq<EventView>,
                    DateError,
                >(event_views(v@)),
                Err(e) => query_result(event_views(orig@), criteria@, d) == Err::<
                    Seq<EventView>,
                    DateError,
                >(e),
            },
{
    let d = today();
    query_on(orig, criteria, d)
}

} // verus!
