//! The filter engine: each pass walks the loaded events in order and appends
//! to a result list the ones it selects that the list does not hold yet, so
//! successive passes build the union of their selections without repeats.
use vstd::prelude::*;
use crate::date::{Date, DateError, date_before, parse_user_date, user_date_spec, today};
use crate::event::{Event, EventView};
use crate::text::{
    split_on, trim, trim_start, trim_end, is_prefix, is_space, views, lowered, lowercase,
    split_text, trim_text, is_ascii_text, ascii_lower, lemma_split_without_delimiter,
    starts_with_text,
};

verus! {

/// How a date filter compares each event's date with the reference date.
#[derive(Clone, Copy, Debug, PartialEq, Eq, Structural)]
pub enum DateComparison {
    Before,
    After,
    Exact,
    Today,
    All,
}

/// The views of a sequence of events.
pub open spec fn event_views(v: Seq<Event>) -> Seq<EventView> {
    v.map_values(|e: Event| e@)
}

/// `acc` extended by the items that `keep` selects, in order, each one only if
/// it is not already there.
pub open spec fn accumulate(
    acc: Seq<EventView>,
    items: Seq<EventView>,
    keep: spec_fn(EventView) -> bool,
) -> Seq<EventView>
    decreases items.len(),
{
    if items.len() == 0 {
        acc
    } else {
        let before = accumulate(acc, items.drop_last(), keep);
        if keep(items.last()) && !before.contains(items.last()) {
            before.push(items.last())
        } else {
            before
        }
    }
}

/// Whether a date filter selects an event dated `d`.
pub open spec fn date_selects(comparison: DateComparison, reference: Date, d: Date) -> bool {
    match comparison {
        DateComparison::Before => date_before(d, reference),
        DateComparison::After => date_before(reference, d),
        DateComparison::Exact | DateComparison::Today => d == reference,
        DateComparison::All => true,
    }
}

pub open spec fn date_selection(comparison: DateComparison, reference: Date) -> spec_fn(
    EventView,
) -> bool {
    |e: EventView| date_selects(comparison, reference, e.date)
}

/// The search terms of a lower-cased category input: its comma-separated
/// pieces, trimmed.
pub open spec fn category_terms_spec(lower_input: Seq<char>) -> Seq<Seq<char>> {
    split_on(lower_input, ',').map_values(|t: Seq<char>| trim(t))
}

/// Some term is a prefix of the primary or of the secondary category.
pub open spec fn category_hit(
    terms: Seq<Seq<char>>,
    lower_primary: Seq<char>,
    lower_secondary: Seq<char>,
) -> bool {
    exists|i: int|
        0 <= i < terms.len() && (is_prefix(terms[i], lower_primary) || is_prefix(
            terms[i],
            lower_secondary,
        ))
}

/// Whether a string filter selects an event: by category, any term as a
/// case-insensitive prefix of either category (inverted when `excluded`); by
/// description, the whole lower-cased input as a prefix of the description.
pub open spec fn string_selects(
    input: Seq<char>,
    excluded: bool,
    category: bool,
    e: EventView,
) -> bool {
    if category {
        let hit = category_hit(
            category_terms_spec(lowered(input)),
            lowered(e.primary),
            lowered(e.secondary),
        );
        if excluded {
            !hit
        } else {
            hit
        }
    } else {
        is_prefix(lowered(input), lowered(e.description))
    }
}

pub open spec fn string_selection(input: Seq<char>, excluded: bool, category: bool) -> spec_fn(
    EventView,
) -> bool {
    |e: EventView| string_selects(input, excluded, category, e)
}

/// After a pass, an event is in the result exactly when it was there before,
/// or it is among the walked events and the pass selects it.
pub proof fn lemma_accumulate_members(
    acc: Seq<EventView>,
    items: Seq<EventView>,
    keep: spec_fn(EventView) -> bool,
    x: EventView,
)
    ensures
        accumulate(acc, items, keep).contains(x) <==> (acc.contains(x) || (items.contains(x)
            && keep(x))),
    decreases items.len(),
{
    if items.len() > 0 {
        let prev = items.drop_last();
        lemma_accumulate_members(acc, prev, keep, x);
        let before = accumulate(acc, prev, keep);
        assert(items =~= prev.push(items.last()));
        assert(items.contains(x) <==> (prev.contains(x) || x == items.last())) by {
            if items.contains(x) {
                let i = choose|i: int| 0 <= i < items.len() && items[i] == x;
                if i < prev.len() {
                    assert(prev[i] == x);
                }
            }
            if prev.contains(x) {
                let i = choose|i: int| 0 <= i < prev.len() && prev[i] == x;
                assert(items[i] == x);
            }
            if x == items.last() {
                assert(items[items.len() - 1] == x);
            }
        }
        if keep(items.last()) && !before.contains(items.last()) {
            let after = before.push(items.last());
            assert(after.contains(x) <==> (before.contains(x) || x == items.last())) by {
                if after.contains(x) {
                    let i = choose|i: int| 0 <= i < after.len() && after[i] == x;
                    if i < before.len() {
                        assert(before[i] == x);
                    }
                }
                if before.contains(x) {
                    let i = choose|i: int| 0 <= i < before.len() && before[i] == x;
                    assert(after[i] == x);
                }
                if x == items.last() {
                    assert(after[after.len() - 1] == x);
                }
            }
        }
    }
}

/// A result without repeated events stays without repeats after a pass.
pub proof fn lemma_accumulate_no_duplicates(
    acc: Seq<EventView>,
    items: Seq<EventView>,
    keep: spec_fn(EventView) -> bool,
)
    requires
        acc.no_duplicates(),
    ensures
        accumulate(acc, items, keep).no_duplicates(),
    decreases items.len(),
{
    if items.len() > 0 {
        lemma_accumulate_no_duplicates(acc, items.drop_last(), keep);
    }
}

/// A pass adds nothing when the result already holds every event it selects.
proof fn lemma_accumulate_saturated(
    acc: Seq<EventView>,
    items: Seq<EventView>,
    keep: spec_fn(EventView) -> bool,
)
    requires
        forall|i: int| 0 <= i < items.len() && keep(#[trigger] items[i]) ==> acc.contains(items[i]),
    ensures
        accumulate(acc, items, keep) == acc,
    decreases items.len(),
{
    if items.len() > 0 {
        let prev = items.drop_last();
        assert forall|i: int| 0 <= i < prev.len() && keep(#[trigger] prev[i]) implies acc.contains(
            prev[i],
        ) by {
            assert(prev[i] == items[i]);
        }
        lemma_accumulate_saturated(acc, prev, keep);
        assert(items.last() == items[items.len() - 1]);
    }
}

/// Repeating a pass with the same selection over the same events changes
/// nothing.
pub proof fn lemma_accumulate_idempotent(
    acc: Seq<EventView>,
    items: Seq<EventView>,
    keep: spec_fn(EventView) -> bool,
)
    ensures
        accumulate(accumulate(acc, items, keep), items, keep) == accumulate(acc, items, keep),
{
    let once = accumulate(acc, items, keep);
    assert forall|i: int| 0 <= i < items.len() && keep(#[trigger] items[i]) implies once.contains(
        items[i],
    ) by {
        lemma_accumulate_members(acc, items, keep, items[i]);
        assert(items.contains(items[i]));
    }
    lemma_accumulate_saturated(once, items, keep);
}

/// Applying `filter_by_string` twice with the same arguments leaves the result
/// of the first application unchanged.
pub proof fn lemma_filter_by_string_idempotent(
    results: Seq<EventView>,
    orig: Seq<EventView>,
    input: Seq<char>,
    excluded: bool,
    category: bool,
)
    ensures
        ({
            let keep = string_selection(input, excluded, category);
            accumulate(accumulate(results, orig, keep), orig, keep) == accumulate(
                results,
                orig,
                keep,
            )
        }),
{
    lemma_accumulate_idempotent(results, orig, string_selection(input, excluded, category));
}

/// Excluding a category selects exactly the events that including it does
/// not.
pub proof fn lemma_category_exclusion_complements(input: Seq<char>, e: EventView)
    ensures
        string_selects(input, true, true, e) == !string_selects(input, false, true, e),
{
}

/// A category input that is one term: ASCII, without `,`, and without
/// whitespace at either end.
pub open spec fn single_category_term(input: Seq<char>) -> bool {
    is_ascii_text(input) && !input.contains(',') && trim(input) == input
}

proof fn lemma_trim_start_len(s: Seq<char>)
    ensures
        trim_start(s).len() <= s.len(),
    decreases s.len(),
{
    if s.len() > 0 && is_space(s[0]) {
        lemma_trim_start_len(s.drop_first());
    }
}

proof fn lemma_trim_end_len(s: Seq<char>)
    ensures
        trim_end(s).len() <= s.len(),
    decreases s.len(),
{
    if s.len() > 0 && is_space(s.last()) {
        lemma_trim_end_len(s.drop_last());
    }
}

/// A single term lower-cased is the one search term of the input, and a term
/// without upper-case letters is its own lower-case form.
pub proof fn lemma_single_term(input: Seq<char>)
    requires
        single_category_term(input),
    ensures
        category_terms_spec(lowered(input)) == seq![lowered(input)],
        (forall|i: int| 0 <= i < input.len() ==> !('A' <= #[trigger] input[i] && input[i] <= 'Z'))
            ==> lowered(input) == input,
{
    let low = input.map_values(|c: char| ascii_lower(c));
    assert(lowered(input) == low);
    assert(!low.contains(',')) by {
        if low.contains(',') {
            let i = choose|i: int| 0 <= i < low.len() && low[i] == ',';
            assert(input.contains(input[i]));
        }
    }
    if input.len() > 0 {
        assert(!is_space(input[0])) by {
            if is_space(input[0]) {
                lemma_trim_start_len(input.drop_first());
                lemma_trim_end_len(trim_start(input));
            }
        }
        assert(!is_space(input.last())) by {
            assert(trim_start(input) == input);
            if is_space(input.last()) {
                lemma_trim_end_len(input.drop_last());
            }
        }
        assert(low[0] == ascii_lower(input[0]));
        assert(low.last() == ascii_lower(input.last()));
    }
    assert(trim_start(low) == low);
    assert(trim_end(low) == low);
    lemma_split_without_delimiter(low, ',');
    assert(category_terms_spec(low) =~= seq![low]);
    if forall|i: int| 0 <= i < input.len() ==> !('A' <= #[trigger] input[i] && input[i] <= 'Z') {
        assert(low =~= input);
    }
}

/// With a single term, a category filter selects an event exactly when the
/// lower-cased term starts its lower-cased primary or secondary category, or,
/// when excluding, starts neither.
pub proof fn lemma_single_term_selection(input: Seq<char>, excluded: bool, e: EventView)
    requires
        single_category_term(input),
    ensures
        string_selects(input, excluded, true, e) == (excluded != (is_prefix(
            lowered(input),
            lowered(e.primary),
        ) || is_prefix(lowered(input), lowered(e.secondary)))),
{
    lemma_single_term(input);
    let terms = seq![lowered(input)];
    assert(terms[0] == lowered(input));
}

/// An event whose primary category is the single term given to an including
/// category filter is in the result.
pub proof fn lemma_category_includes_match(
    results: Seq<EventView>,
    orig: Seq<EventView>,
    input: Seq<char>,
    e: EventView,
)
    requires
        single_category_term(input),
        orig.contains(e),
        e.primary == input,
    ensures
        accumulate(results, orig, string_selection(input, false, true)).contains(e),
{
    lemma_single_term_selection(input, false, e);
    assert(lowered(input).subrange(0, lowered(input).len() as int) =~= lowered(input));
    lemma_accumulate_members(results, orig, string_selection(input, false, true), e);
}

/// Excluding a single term from an empty result gives, without repeats, the
/// events none of whose lower-cased categories starts with the lower-cased
/// term.
pub proof fn lemma_category_exclusion_result(orig: Seq<EventView>, input: Seq<char>, x: EventView)
    requires
        single_category_term(input),
    ensures
        accumulate(Seq::empty(), orig, string_selection(input, true, true)).no_duplicates(),
        accumulate(Seq::empty(), orig, string_selection(input, true, true)).contains(x) <==> (
        orig.contains(x) && !is_prefix(lowered(input), lowered(x.primary)) && !is_prefix(
            lowered(input),
            lowered(x.secondary),
        )),
{
    let keep = string_selection(input, true, true);
    lemma_single_term_selection(input, true, x);
    lemma_accumulate_members(Seq::empty(), orig, keep, x);
    lemma_accumulate_no_duplicates(Seq::empty(), orig, keep);
}

/// Whether `v` holds an event equal to `e`.
fn contains_event(v: &Vec<Event>, e: &Event) -> (r: bool)
    ensures
        r == event_views(v@).contains(e@),
{
    let mut i: usize = 0;
    while i < v.len()
        invariant
            i <= v@.len(),
            forall|j: int| 0 <= j < i ==> v@[j]@ != e@,
        decreases v@.len() - i,
    {
        if v[i].eq(e) {
            assert(event_views(v@)[i as int] == e@);
            return true;
        }
        i = i + 1;
    }
    assert(!event_views(v@).contains(e@)) by {
        if event_views(v@).contains(e@) {
            let j = choose|j: int| 0 <= j < event_views(v@).len() && event_views(v@)[j] == e@;
            assert(v@[j]@ == e@);
        }
    }
    false
}

/// One step of accumulation: appends a copy of `e` if `take` holds and
/// `results` does not hold it yet.
fn accumulate_step(
    orig: &[Event],
    i: usize,
    results: &mut Vec<Event>,
    take: bool,
    Ghost(keep): Ghost<spec_fn(EventView) -> bool>,
    Ghost(start): Ghost<Seq<EventView>>,
)
    requires
        i < orig@.len(),
        take == keep(orig@[i as int]@),
        event_views(old(results)@) == accumulate(start, event_views(orig@).take(i as int), keep),
    ensures
        event_views(final(results)@) == accumulate(
            start,
            event_views(orig@).take(i + 1),
            keep,
        ),
{
    let ghost items = event_views(orig@).take(i + 1);
    assert(items.drop_last() =~= event_views(orig@).take(i as int));
    assert(items.last() == orig@[i as int]@);
    if take && !contains_event(results, &orig[i]) {
        let e = orig[i].clone();
        results.push(e);
        assert(event_views(final(results)@) =~= event_views(old(results)@).push(orig@[i as int]@));
    }
}

/// Appends to `results` the events of `orig` whose date compares with
/// `reference` as `comparison` asks, skipping those already present.
pub fn filter_by_reference_date(
    orig: &[Event],
    results: &mut Vec<Event>,
    reference: Date,
    comparison: DateComparison,
)
    ensures
        event_views(final(results)@) == accumulate(
            event_views(old(results)@),
            event_views(orig@),
            date_selection(comparison, reference),
        ),
{
    let ghost start = event_views(results@);
    let ghost keep = date_selection(comparison, reference);
    assert(event_views(orig@).take(0) =~= Seq::<EventView>::empty());
    let mut i: usize = 0;
    while i < orig.len()
        invariant
            i <= orig@.len(),
            keep == date_selection(comparison, reference),
            event_views(results@) == accumulate(start, event_views(orig@).take(i as int), keep),
        decreases orig@.len() - i,
    {
        let d = orig[i].date;
        let take = match comparison {
            DateComparison::Before => d.is_before(&reference),
            DateComparison::After => reference.is_before(&d),
            DateComparison::Exact | DateComparison::Today => d == reference,
            DateComparison::All => true,
        };
        accumulate_step(orig, i, results, take, Ghost(keep), Ghost(start));
        i = i + 1;
    }
    assert(event_views(orig@).take(orig@.len() as int) =~= event_views(orig@));
}

/// Appends to `results` the events of `orig` that a date filter selects,
/// skipping those already present. `Before`, `After` and `Exact` compare with
/// `date_str`, which must pass the strict layout gate and name a calendar
/// date; `Today` compares with the local date now; `All` selects every event.
pub fn filter_by_date(
    orig: &[Event],
    results: &mut Vec<Event>,
    date_str: &str,
    comparison: DateComparison,
) -> (r: Result<(), DateError>)
    ensures
        match comparison {
            DateComparison::Before | DateComparison::After | DateComparison::Exact => {
                match user_date_spec(date_str@) {
                    Ok(d) => r is Ok && event_views(final(results)@) == accumulate(
                        event_views(old(results)@),
                        event_views(orig@),
                        date_selection(comparison, d),
                    ),
                    Err(e) => r == Err::<(), DateError>(e) && final(results)@ == old(results)@,
                }
            },
            DateComparison::Today => r is Ok && exists|d: Date|
                d.wf() && event_views(final(results)@) == accumulate(
                    event_views(old(results)@),
                    event_views(orig@),
                    date_selection(comparison, d),
                ),
            DateComparison::All => r is Ok && event_views(final(results)@) == accumulate(
                event_views(old(results)@),
                event_views(orig@),
                |e: EventView| true,
            ),
        },
{
    match comparison {
        DateComparison::Before | DateComparison::After | DateComparison::Exact => {
            match parse_user_date(date_str) {
                Ok(d) => {
                    filter_by_reference_date(orig, results, d, comparison);
                    Ok(())
                },
                Err(e) => Err(e),
            }
        },
        DateComparison::Today | DateComparison::All => {
            let d = today();
            filter_by_reference_date(orig, results, d, comparison);
            assert(comparison == DateComparison::All ==> date_selection(comparison, d) =~= (
            |e: EventView| true));
            Ok(())
        },
    }
}

/// The search terms of a lower-cased category input: its comma-separated
/// pieces, trimmed.
pub fn category_terms(lower_input: &str) -> (r: Vec<String>)
    ensures
        views(r@) == category_terms_spec(lower_input@),
{
    let pieces = split_text(lower_input, ',');
    let mut terms: Vec<String> = Vec::new();
    let mut i: usize = 0;
    while i < pieces.len()
        invariant
            i <= pieces@.len(),
            views(pieces@) == split_on(lower_input@, ','),
            terms@.len() == i,
            forall|j: int| 0 <= j < i ==> #[trigger] terms@[j]@ == trim(pieces@[j]@),
        decreases pieces@.len() - i,
    {
        let t = trim_text(pieces[i].as_str());
        terms.push(t);
        i = i + 1;
    }
    assert(views(terms@) =~= category_terms_spec(lower_input@)) by {
        assert forall|j: int| 0 <= j < terms@.len() implies views(terms@)[j]
            == category_terms_spec(lower_input@)[j] by {
            assert(views(pieces@)[j] == pieces@[j]@);
        }
    }
    terms
}

/// Whether some term is a prefix of the lower-cased primary or secondary
/// category.
pub fn category_matches(terms: &Vec<String>, lower_primary: &str, lower_secondary: &str) -> (r:
    bool)
    ensures
        r == category_hit(views(terms@), lower_primary@, lower_secondary@),
{
    let mut i: usize = 0;
    while i < terms.len()
        invariant
            i <= terms@.len(),
            forall|j: int|
                0 <= j < i ==> !is_prefix(#[trigger] terms@[j]@, lower_primary@) && !is_prefix(
                    terms@[j]@,
                    lower_secondary@,
                ),
        decreases terms@.len() - i,
    {
        let t = terms[i].as_str();
        if starts_with_text(lower_primary, t) || starts_with_text(lower_secondary, t) {
            assert(views(terms@)[i as int] == terms@[i as int]@);
            return true;
        }
        i = i + 1;
    }
    assert(!category_hit(views(terms@), lower_primary@, lower_secondary@)) by {
        if category_hit(views(terms@), lower_primary@, lower_secondary@) {
            let j = choose|j: int|
                0 <= j < views(terms@).len() && (is_prefix(views(terms@)[j], lower_primary@)
                    || is_prefix(views(terms@)[j], lower_secondary@));
            assert(views(terms@)[j] == terms@[j]@);
        }
    }
    false
}

/// Appends to `results` the events of `orig` that a string filter selects,
/// skipping those already present. With `category`, `input` holds one or
/// more comma-separated terms matched case-insensitively as prefixes of
/// either category, and `excluded` selects the events that none matches;
/// otherwise the whole input is matched as a case-insensitive prefix of the
/// description.
pub fn filter_by_string(
    orig: &[Event],
    results: &mut Vec<Event>,
    input: &str,
    excluded: bool,
    category: bool,
)
    ensures
        event_views(final(results)@) == accumulate(
            event_views(old(results)@),
            event_views(orig@),
            string_selection(input@, excluded, category),
        ),
{
    let lower_input = lowercase(input);
    let terms = category_terms(lower_input.as_str());
    let ghost start = event_views(results@);
    let ghost keep = string_selection(input@, excluded, category);
    assert(event_views(orig@).take(0) =~= Seq::<EventView>::empty());
    let mut i: usize = 0;
    while i < orig.len()
        invariant
            i <= orig@.len(),
            keep == string_selection(input@, excluded, category),
            lower_input@ == lowered(input@),
            views(terms@) == category_terms_spec(lowered(input@)),
            event_views(results@) == accumulate(start, event_views(orig@).take(i as int), keep),
        decreases orig@.len() - i,
    {
        let e = &orig[i];
        let take = if category {
            let lp = lowercase(e.primary_category.as_str());
            let ls = lowercase(e.secondary_category.as_str());
            let hit = category_matches(&terms, lp.as_str(), ls.as_str());
            if excluded {
                !hit
            } else {
                hit
            }
        } else {
            let ld = lowercase(e.description.as_str());
            starts_with_text(ld.as_str(), lower_input.as_str())
        };
        accumulate_step(orig, i, results, take, Ghost(keep), Ghost(start));
        i = i + 1;
    }
    assert(event_views(orig@).take(orig@.len() as int) =~= event_views(orig@));
}

} // verus!
