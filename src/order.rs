//! The order in which events are listed: by date, then by description,
//! primary category and secondary category, each text compared character by
//! character.
use vstd::prelude::*;
use crate::date::date_before;
use crate::event::{Event, EventView};
use crate::filter::event_views;

verus! {

broadcast use vstd::seq_lib::to_multiset_insert;

/// `a` comes strictly before `b` in lexicographic order of characters.
pub open spec fn text_before(a: Seq<char>, b: Seq<char>) -> bool
    decreases a.len(),
{
    if a.len() == 0 {
        b.len() > 0
    } else if b.len() == 0 {
        false
    } else if a[0] != b[0] {
        a[0] < b[0]
    } else {
        text_before(a.drop_first(), b.drop_first())
    }
}

/// `a` is listed strictly before `b`.
pub open spec fn event_before(a: EventView, b: EventView) -> bool {
    if a.date != b.date {
        date_before(a.date, b.date)
    } else if a.description != b.description {
        text_before(a.description, b.description)
    } else if a.primary != b.primary {
        text_before(a.primary, b.primary)
    } else {
        text_before(a.secondary, b.secondary)
    }
}

/// No event is listed before one that precedes it.
pub open spec fn listed_in_order(s: Seq<EventView>) -> bool {
    forall|i: int, j: int| 0 <= i < j < s.len() ==> !event_before(#[trigger] s[j], #[trigger] s[i])
}

proof fn lemma_text_before_irreflexive(a: Seq<char>)
    ensures
        !text_before(a, a),
    decreases a.len(),
{
    if a.len() > 0 {
        lemma_text_before_irreflexive(a.drop_first());
    }
}

proof fn lemma_text_before_transitive(a: Seq<char>, b: Seq<char>, c: Seq<char>)
    requires
        text_before(a, b),
        text_before(b, c),
    ensures
        text_before(a, c),
    decreases a.len(),
{
    if a.len() > 0 && b.len() > 0 && c.len() > 0 && a[0] == b[0] && b[0] == c[0] {
        lemma_text_before_transitive(a.drop_first(), b.drop_first(), c.drop_first());
    }
}

proof fn lemma_text_before_asymmetric(a: Seq<char>, b: Seq<char>)
    requires
        text_before(a, b),
    ensures
        !text_before(b, a),
{
    if text_before(b, a) {
        lemma_text_before_transitive(a, b, a);
        lemma_text_before_irreflexive(a);
    }
}

proof fn lemma_event_before_transitive(a: EventView, b: EventView, c: EventView)
    requires
        event_before(a, b),
        event_before(b, c),
    ensures
        event_before(a, c),
{
    if a.date == b.date && b.date == c.date {
        if a.description == b.description && b.description == c.description {
            if a.primary == b.primary && b.primary == c.primary {
                lemma_text_before_transitive(a.secondary, b.secondary, c.secondary);
                if a.secondary == c.secondary {
                    lemma_text_before_irreflexive(a.secondary);
                }
            } else if a.primary == b.primary || b.primary == c.primary {
            } else {
                lemma_text_before_transitive(a.primary, b.primary, c.primary);
                if a.primary == c.primary {
                    lemma_text_before_irreflexive(a.primary);
                }
            }
        } else if a.description == b.description || b.description == c.description {
        } else {
            lemma_text_before_transitive(a.description, b.description, c.description);
            if a.description == c.description {
                lemma_text_before_irreflexive(a.description);
            }
        }
    }
}

proof fn lemma_event_before_asymmetric(a: EventView, b: EventView)
    requires
        event_before(a, b),
    ensures
        !event_before(b, a),
{
    if a.date == b.date {
        if a.description != b.description {
            lemma_text_before_asymmetric(a.description, b.description);
        } else if a.primary != b.primary {
            lemma_text_before_asymmetric(a.primary, b.primary);
        } else {
            lemma_text_before_asymmetric(a.secondary, b.secondary);
        }
    }
}

/// Whether `a` comes strictly before `b` in lexicographic order of characters.
pub fn text_is_before(a: &str, b: &str) -> (r: bool)
    ensures
        r == text_before(a@, b@),
{
    let n = a.unicode_len();
    let m = b.unicode_len();
    let mut i: usize = 0;
    assert(a@.skip(0) =~= a@);
    assert(b@.skip(0) =~= b@);
    while i < n && i < m
        invariant
            i <= n,
            i <= m,
            n == a@.len(),
            m == b@.len(),
            text_before(a@, b@) == text_before(a@.skip(i as int), b@.skip(i as int)),
        decreases n - i,
    {
        let x = a.get_char(i);
        let y = b.get_char(i);
        assert(a@.skip(i as int)[0] == x);
        assert(b@.skip(i as int)[0] == y);
        if x != y {
            return x < y;
        }
        assert(a@.skip(i as int).drop_first() =~= a@.skip(i + 1));
        assert(b@.skip(i as int).drop_first() =~= b@.skip(i + 1));
        i = i + 1;
    }
    i == n && i < m
}

/// Whether `a` is listed strictly before `b`.
pub fn event_is_before(a: &Event, b: &Event) -> (r: bool)
    ensures
        r == event_before(a@, b@),
{
    if a.date != b.date {
        a.date.is_before(&b.date)
    } else if a.description != b.description {
        text_is_before(a.description.as_str(), b.description.as_str())
    } else if a.primary_category != b.primary_category {
        text_is_before(a.primary_category.as_str(), b.primary_category.as_str())
    } else {
        text_is_before(a.secondary_category.as_str(), b.secondary_category.as_str())
    }
}

/// Puts the events in listing order, keeping events that compare equal in
/// their present order.
pub fn sort_events(events: &mut Vec<Event>)
    ensures
        event_views(final(events)@).to_multiset() == event_views(old(events)@).to_multiset(),
        listed_in_order(event_views(final(events)@)),
{
    let ghost src = event_views(events@);
    let mut out: Vec<Event> = Vec::new();
    let mut i: usize = 0;
    assert(src.take(0) =~= Seq::<EventView>::empty());
    assert(event_views(out@) =~= Seq::<EventView>::empty());
    while i < events.len()
        invariant
            i <= events@.len(),
            src == event_views(events@),
            event_views(out@).to_multiset() == src.take(i as int).to_multiset(),
            listed_in_order(event_views(out@)),
        decreases events@.len() - i,
    {
        let e = events[i].clone();
        let mut k: usize = 0;
        while k < out.len() && !event_is_before(&e, &out[k])
            invariant
                k <= out@.len(),
                forall|j: int| 0 <= j < k ==> !event_before(e@, #[trigger] out@[j]@),
            decreases out@.len() - k,
        {
            k = k + 1;
        }
        let ghost before = event_views(out@);
        proof {
            assert forall|j: int| k <= j < before.len() implies !event_before(
                #[trigger] before[j],
                e@,
            ) by {
                if event_before(before[j], e@) {
                    assert(event_before(e@, before[k as int]));
                    if j == k {
                        lemma_event_before_asymmetric(before[j], e@);
                    } else {
                        lemma_event_before_transitive(before[j], e@, before[k as int]);
                    }
                }
            }
        }
        out.insert(k, e);
        assert(event_views(out@) =~= before.insert(k as int, e@));
        assert(src.take(i + 1) =~= src.take(i as int).push(e@));
        proof {
            vstd::seq_lib::to_multiset_build(src.take(i as int), e@);
        }
        assert(listed_in_order(event_views(out@))) by {
            let s = event_views(out@);
            assert forall|a: int, b: int| 0 <= a < b < s.len() implies !event_before(
                #[trigger] s[b],
                #[trigger] s[a],
            ) by {
                if a < k && b < k {
                    assert(s[a] == before[a] && s[b] == before[b]);
                } else if a < k && b == k {
                    assert(s[a] == before[a]);
                } else if a < k {
                    assert(s[a] == before[a] && s[b] == before[b - 1]);
                } else if a == k {
                    assert(s[b] == before[b - 1]);
                } else {
                    assert(s[a] == before[a - 1] && s[b] == before[b - 1]);
                }
            }
        }
        i = i + 1;
    }
    assert(src.take(events@.len() as int) =~= src);
    *events = out;
}

} // verus!
