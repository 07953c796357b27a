//! The backing file: reading its rows into events, and the contents that
//! rewrite it without a set of deleted events. The file itself is read and
//! written by the caller; this module works on its bytes.
use vstd::prelude::*;
use crate::date::{
    parse_date_spec, render_date, date_text, lemma_date_text_layout,
    ascii_date_layout,
};
use crate::event::{
    Event, EventView, StringFormat, category_split, category_text, event_text, parse_string,
};
use crate::filter::event_views;
use crate::text::{
    views, split_on, split_text, trim, trim_start, trim_end,
    lemma_split_concat, lemma_split_without_delimiter,
};

verus! {

/// Why a row of the file was skipped.
#[derive(Clone, Copy, Debug, PartialEq, Eq, Structural)]
pub enum RowError {
    /// The row could not be read as text fields of the table.
    Unreadable,
    /// The date field names no calendar date.
    BadDate,
    /// The category field has more than two parts.
    BadCategory,
}

/// The records that csv's reader gives for `content` after the header row:
/// the fields of each, or `None` for a record it could not read.
pub uninterp spec fn csv_records(content: Seq<u8>) -> Seq<Option<Seq<Seq<char>>>>;

/// The bytes that csv's writer gives for the records `rows`.
pub uninterp spec fn csv_encoding(rows: Seq<Seq<Seq<char>>>) -> Seq<u8>;

pub open spec fn record_view(r: Option<Vec<String>>) -> Option<Seq<Seq<char>>> {
    match r {
        Some(fields) => Some(views(fields@)),
        None => None,
    }
}

pub open spec fn rows_view(rows: Seq<Vec<String>>) -> Seq<Seq<Seq<char>>> {
    rows.map_values(|row: Vec<String>| views(row@))
}

/// Relies on csv's `Reader::from_reader` and `Reader::records`: a header row is
/// taken first, then each record is read in order; one that cannot be read is
/// reported as an error and reading goes on.
#[verifier::external_body]
fn read_records(content: &[u8]) -> (r: Vec<Option<Vec<String>>>)
    ensures
        r@.map_values(|x: Option<Vec<String>>| record_view(x)) == csv_records(content@),
{
    csv::Reader::from_reader(content).records().map(
        |rec| rec.ok().map(|fields| fields.iter().map(|f| f.to_string()).collect()),
    ).collect()
}

/// Relies on csv's `Writer::from_writer`, `Writer::write_record` and
/// `Writer::into_inner`: on success the bytes are the encoding of the records.
/// Writing into memory cannot fail on I/O, and a writer that is not flexible
/// refuses only a record whose field count differs from the first one's, so
/// records of one length are always written.
#[verifier::external_body]
fn write_records(rows: &Vec<Vec<String>>) -> (r: Option<Vec<u8>>)
    ensures
        r is Some ==> r->Some_0@ == csv_encoding(rows_view(rows@)),
        (forall|i: int| 0 <= i < rows@.len() ==> #[trigger] rows@[i]@.len() == rows@[0]@.len())
            ==> r is Some,
{
    let mut writer = csv::Writer::from_writer(Vec::new());
    for row in rows {
        if writer.write_record(row).is_err() {
            return None;
        }
    }
    writer.into_inner().ok()
}

/// The event that a row's three fields describe: the date read by the
/// calendar parser, the description as it is, the category split at `/`.
pub open spec fn row_spec(date: Seq<char>, description: Seq<char>, category: Seq<char>) -> Result<
    EventView,
    RowError,
> {
    match parse_date_spec(date) {
        Err(_) => Err(RowError::BadDate),
        Ok(d) => match category_split(category, '/') {
            None => Err(RowError::BadCategory),
            Some(parts) => Ok(
                EventView { date: d, description, primary: parts.0, secondary: parts.1 },
            ),
        },
    }
}

/// The field at `i`, or empty text where the record is shorter.
pub open spec fn field_at(fields: Seq<Seq<char>>, i: int) -> Seq<char> {
    if 0 <= i < fields.len() {
        fields[i]
    } else {
        Seq::<char>::empty()
    }
}

/// What a record of the file gives.
pub open spec fn record_outcome(rec: Option<Seq<Seq<char>>>) -> Result<EventView, RowError> {
    match rec {
        None => Err(RowError::Unreadable),
        Some(fields) => row_spec(field_at(fields, 0), field_at(fields, 1), field_at(fields, 2)),
    }
}

/// The events of the records that can be read, in order.
pub open spec fn loaded_events(recs: Seq<Option<Seq<Seq<char>>>>) -> Seq<EventView>
    decreases recs.len(),
{
    if recs.len() == 0 {
        Seq::empty()
    } else {
        let before = loaded_events(recs.drop_last());
        match record_outcome(recs.last()) {
            Ok(e) => before.push(e),
            Err(_) => before,
        }
    }
}

/// Why each of the other records was skipped, in order.
pub open spec fn skipped_rows(recs: Seq<Option<Seq<Seq<char>>>>) -> Seq<RowError>
    decreases recs.len(),
{
    if recs.len() == 0 {
        Seq::empty()
    } else {
        let before = skipped_rows(recs.drop_last());
        match record_outcome(recs.last()) {
            Ok(_) => before,
            Err(e) => before.push(e),
        }
    }
}

/// The event that a row's three fields describe.
pub fn parse_row(date: &str, description: &str, category: &str) -> (r: Result<Event, RowError>)
    ensures
        match r {
            Ok(e) => row_spec(date@, description@, category@) == Ok::<EventView, RowError>(e@)
                && e.date.wf(),
            Err(err) => row_spec(date@, description@, category@) == Err::<EventView, RowError>(
                err,
            ),
        },
{
    let d = match Event::test_date(date) {
        Ok(d) => d,
        Err(_) => {
            return Err(RowError::BadDate);
        },
    };
    match parse_string(category, '/') {
        Ok((primary, secondary)) => Ok(
            Event::new(d, String::from_str(description), primary, secondary),
        ),
        Err(_) => Err(RowError::BadCategory),
    }
}

/// The text of field `i` of a record, or empty text where it is shorter.
fn field_text(fields: &Vec<String>, i: usize) -> (r: &str)
    ensures
        r@ == field_at(views(fields@), i as int),
{
    if i < fields.len() {
        fields[i].as_str()
    } else {
        proof {
            reveal_strlit("");
        }
        ""
    }
}

/// The events of the records of a file, in order, and why each other record
/// was skipped: a record that could not be read (`None`), or whose date or
/// category is bad.
pub fn events_from_records(records: &Vec<Option<Vec<String>>>) -> (r: (Vec<Event>, Vec<RowError>))
    ensures
        event_views(r.0@) == loaded_events(records@.map_values(|x: Option<Vec<String>>| record_view(x))),
        r.1@ == skipped_rows(records@.map_values(|x: Option<Vec<String>>| record_view(x))),
        forall|i: int| 0 <= i < r.0@.len() ==> (#[trigger] r.0@[i]).date.wf(),
{
    let ghost recs = records@.map_values(|x: Option<Vec<String>>| record_view(x));
    let mut events: Vec<Event> = Vec::new();
    let mut skipped: Vec<RowError> = Vec::new();
    let mut i: usize = 0;
    assert(recs.take(0) =~= Seq::<Option<Seq<Seq<char>>>>::empty());
    while i < records.len()
        invariant
            i <= records@.len(),
            recs == records@.map_values(|x: Option<Vec<String>>| record_view(x)),
            event_views(events@) == loaded_events(recs.take(i as int)),
            skipped@ == skipped_rows(recs.take(i as int)),
            forall|j: int| 0 <= j < events@.len() ==> (#[trigger] events@[j]).date.wf(),
        decreases records@.len() - i,
    {
        assert(recs.take(i + 1).drop_last() =~= recs.take(i as int));
        assert(recs.take(i + 1).last() == record_view(records@[i as int]));
        match &records[i] {
            Some(fields) => {
                match parse_row(field_text(fields, 0), field_text(fields, 1), field_text(fields, 2)) {
                    Ok(e) => {
                        events.push(e);
                        assert(event_views(events@) =~= loaded_events(recs.take(i + 1)));
                    },
                    Err(err) => {
                        skipped.push(err);
                    },
                }
            },
            None => {
                skipped.push(RowError::Unreadable);
            },
        }
        i = i + 1;
    }
    assert(recs.take(records@.len() as int) =~= recs);
    (events, skipped)
}

/// Reads the contents of the backing file: the header row is skipped, and
/// each record that gives an event is kept in order. A record with an
/// unreadable row, a bad date or a bad category is skipped, and why is
/// reported in the second list.
pub fn events_from_csv(content: &[u8]) -> (r: (Vec<Event>, Vec<RowError>))
    ensures
        event_views(r.0@) == loaded_events(csv_records(content@)),
        r.1@ == skipped_rows(csv_records(content@)),
        forall|i: int| 0 <= i < r.0@.len() ==> (#[trigger] r.0@[i]).date.wf(),
{
    let records = read_records(content);
    events_from_records(&records)
}

/// The events of `items` that are not equal to one in `removed`, in order.
pub open spec fn retained(items: Seq<EventView>, removed: Seq<EventView>) -> Seq<EventView>
    decreases items.len(),
{
    if items.len() == 0 {
        Seq::empty()
    } else {
        let before = retained(items.drop_last(), removed);
        if removed.contains(items.last()) {
            before
        } else {
            before.push(items.last())
        }
    }
}

/// An event remains after deletion exactly when it is among the events and
/// equal to none of the deleted ones.
pub proof fn lemma_retained_members(items: Seq<EventView>, removed: Seq<EventView>, x: EventView)
    ensures
        retained(items, removed).contains(x) <==> (items.contains(x) && !removed.contains(x)),
    decreases items.len(),
{
    if items.len() > 0 {
        let prev = items.drop_last();
        lemma_retained_members(prev, removed, x);
        let before = retained(prev, removed);
        assert(items =~= prev.push(items.last()));
        assert(items.contains(x) <==> (prev.contains(x) || x == items.last())) by {
            if items.contains(x) {
                let i = choose|i: int| 0 <= i < items.len() && items[i] == x;
                if i < prev.len() {
                    assert(prev[i] == x);
                }
            }
            if prev.contains(x) {
                let i = choose|i: int| 0 <= i < prev.len() && prev[i] == x;
                assert(items[i] == x);
            }
            if x == items.last() {
                assert(items[items.len() - 1] == x);
            }
        }
        if !removed.contains(items.last()) {
            let after = before.push(items.last());
            assert(after.contains(x) <==> (before.contains(x) || x == items.last())) by {
                if after.contains(x) {
                    let i = choose|i: int| 0 <= i < after.len() && after[i] == x;
                    if i < before.len() {
                        assert(before[i] == x);
                    }
                }
                if before.contains(x) {
                    let i = choose|i: int| 0 <= i < before.len() && before[i] == x;
                    assert(after[i] == x);
                }
                if x == items.last() {
                    assert(after[after.len() - 1] == x);
                }
            }
        }
    }
}

/// The three fields that an event is written as.
pub open spec fn event_fields(e: EventView) -> Seq<Seq<char>> {
    seq![date_text(e.date), e.description, category_text(e.primary, e.secondary, StringFormat::Csv)]
}

/// The header row of the backing file.
pub open spec fn header_fields() -> Seq<Seq<char>> {
    seq!["date"@, "description"@, "category"@]
}

/// The records of a file holding `events`: the header, then one per event.
pub open spec fn table(events: Seq<EventView>) -> Seq<Seq<Seq<char>>> {
    seq![header_fields()] + events.map_values(|e: EventView| event_fields(e))
}

/// The events of `orig` that are not equal to any event of `to_delete`, in
/// their order in `orig`.
pub fn retained_events(orig: &[Event], to_delete: &[Event]) -> (r: Vec<Event>)
    ensures
        event_views(r@) == retained(event_views(orig@), event_views(to_delete@)),
        forall|i: int| 0 <= i < r@.len() ==> exists|j: int| 0 <= j < orig@.len() && #[trigger] r@[i] == orig@[j],
{
    let ghost items = event_views(orig@);
    let ghost removed = event_views(to_delete@);
    let mut kept: Vec<Event> = Vec::new();
    let mut i: usize = 0;
    assert(items.take(0) =~= Seq::<EventView>::empty());
    while i < orig.len()
        invariant
            i <= orig@.len(),
            items == event_views(orig@),
            removed == event_views(to_delete@),
            event_views(kept@) == retained(items.take(i as int), removed),
            forall|k: int| 0 <= k < kept@.len() ==> exists|j: int| 0 <= j < orig@.len() && #[trigger] kept@[k] == orig@[j],
        decreases orig@.len() - i,
    {
        assert(items.take(i + 1).drop_last() =~= items.take(i as int));
        assert(items.take(i + 1).last() == orig@[i as int]@);
        let mut found = false;
        let mut j: usize = 0;
        while j < to_delete.len()
            invariant
                j <= to_delete@.len(),
                i < orig@.len(),
                removed == event_views(to_delete@),
                found == exists|k: int| 0 <= k < j && to_delete@[k]@ == orig@[i as int]@,
            decreases to_delete@.len() - j,
        {
            if to_delete[j].eq(&orig[i]) {
                found = true;
            }
            j = j + 1;
        }
        assert(found == removed.contains(orig@[i as int]@)) by {
            if found {
                let k = choose|k: int| 0 <= k < j && to_delete@[k]@ == orig@[i as int]@;
                assert(removed[k] == orig@[i as int]@);
            }
            if removed.contains(orig@[i as int]@) {
                let k = choose|k: int| 0 <= k < removed.len() && removed[k] == orig@[i as int]@;
                assert(to_delete@[k]@ == orig@[i as int]@);
            }
        }
        if !found {
            let e = orig[i].clone();
            kept.push(e);
            assert(event_views(kept@) =~= retained(items.take(i + 1), removed));
            assert(kept@[kept@.len() - 1] == orig@[i as int]);
        }
        i = i + 1;
    }
    assert(items.take(orig@.len() as int) =~= items);
    kept
}

/// The three text fields of an event's row.
fn event_row(e: &Event) -> (r: Vec<String>)
    requires
        e.date.wf(),
    ensures
        views(r@) == event_fields(e@),
{
    let mut row: Vec<String> = Vec::new();
    row.push(render_date(&e.date));
    row.push(e.description.clone());
    row.push(e.format_category(StringFormat::Csv));
    assert(views(row@) =~= event_fields(e@));
    row
}

/// The records of a file holding `events`: the header row, then the three
/// fields of each event in order.
pub fn table_rows(events: &[Event]) -> (r: Vec<Vec<String>>)
    requires
        forall|i: int| 0 <= i < events@.len() ==> (#[trigger] events@[i]).date.wf(),
    ensures
        rows_view(r@) == table(event_views(events@)),
{
    let ghost kv = event_views(events@);
    let mut rows: Vec<Vec<String>> = Vec::new();
    proof {
        reveal_strlit("date");
        reveal_strlit("description");
        reveal_strlit("category");
    }
    let mut header: Vec<String> = Vec::new();
    header.push(String::from_str("date"));
    header.push(String::from_str("description"));
    header.push(String::from_str("category"));
    assert(views(header@) =~= header_fields());
    rows.push(header);
    let mut i: usize = 0;
    while i < events.len()
        invariant
            i <= events@.len(),
            kv == event_views(events@),
            forall|k: int| 0 <= k < events@.len() ==> (#[trigger] events@[k]).date.wf(),
            rows_view(rows@) == table(kv.take(i as int)),
        decreases events@.len() - i,
    {
        let row = event_row(&events[i]);
        let ghost before = rows@;
        rows.push(row);
        assert(rows_view(rows@) =~= rows_view(before).push(event_fields(kv[i as int])));
        assert(kv.take(i + 1).map_values(|e: EventView| event_fields(e)) =~= kv.take(
            i as int,
        ).map_values(|e: EventView| event_fields(e)).push(event_fields(kv[i as int])));
        assert(rows_view(rows@) =~= table(kv.take(i + 1)));
        i = i + 1;
    }
    assert(kv.take(events@.len() as int) =~= kv);
    rows
}

/// The contents that rewrite the backing file without the events equal to
/// one of `to_delete`: the header row, then the remaining events of `orig`
/// in their order. Every record has three fields, so the writer always
/// succeeds.
pub fn retained_contents(orig: &[Event], to_delete: &[Event]) -> (r: Vec<u8>)
    requires
        forall|i: int| 0 <= i < orig@.len() ==> (#[trigger] orig@[i]).date.wf(),
    ensures
        r@ == csv_encoding(table(retained(event_views(orig@), event_views(to_delete@)))),
{
    let kept = retained_events(orig, to_delete);
    let rows = table_rows(kept.as_slice());
    proof {
        let t = table(event_views(kept@));
        assert forall|i: int| 0 <= i < rows@.len() implies #[trigger] rows@[i]@.len()
            == rows@[0]@.len() by {
            assert(rows_view(rows@)[i] == views(rows@[i]@));
            assert(rows_view(rows@)[0] == views(rows@[0]@));
            assert(t[0] == header_fields());
            if i > 0 {
                let evs = event_views(kept@).map_values(|e: EventView| event_fields(e));
                assert(rows_view(rows@).len() == rows@.len());
                assert(t.len() == 1 + evs.len());
                assert(t[i] == evs[i - 1]);
                assert(evs[i - 1] == event_fields(event_views(kept@)[i - 1]));
            }
        }
    }
    match write_records(&rows) {
        Some(bytes) => bytes,
        None => Vec::new(),
    }
}

/// The event that a row `date,description,category` of the file holds; a row
/// with other than three fields is unreadable.
pub open spec fn persisted_row_spec(line: Seq<char>) -> Result<EventView, RowError> {
    let fields = split_on(line, ',');
    if fields.len() != 3 {
        Err(RowError::Unreadable)
    } else {
        row_spec(fields[0], fields[1], fields[2])
    }
}

/// Reads one row `date,description,category` of the file, as written by
/// `Event::format_to_string` with `StringFormat::Csv`.
pub fn parse_persisted_row(line: &str) -> (r: Result<Event, RowError>)
    ensures
        match r {
            Ok(e) => persisted_row_spec(line@) == Ok::<EventView, RowError>(e@) && e.date.wf(),
            Err(err) => persisted_row_spec(line@) == Err::<EventView, RowError>(err),
        },
{
    let fields = split_text(line, ',');
    if fields.len() != 3 {
        return Err(RowError::Unreadable);
    }
    assert(views(fields@)[0] == fields@[0]@);
    assert(views(fields@)[1] == fields@[1]@);
    assert(views(fields@)[2] == fields@[2]@);
    parse_row(fields[0].as_str(), fields[1].as_str(), fields[2].as_str())
}

/// A category part that survives the row format: no field or category
/// delimiter, and no whitespace at either end.
pub open spec fn plain_category(s: Seq<char>) -> bool {
    !s.contains(',') && !s.contains('/') && trim(s) == s
}

proof fn lemma_trim_empty()
    ensures
        trim(Seq::<char>::empty()) == Seq::<char>::empty(),
{
    assert(trim_start(Seq::<char>::empty()) == Seq::<char>::empty());
    assert(trim_end(Seq::<char>::empty()) == Seq::<char>::empty());
}

proof fn lemma_not_contains_concat(a: Seq<char>, b: Seq<char>, c: char)
    requires
        !a.contains(c),
        !b.contains(c),
    ensures
        !(a + b).contains(c),
{
    if (a + b).contains(c) {
        let i = choose|i: int| 0 <= i < (a + b).len() && (a + b)[i] == c;
        if i < a.len() {
            assert(a[i] == c);
        } else {
            assert(b[i - a.len()] == c);
        }
    }
}

/// A category of plain parts is written without `,` and splits at `/` back
/// into its parts.
proof fn lemma_category_round_trip(p: Seq<char>, q: Seq<char>)
    requires
        plain_category(p),
        plain_category(q),
    ensures
        !category_text(p, q, StringFormat::Csv).contains(','),
        category_split(category_text(p, q, StringFormat::Csv), '/') == Some((p, q)),
{
    lemma_trim_empty();
    let cat = category_text(p, q, StringFormat::Csv);
    let slash = seq!['/'];
    assert(!slash.contains(',')) by {
        if slash.contains(',') {
            let i = choose|i: int| 0 <= i < slash.len() && slash[i] == ',';
            assert(slash[0] == '/');
        }
    }
    if p.len() == 0 && q.len() == 0 {
        assert(cat =~= Seq::<char>::empty());
        assert(!cat.contains(','));
        assert(split_on(cat, '/') =~= seq![Seq::<char>::empty()]);
        assert(p =~= Seq::<char>::empty());
        assert(q =~= Seq::<char>::empty());
    } else if q.len() == 0 {
        assert(cat == p);
        lemma_split_without_delimiter(cat, '/');
        assert(q =~= Seq::<char>::empty());
    } else {
        assert(cat == p.push('/') + q);
        assert(p + slash =~= p.push('/'));
        lemma_not_contains_concat(p, slash, ',');
        lemma_not_contains_concat(p.push('/'), q, ',');
        lemma_split_concat(p, q, '/');
        lemma_split_without_delimiter(p, '/');
        lemma_split_without_delimiter(q, '/');
        assert(split_on(cat, '/') =~= seq![p, q]);
    }
}

/// Three fields without `,` joined by `,` split back into the three fields.
proof fn lemma_row_split(a: Seq<char>, b: Seq<char>, c: Seq<char>)
    requires
        !a.contains(','),
        !b.contains(','),
        !c.contains(','),
    ensures
        split_on(a + seq![','] + b + seq![','] + c, ',') == seq![a, b, c],
{
    let line = a + seq![','] + b + seq![','] + c;
    let tail = b.push(',') + c;
    assert(line =~= a.push(',') + tail);
    lemma_split_concat(a, tail, ',');
    lemma_split_concat(b, c, ',');
    lemma_split_without_delimiter(a, ',');
    lemma_split_without_delimiter(b, ',');
    lemma_split_without_delimiter(c, ',');
    assert(split_on(line, ',') =~= seq![a, b, c]);
}

/// Writing an event as a row and reading the row back gives the same event,
/// when the year has four digits, the description holds no `,`, and each
/// category part holds no `,` or `/` and no whitespace at either end.
pub proof fn lemma_persisted_round_trip(e: EventView)
    requires
        e.date.wf(),
        0 <= e.date.year <= 9999,
        !e.description.contains(','),
        plain_category(e.primary),
        plain_category(e.secondary),
    ensures
        persisted_row_spec(event_text(e, StringFormat::Csv)) == Ok::<EventView, RowError>(e),
{
    lemma_date_text_layout(e.date);
    let dt = date_text(e.date);
    let cat = category_text(e.primary, e.secondary, StringFormat::Csv);
    assert(!dt.contains(',')) by {
        if dt.contains(',') {
            let i = choose|i: int| 0 <= i < dt.len() && dt[i] == ',';
            assert(ascii_date_layout(dt));
        }
    }
    lemma_category_round_trip(e.primary, e.secondary);
    lemma_row_split(dt, e.description, cat);
}

} // verus!
