//! The event record, its two text renderings, and the codec for the
//! two-part `primary/secondary` category.
use vstd::prelude::*;
use crate::date::{
    Date, DateError, parse_date, parse_date_spec, ascii_date_layout, layout_ymd, valid_ymd,
    date_text, render_date,
};
use crate::text::{
    split_on, trim, split_text, trim_text, views, lemma_split_nonempty, lowered, lowercase,
};

verus! {

/// One dated entry of the log.
#[derive(Debug)]
pub struct Event {
    pub date: Date,
    pub description: String,
    pub primary_category: String,
    pub secondary_category: String,
}

/// The mathematical value of an [`Event`].
pub struct EventView {
    pub date: Date,
    pub description: Seq<char>,
    pub primary: Seq<char>,
    pub secondary: Seq<char>,
}

impl View for Event {
    type V = EventView;

    open spec fn view(&self) -> EventView {
        EventView {
            date: self.date,
            description: self.description@,
            primary: self.primary_category@,
            secondary: self.secondary_category@,
        }
    }
}

impl PartialEq for Event {
    fn eq(&self, other: &Event) -> (r: bool)
        ensures
            r == (self@ == other@),
    {
        self.date == other.date && self.description == other.description
            && self.primary_category == other.primary_category && self.secondary_category
            == other.secondary_category
    }
}

impl vstd::std_specs::cmp::PartialEqSpecImpl for Event {
    open spec fn obeys_eq_spec() -> bool {
        true
    }

    open spec fn eq_spec(&self, other: &Event) -> bool {
        self@ == other@
    }
}

impl Eq for Event {

}

impl Clone for Event {
    fn clone(&self) -> (r: Self)
        ensures
            r == *self,
    {
        Event {
            date: self.date,
            description: self.description.clone(),
            primary_category: self.primary_category.clone(),
            secondary_category: self.secondary_category.clone(),
        }
    }
}

/// The two text forms of an event: the human-readable line, and the row of
/// the backing file.
#[derive(Clone, Copy, Debug, PartialEq, Eq, Structural)]
pub enum StringFormat {
    Print,
    Csv,
}

/// The category text: `primary/secondary`, `primary` alone when there is no
/// secondary, and for no category at all `/` when printed, nothing in a row.
pub open spec fn category_text(p: Seq<char>, s: Seq<char>, format: StringFormat) -> Seq<char> {
    if p.len() == 0 && s.len() == 0 {
        match format {
            StringFormat::Print => seq!['/'],
            StringFormat::Csv => Seq::<char>::empty(),
        }
    } else if s.len() == 0 {
        p
    } else {
        p + seq!['/'] + s
    }
}

/// The text of an event: `date: description, category` when printed,
/// `date,description,category` as a row.
pub open spec fn event_text(e: EventView, format: StringFormat) -> Seq<char> {
    let c = category_text(e.primary, e.secondary, format);
    match format {
        StringFormat::Print => date_text(e.date) + seq![':', ' '] + e.description + seq![',', ' ']
            + c,
        StringFormat::Csv => date_text(e.date) + seq![','] + e.description + seq![','] + c,
    }
}

/// The two parts of a category text split at `d`: each trimmed, the second
/// empty when absent, and `None` when there is a third part.
pub open spec fn category_split(s: Seq<char>, d: char) -> Option<(Seq<char>, Seq<char>)> {
    let parts = split_on(s, d);
    if parts.len() > 2 {
        None
    } else if parts.len() == 2 {
        Some((trim(parts[0]), trim(parts[1])))
    } else {
        Some((trim(parts[0]), Seq::<char>::empty()))
    }
}

impl Event {
    pub fn new(
        date: Date,
        description: String,
        primary_category: String,
        secondary_category: String,
    ) -> (r: Self)
        ensures
            r.date == date,
            r.description == description,
            r.primary_category == primary_category,
            r.secondary_category == secondary_category,
    {
        Event { date, description, primary_category, secondary_category }
    }

    /// Reads a `YYYY-MM-DD` date with the calendar parser alone, without the
    /// strict layout gate.
    pub fn test_date(date: &str) -> (r: Result<Date, DateError>)
        ensures
            r == parse_date_spec(date@),
            r is Ok ==> r->Ok_0.wf(),
            ascii_date_layout(date@) ==> (r is Ok <==> valid_ymd(
                layout_ymd(date@).0,
                layout_ymd(date@).1,
                layout_ymd(date@).2,
            )),
            ascii_date_layout(date@) && r is Ok ==> (r->Ok_0.year as int, r->Ok_0.month as int,
            r->Ok_0.day as int) == layout_ymd(date@),
    {
        parse_date(date)
    }

    /// The category in the given text form.
    pub fn format_category(&self, format: StringFormat) -> (r: String)
        ensures
            r@ == category_text(self.primary_category@, self.secondary_category@, format),
    {
        let p_empty = self.primary_category.as_str().unicode_len() == 0;
        let s_empty = self.secondary_category.as_str().unicode_len() == 0;
        if p_empty && s_empty {
            match format {
                StringFormat::Print => {
                    proof {
                        reveal_strlit("/");
                    }
                    String::from_str("/")
                },
                StringFormat::Csv => String::new(),
            }
        } else if s_empty {
            self.primary_category.clone()
        } else {
            proof {
                reveal_strlit("/");
            }
            let mut out = self.primary_category.clone();
            out.append("/");
            out.append(self.secondary_category.as_str());
            out
        }
    }

    /// The event in the given text form.
    pub fn format_to_string(&self, format: StringFormat) -> (r: String)
        requires
            self.date.wf(),
        ensures
            r@ == event_text(self@, format),
    {
        let mut out = render_date(&self.date);
        let category = self.format_category(format);
        proof {
            reveal_strlit(": ");
            reveal_strlit(", ");
            reveal_strlit(",");
        }
        match format {
            StringFormat::Print => {
                out.append(": ");
                out.append(self.description.as_str());
                out.append(", ");
            },
            StringFormat::Csv => {
                out.append(",");
                out.append(self.description.as_str());
                out.append(",");
            },
        }
        out.append(category.as_str());
        out
    }
}

/// Splits a two-part category at `splitter`, trimming each part; the second
/// part is empty when absent. A third part is an error.
pub fn parse_string(categories: &str, splitter: char) -> (r: Result<(String, String), String>)
    ensures
        r is Ok <==> category_split(categories@, splitter) is Some,
        r is Ok ==> category_split(categories@, splitter) == Some(
            (r->Ok_0.0@, r->Ok_0.1@),
        ),
        r is Err ==> r->Err_0@ == "Too many parts in category for the split"@,
{
    let parts = split_text(categories, splitter);
    proof {
        lemma_split_nonempty(categories@, splitter);
    }
    assert(parts@.len() == split_on(categories@, splitter).len());
    if parts.len() > 2 {
        return Err(String::from_str("Too many parts in category for the split"));
    }
    assert(views(parts@)[0] == parts@[0]@);
    let first = trim_text(parts[0].as_str());
    let second = if parts.len() == 2 {
        assert(views(parts@)[1] == parts@[1]@);
        trim_text(parts[1].as_str())
    } else {
        String::new()
    };
    Ok((first, second))
}


/// Reads a user-supplied `primary[,secondary]` category: lower-cased, then
/// split at `,` as [`parse_string`] does.
pub fn parse_input_category(category: &str) -> (r: Result<(String, String), String>)
    ensures
        r is Ok <==> category_split(lowered(category@), ',') is Some,
        r is Ok ==> category_split(lowered(category@), ',') == Some(
            (r->Ok_0.0@, r->Ok_0.1@),
        ),
        r is Err ==> r->Err_0@ == "Too many parts in category for the split"@,
{
    let lower = lowercase(category);
    parse_string(lower.as_str(), ',')
}

} // verus!
