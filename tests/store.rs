use almanak::{
    events_from_csv, parse_persisted_row, retained_contents, retained_events, sort_events, Date, Event, RowError,
    StringFormat,
};

fn event(y: i32, m: u32, d: u32, description: &str, primary: &str, secondary: &str) -> Event {
    Event::new(Date::from_ymd(y, m, d).unwrap(), description.to_string(), primary.to_string(), secondary.to_string())
}

#[test]
fn persisted_row_round_trip() {
    let samples = vec![
        event(2024, 4, 15, "dentist", "health", "teeth"),
        event(1999, 12, 31, "", "", ""),
        event(2000, 2, 29, "leap day", "misc", ""),
        event(2021, 7, 4, "odd", "", "second only"),
    ];
    for e in samples {
        let row = e.format_to_string(StringFormat::Csv);
        let back = parse_persisted_row(&row).unwrap();
        assert_eq!(back, e);
    }
}

#[test]
fn persisted_row_errors() {
    assert_eq!(parse_persisted_row("2024-04-15,a"), Err(RowError::Unreadable));
    assert_eq!(parse_persisted_row("2024-04-31,a,b"), Err(RowError::BadDate));
    assert_eq!(parse_persisted_row("2024-04-30,a,b/c/d"), Err(RowError::BadCategory));
}

#[test]
fn loading_skips_bad_rows() {
    let content = "date,description,category\n\
2024-01-02,first,work/office\n\
2024-02-30,bad date,work\n\
2024-03-04,bad category,a/b/c\n\
2024-03-05,short\n\
2024-05-06,last,\n";
    let (events, skipped) = events_from_csv(content.as_bytes());
    assert_eq!(events, vec![event(2024, 1, 2, "first", "work", "office"), event(2024, 5, 6, "last", "", "")]);
    assert_eq!(skipped, vec![RowError::BadDate, RowError::BadCategory, RowError::Unreadable]);
}

#[test]
fn loading_header_only() {
    let (events, skipped) = events_from_csv(b"date,description,category\n");
    assert!(events.is_empty());
    assert!(skipped.is_empty());
}

#[test]
fn deletion_keeps_the_others_in_order() {
    let a = event(2022, 4, 1, "A", "work", "");
    let b = event(2022, 4, 15, "B", "study", "homework");
    let c = event(2023, 1, 1, "C", "", "");
    let orig = vec![a.clone(), b.clone(), c.clone()];
    let contents = retained_contents(&orig, &[b.clone()]);
    let text = String::from_utf8(contents.clone()).unwrap();
    assert_eq!(text, "date,description,category\n2022-04-01,A,work\n2023-01-01,C,\n");
    let (back, skipped) = events_from_csv(&contents);
    assert_eq!(back, vec![a, c]);
    assert!(skipped.is_empty());
}

#[test]
fn deletion_is_by_equality_not_position() {
    let a = event(2022, 4, 1, "A", "work", "");
    let a_other = event(2022, 4, 1, "A", "work", "x");
    let orig = vec![a.clone(), a_other.clone(), a.clone()];
    let kept = retained_events(&orig, &[a.clone()]);
    assert_eq!(kept, vec![a_other]);
    let all = retained_events(&orig, &[]);
    assert_eq!(all.len(), 3);
}

#[test]
fn sorting_for_display() {
    let mut events = vec![
        event(2023, 5, 1, "b", "", ""),
        event(2022, 12, 31, "z", "", ""),
        event(2023, 5, 1, "a", "y", ""),
        event(2023, 5, 1, "a", "x", ""),
    ];
    sort_events(&mut events);
    let names: Vec<String> = events.iter().map(|e| format!("{}{}", e.description, e.primary_category)).collect();
    assert_eq!(names, vec!["z", "ax", "ay", "b"]);
}

#[test]
fn deletion_removes_every_copy_and_ignores_absent_events() {
    let a = event(2022, 4, 1, "a", "work", "");
    let b = event(2022, 4, 2, "b", "study", "math");
    let c = event(2022, 4, 3, "c", "", "");
    let d = event(2022, 4, 4, "d", "", "");
    let orig = vec![a.clone(), b.clone(), a.clone(), c.clone()];
    let contents = retained_contents(&orig, &[a, d]);
    let text = String::from_utf8(contents).unwrap();
    assert_eq!(text, "date,description,category\n2022-04-02,b,study/math\n2022-04-03,c,\n");
}

#[test]
fn deleting_nothing_keeps_every_row() {
    let orig = vec![event(2022, 4, 1, "a", "work", ""), event(2021, 1, 1, "z", "x", "y")];
    let text = String::from_utf8(retained_contents(&orig, &[])).unwrap();
    let mut expected = String::from("date,description,category\n");
    for e in &orig {
        expected.push_str(&e.format_to_string(StringFormat::Csv));
        expected.push('\n');
    }
    assert_eq!(text, expected);
}
