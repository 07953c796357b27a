use almanak::date::render_date;
use almanak::{Date, Event, StringFormat};

#[test]
fn test_event_formatting_print() {
    let date = Date::from_ymd(2024, 4, 15).expect("Valid date");
    let chrono_date = chrono::NaiveDate::from_ymd_opt(2024, 4, 15).expect("Valid date");
    let description = "test shananigans".to_string();
    let primary_category = "testprimary".to_string();
    let secondary_category = "testsecondary".to_string();

    let event = Event::new(date, description.clone(), primary_category.clone(), secondary_category.clone());

    let formatted_string = event.format_to_string(StringFormat::Print);

    let expected_string = format!("{}: {}, {}/{}", chrono_date.format("%Y-%m-%d"), description, primary_category, secondary_category);

    assert_eq!(formatted_string, expected_string);
}

#[test]
fn test_event_formatting_csv() {
    let date = Date::from_ymd(2024, 4, 15).expect("Valid date");
    let chrono_date = chrono::NaiveDate::from_ymd_opt(2024, 4, 15).expect("Valid date");
    let description = "test shananigans".to_string();
    let primary_category = "testprimary".to_string();
    let secondary_category = "testsecondary".to_string();

    let event = Event::new(date, description.clone(), primary_category.clone(), secondary_category.clone());

    let formatted_string = event.format_to_string(StringFormat::Csv);

    let expected_string = format!("{},{},{}", chrono_date.format("%Y-%m-%d"), description, format!("{}/{}", primary_category, secondary_category));

    assert_eq!(formatted_string, expected_string);
}

#[test]
fn category_rendering_without_categories() {
    let date = Date::from_ymd(2023, 1, 2).unwrap();
    let event = Event::new(date, "note".to_string(), "".to_string(), "".to_string());
    assert_eq!(event.format_to_string(StringFormat::Print), "2023-01-02: note, /");
    assert_eq!(event.format_to_string(StringFormat::Csv), "2023-01-02,note,");
}

#[test]
fn category_rendering_primary_only() {
    let date = Date::from_ymd(2023, 11, 30).unwrap();
    let event = Event::new(date, "".to_string(), "work".to_string(), "".to_string());
    assert_eq!(event.format_to_string(StringFormat::Print), "2023-11-30: , work");
    assert_eq!(event.format_to_string(StringFormat::Csv), "2023-11-30,,work");
    assert_eq!(event.format_category(StringFormat::Print), "work");
}

#[test]
fn date_rendering_matches_chrono() {
    for (y, m, d) in [(5, 1, 9), (2024, 12, 31), (-1, 3, 4), (12345, 6, 7), (0, 1, 1), (-262143, 1, 1)] {
        let ours = render_date(&Date::from_ymd(y, m, d).unwrap());
        let theirs = chrono::NaiveDate::from_ymd_opt(y, m, d).unwrap().format("%Y-%m-%d").to_string();
        assert_eq!(ours, theirs);
    }
}

#[test]
fn calendar_validity() {
    assert!(Date::from_ymd(2024, 2, 29).is_some());
    assert!(Date::from_ymd(2023, 2, 29).is_none());
    assert!(Date::from_ymd(1900, 2, 29).is_none());
    assert!(Date::from_ymd(2000, 2, 29).is_some());
    assert!(Date::from_ymd(2023, 4, 31).is_none());
    assert!(Date::from_ymd(2023, 13, 1).is_none());
    assert!(Date::from_ymd(2023, 1, 0).is_none());
}

#[test]
fn test_date_reads_calendar_dates() {
    assert_eq!(Event::test_date("2024-02-29"), Ok(Date { year: 2024, month: 2, day: 29 }));
    assert_eq!(Event::test_date("2023-02-29"), Err(almanak::DateError::NotACalendarDate));
    assert_eq!(Event::test_date("2023-6-5"), Ok(Date { year: 2023, month: 6, day: 5 }));
    assert!(Event::test_date("yesterday").is_err());
}
