use almanak::{filter_by_date, filter_by_string, validate_date_format, Date, DateComparison, DateError, Event};
use almanak::query::{query, query_on, Criterion};
use chrono::Datelike;

fn get_today() -> Date {
    let d = chrono::Local::now().date_naive();
    Date::from_ymd(d.year(), d.month(), d.day()).expect("Valid date")
}

fn create_test_events() -> Vec<Event> {
    vec![
        Event::new(Date::from_ymd(2022, 4, 1).expect("Valid date"), "event1".to_string(), "work".to_string(), "".to_string()),
        Event::new(Date::from_ymd(2022, 4, 15).expect("Valid date"), "event2".to_string(), "study".to_string(), "homework".to_string()),
        Event::new(get_today(), "event3".to_string(), "exercise".to_string(), "running".to_string()),
    ]
}

#[test]
fn test_date_format() {
    assert!(validate_date_format("2022-06-05"));
    assert!(!validate_date_format("2022-6-05"));
    assert!(!validate_date_format("2024-06-5"));
}

#[test]
fn date_format_gate_edges() {
    assert!(!validate_date_format(""));
    assert!(!validate_date_format("2022-06-05 "));
    assert!(!validate_date_format("2022/06/05"));
    assert!(!validate_date_format("22022-06-05"));
    assert!(validate_date_format("2022-13-45"));
}

#[test]
fn test_filter_by_string_include_category() {
    let events = create_test_events();
    let mut results = Vec::new();
    filter_by_string(&events, &mut results, "work", false, true);

    assert_eq!(results.len(), 1);
    assert_eq!(results[0].description, "event1");
}

#[test]
fn test_filter_by_string_exclude_category() {
    let events = create_test_events();
    let mut results = Vec::new();
    filter_by_string(&events, &mut results, "study", true, true);

    assert_eq!(results.len(), 2);
    assert_eq!(results[0].description, "event1");
    assert_eq!(results[1].description, "event3");
}

#[test]
fn test_filter_by_string_description() {
    let events = create_test_events();
    let mut results = Vec::new();
    filter_by_string(&events, &mut results, "event2", false, false);

    assert_eq!(results.len(), 1);
    assert_eq!(results[0].description, "event2");
}

#[test]
fn test_filter_by_date_before() {
    let events = create_test_events();
    let mut results = Vec::new();
    filter_by_date(&events, &mut results, "2022-04-15", DateComparison::Before).unwrap();

    assert_eq!(results.len(), 1);
    assert_eq!(results[0].description, "event1");
}

#[test]
fn test_filter_by_date_after() {
    let events = create_test_events();
    let mut results = Vec::new();
    filter_by_date(&events, &mut results, "2022-04-15", DateComparison::After).unwrap();

    assert_eq!(results.len(), 1);
    assert_eq!(results[0].description, "event3");
}

#[test]
fn test_filter_by_date_exact() {
    let events = create_test_events();
    let mut results = Vec::new();
    filter_by_date(&events, &mut results, "2022-04-15", DateComparison::Exact).unwrap();

    assert_eq!(results.len(), 1);
    assert_eq!(results[0].description, "event2");
}

#[test]
fn test_filter_by_date_today() {
    let events = create_test_events();
    let mut results = Vec::new();
    filter_by_date(&events, &mut results, "", DateComparison::Today).unwrap();

    assert_eq!(results.len(), 1);
    assert_eq!(results[0].description, "event3");
}

#[test]
fn test_filter_by_date_all() {
    let events = create_test_events();
    let mut results = Vec::new();
    filter_by_date(&events, &mut results, "2022-04-15", DateComparison::All).unwrap();

    assert_eq!(results.len(), 3);
}

#[test]
fn filter_by_date_all_twice_adds_nothing() {
    let events = create_test_events();
    let mut results = Vec::new();
    filter_by_date(&events, &mut results, "", DateComparison::All).unwrap();
    filter_by_date(&events, &mut results, "", DateComparison::All).unwrap();
    assert_eq!(results.len(), 3);
    assert_eq!(results[0].description, "event1");
    assert_eq!(results[2].description, "event3");
}

#[test]
fn filter_by_date_rejects_bad_dates() {
    let events = create_test_events();
    let mut results = Vec::new();
    assert_eq!(filter_by_date(&events, &mut results, "2022-4-15", DateComparison::Before), Err(DateError::BadLayout));
    assert_eq!(filter_by_date(&events, &mut results, "", DateComparison::Exact), Err(DateError::BadLayout));
    assert_eq!(filter_by_date(&events, &mut results, "2022-02-30", DateComparison::After), Err(DateError::NotACalendarDate));
    assert!(results.is_empty());
}

#[test]
fn filters_accumulate_as_union() {
    let events = create_test_events();
    let mut results = Vec::new();
    filter_by_string(&events, &mut results, "study", false, true);
    filter_by_date(&events, &mut results, "2022-04-15", DateComparison::Before).unwrap();
    filter_by_date(&events, &mut results, "2022-04-15", DateComparison::Exact).unwrap();
    assert_eq!(results.len(), 2);
    assert_eq!(results[0].description, "event2");
    assert_eq!(results[1].description, "event1");
}

#[test]
fn filter_by_string_twice_is_unchanged() {
    let events = create_test_events();
    let mut results = Vec::new();
    filter_by_string(&events, &mut results, "work, run", false, true);
    let first: Vec<String> = results.iter().map(|e| e.description.clone()).collect();
    filter_by_string(&events, &mut results, "work, run", false, true);
    let second: Vec<String> = results.iter().map(|e| e.description.clone()).collect();
    assert_eq!(first, vec!["event1".to_string(), "event3".to_string()]);
    assert_eq!(first, second);
}

#[test]
fn category_match_ignores_case_and_checks_secondary() {
    let events = create_test_events();
    let mut results = Vec::new();
    filter_by_string(&events, &mut results, "HOME", false, true);
    assert_eq!(results.len(), 1);
    assert_eq!(results[0].description, "event2");
}

#[test]
fn category_exclusion_of_work() {
    let events = create_test_events();
    let mut results = Vec::new();
    filter_by_string(&events, &mut results, "Work", true, true);
    let names: Vec<&str> = results.iter().map(|e| e.description.as_str()).collect();
    assert_eq!(names, vec!["event2", "event3"]);
}

#[test]
fn description_prefix_is_case_insensitive() {
    let events = create_test_events();
    let mut results = Vec::new();
    filter_by_string(&events, &mut results, "EVENT", false, false);
    assert_eq!(results.len(), 3);
    let mut none = Vec::new();
    filter_by_string(&events, &mut none, "vent", false, false);
    assert!(none.is_empty());
}

#[test]
fn category_terms_and_matching() {
    let terms = almanak::filter::category_terms(" work , home,");
    assert_eq!(terms, vec!["work".to_string(), "home".to_string(), "".to_string()]);
    assert!(almanak::filter::category_matches(&terms[0..1].to_vec(), "workout", ""));
    assert!(!almanak::filter::category_matches(&terms[0..2].to_vec(), "study", "school"));
    assert!(almanak::filter::category_matches(&terms, "study", "school"));
}

#[test]
fn query_is_the_union_of_its_criteria() {
    let events = create_test_events();
    let today = get_today();
    let criteria = vec![
        Criterion::Category("work".to_string(), false),
        Criterion::Date(DateComparison::Today, String::new()),
        Criterion::Description("EVENT1".to_string()),
    ];
    let results = query_on(&events, &criteria, today).unwrap();
    let names: Vec<&str> = results.iter().map(|e| e.description.as_str()).collect();
    assert_eq!(names, vec!["event1", "event3"]);
}

#[test]
fn query_fails_on_a_bad_date() {
    let events = create_test_events();
    let criteria = vec![
        Criterion::Category("work".to_string(), false),
        Criterion::Date(DateComparison::Before, "2022-4-1".to_string()),
    ];
    assert_eq!(query(&events, &criteria).unwrap_err(), DateError::BadLayout);
    assert!(query(&events, &vec![]).unwrap().is_empty());
    let all = query(&events, &vec![Criterion::Date(DateComparison::All, String::new())]).unwrap();
    assert_eq!(all.len(), 3);
}
