use chrono::Datelike;
use dri_tracker::calendar::Date;
use dri_tracker::schedule::{assignee, week_label, week_number, weeks_in_year, RotationOffset};

fn date(y: u32, m: u8, d: u8) -> Date {
    Date::from_ymd(y, m, d).expect("valid date")
}

#[test]
fn iso_week_known_dates() {
    // Published ISO-8601 reference points, year boundaries included.
    assert_eq!(week_number(&date(2024, 1, 1)), 1);
    assert_eq!(week_number(&date(2024, 12, 31)), 1); // week 1 of 2025
    assert_eq!(week_number(&date(2020, 12, 31)), 53);
    assert_eq!(week_number(&date(2021, 1, 1)), 53); // week 53 of 2020
    assert_eq!(week_number(&date(2015, 12, 28)), 53);
    assert_eq!(week_number(&date(2005, 1, 1)), 53); // week 53 of 2004
    assert_eq!(week_number(&date(2005, 1, 2)), 53);
    assert_eq!(week_number(&date(2005, 12, 31)), 52);
    assert_eq!(week_number(&date(2007, 1, 1)), 1);
    assert_eq!(week_number(&date(2007, 12, 30)), 52);
    assert_eq!(week_number(&date(2007, 12, 31)), 1); // week 1 of 2008
    assert_eq!(week_number(&date(2008, 12, 28)), 52);
    assert_eq!(week_number(&date(2008, 12, 29)), 1); // week 1 of 2009
    assert_eq!(week_number(&date(2010, 1, 3)), 53); // week 53 of 2009
    assert_eq!(week_number(&date(1999, 1, 1)), 53); // week 53 of 1998
}

#[test]
fn iso_week_matches_chrono_over_four_decades() {
    let mut day = chrono::NaiveDate::from_ymd_opt(1995, 1, 1).unwrap();
    let end = chrono::NaiveDate::from_ymd_opt(2035, 12, 31).unwrap();
    while day <= end {
        let d = date(day.year() as u32, day.month() as u8, day.day() as u8);
        assert_eq!(
            week_number(&d),
            day.iso_week().week() as u64,
            "week number mismatch on {}",
            day
        );
        day = day.succ_opt().unwrap();
    }
}

#[test]
fn weeks_in_year_matches_chrono() {
    for y in 1995..=2035 {
        let dec31 = chrono::NaiveDate::from_ymd_opt(y, 12, 31).unwrap();
        let d = date(y as u32, 6, 15);
        assert_eq!(weeks_in_year(&d), dec31.iso_week().week() as u64);
    }
}

#[test]
fn weeks_in_year_examples() {
    assert_eq!(weeks_in_year(&date(2020, 3, 1)), 53);
    assert_eq!(weeks_in_year(&date(2021, 3, 1)), 52);
    // December 31, 2024 already belongs to week 1 of 2025, and the tracker
    // shows exactly that number.
    assert_eq!(weeks_in_year(&date(2024, 3, 1)), 1);
}

fn abc() -> Vec<String> {
    vec!["Alice".to_string(), "Bob".to_string(), "Carol".to_string()]
}

#[test]
fn rotation_scenario_week_ten() {
    // 2024-03-05 is a Tuesday in ISO week 10 of 2024.
    let d = date(2024, 3, 5);
    assert_eq!(week_number(&d), 10);
    let names = abc();
    let current = assignee(&d, RotationOffset::Current, &names);
    let previous = assignee(&d, RotationOffset::Previous, &names);
    let next = assignee(&d, RotationOffset::Next, &names);
    assert_eq!(current.week_index, 10);
    assert_eq!(current.name, "Bob"); // names[10 % 3]
    assert_eq!(previous.week_index, 9);
    assert_eq!(previous.name, "Alice"); // names[9 % 3]
    assert_eq!(next.week_index, 11);
    assert_eq!(next.name, "Carol"); // names[11 % 3]
}

#[test]
fn rotation_is_week_modulo() {
    let names = abc();
    for (y, m, d) in [(2023u32, 1u8, 4u8), (2024, 2, 29), (2024, 12, 28), (2025, 6, 30)] {
        let day = date(y, m, d);
        let w = week_number(&day);
        let r = assignee(&day, RotationOffset::Current, &names);
        assert_eq!(r.name, names[(w % 3) as usize]);
        // Deterministic: the same inputs always give the same answer.
        let again = assignee(&day, RotationOffset::Current, &names);
        assert_eq!(again.week_index, r.week_index);
        assert_eq!(again.name, r.name);
    }
}

#[test]
fn offset_consistency_across_week_and_year_boundaries() {
    let names = abc();
    let pairs = [
        ((2024u32, 3u8, 5u8), (2024u32, 3u8, 12u8)),
        ((2024, 12, 26), (2025, 1, 2)),
        ((2020, 12, 28), (2021, 1, 4)),
    ];
    for ((y1, m1, d1), (y2, m2, d2)) in pairs {
        let a = date(y1, m1, d1);
        let b = date(y2, m2, d2);
        let next = assignee(&a, RotationOffset::Next, &names);
        let current = assignee(&b, RotationOffset::Current, &names);
        assert_eq!(next.week_index, current.week_index);
        assert_eq!(next.name, current.name);
    }
}

#[test]
fn small_lists_fall_back_to_placeholders() {
    let d = date(2024, 3, 5);
    for names in [Vec::<String>::new(), vec!["Solo".to_string()]] {
        let previous = assignee(&d, RotationOffset::Previous, &names);
        let current = assignee(&d, RotationOffset::Current, &names);
        let next = assignee(&d, RotationOffset::Next, &names);
        assert_eq!(previous.name, "Phillip J. Fry");
        assert_eq!(current.name, "Turanga Leela");
        assert_eq!(next.name, "Dr. John A. Zoidberg");
        // The week badge is still shown.
        assert_eq!(current.week_index, 10);
    }
}

#[test]
fn week_label_formats_week_over_total() {
    assert_eq!(week_label(&date(2023, 6, 15)), "24/52");
    assert_eq!(week_label(&date(2020, 12, 31)), "53/53");
    assert_eq!(week_label(&date(2024, 1, 1)), "1/1");
}

#[test]
fn date_validation() {
    assert!(Date::from_ymd(2024, 2, 29).is_some());
    assert!(Date::from_ymd(2023, 2, 29).is_none());
    assert!(Date::from_ymd(2024, 13, 1).is_none());
    assert!(Date::from_ymd(2024, 0, 1).is_none());
    assert!(Date::from_ymd(2024, 4, 31).is_none());
    assert!(Date::from_ymd(0, 1, 1).is_none());
    assert!(Date::from_ymd(10000, 1, 1).is_none());
    assert!(Date::from_ymd(9999, 12, 31).is_some());
}
