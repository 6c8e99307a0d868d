use manga_scan::calculate_peaks::Ratio;
use manga_scan::calendar::{calendar_day, parse_minute, CalendarDay};
use manga_scan::manga::{Chapter, ChapterNo, ChapterNoError, Comment, Manga};
use manga_scan::schedule::Schedule;
use manga_scan::weekday::{NumberedWeekday, WeekdayWithNumber};
use std::cmp::Ordering;

const SUNDAY_2024_01_07: i64 = 28409760;
const WEEK: i64 = 7 * 1440;

fn day(day_number: i32, weekday: u8, day0: u8) -> CalendarDay {
    CalendarDay { day_number, weekday, day0 }
}

fn weekly(first: i32, weekday: u8, count: i32) -> Vec<CalendarDay> {
    (0..count)
        .map(|k| day(first + 7 * k, weekday, ((7 * k) % 31) as u8))
        .collect()
}

fn threshold() -> Ratio {
    Ratio::new(6, 10)
}

#[test]
fn weekly_sunday_updates_are_a_weekday_cadence() {
    let days = weekly(738892, 6, 6);
    let now = 738892 + 35 + 1;
    assert_eq!(Schedule::classify(&days, now, threshold()), Schedule::Day(NumberedWeekday::Sun));
}

#[test]
fn weekly_monday_updates_are_not_confident_enough() {
    // a single weekday peak scores its number over seven: Monday scores 0
    let days = weekly(738893, 0, 6);
    let now = 738893 + 35;
    assert_eq!(Schedule::classify(&days, now, threshold()), Schedule::Unknown);
}

#[test]
fn repeats_of_a_day_count_once() {
    let mut days = Vec::new();
    for d in weekly(738892, 6, 6) {
        days.push(d);
        days.push(d);
    }
    let now = 738892 + 35;
    assert_eq!(Schedule::classify(&days, now, threshold()), Schedule::Day(NumberedWeekday::Sun));
}

#[test]
fn one_distinct_day_is_unknown() {
    let days = vec![day(738892, 6, 6), day(738892, 6, 6)];
    assert_eq!(Schedule::classify(&days, 738892, threshold()), Schedule::Unknown);
    assert_eq!(Schedule::classify(&Vec::new(), 738892, threshold()), Schedule::Unknown);
}

#[test]
fn stale_updates_are_unknown() {
    let days = weekly(738892, 6, 6);
    let last = 738892 + 35;
    assert_eq!(Schedule::classify(&days, last + 30, threshold()), Schedule::Day(NumberedWeekday::Sun));
    assert_eq!(Schedule::classify(&days, last + 31, threshold()), Schedule::Unknown);
}

#[test]
fn short_span_is_unknown() {
    let days = weekly(738892, 6, 4);
    assert_eq!(Schedule::classify(&days, 738892 + 21, threshold()), Schedule::Unknown);
}

#[test]
fn a_lower_threshold_accepts_a_weaker_peak() {
    // Friday scores 4/7, which is above 1/2 but not above 6/10
    let days = weekly(738898, 4, 6);
    let now = 738898 + 35;
    assert_eq!(Schedule::classify(&days, now, threshold()), Schedule::Unknown);
    assert_eq!(Schedule::classify(&days, now, Ratio::new(1, 2)), Schedule::Day(NumberedWeekday::Fri));
}

#[test]
fn calendar_day_of_a_minute() {
    assert_eq!(calendar_day(SUNDAY_2024_01_07), Some(day(738892, 6, 6)));
    assert_eq!(calendar_day(SUNDAY_2024_01_07 + 1439), Some(day(738892, 6, 6)));
    assert_eq!(calendar_day(SUNDAY_2024_01_07 + 1440), Some(day(738893, 0, 7)));
    assert_eq!(calendar_day(i64::MAX), None);
}

#[test]
fn parse_minute_reads_utc_times() {
    let fmt = "%Y-%m-%d %H:%M:%S";
    assert_eq!(parse_minute("2024-01-07 12:30:59", fmt), Some(SUNDAY_2024_01_07 + 750));
    assert_eq!(parse_minute("1969-12-31 23:59:30", fmt), Some(-1));
    assert_eq!(parse_minute("2024-01-07", fmt), None);
}

fn manga_with_updates(dates: Vec<i64>) -> Manga {
    Manga {
        name: "weekly".to_string(),
        chapters: dates
            .into_iter()
            .enumerate()
            .map(|(i, date)| Chapter { chap_no: ChapterNo(i as u32, 0), date })
            .collect(),
        subs: 10,
        comments: vec![Comment { id: 1, date: SUNDAY_2024_01_07 }],
    }
}

#[test]
fn schedules_of_items_from_their_update_times() {
    let weekly_dates: Vec<i64> = (0..6).map(|k| SUNDAY_2024_01_07 + 600 + k * WEEK).collect();
    let now = SUNDAY_2024_01_07 + 5 * WEEK + 1440;
    let items = vec![
        manga_with_updates(weekly_dates.clone()),
        manga_with_updates(Vec::new()),
        manga_with_updates(vec![SUNDAY_2024_01_07]),
    ];
    let labels = Schedule::calculate_schedule(&items, now, threshold());
    assert_eq!(labels.len(), 3);
    assert_eq!(labels[0], Schedule::Day(NumberedWeekday::Sun));
    assert_eq!(labels[1], Schedule::Unknown);
    assert_eq!(labels[2], Schedule::Unknown);
    let stale = Schedule::calculate_schedule(&items, now + 40 * 1440, threshold());
    assert_eq!(stale[0], Schedule::Unknown);
}

#[test]
fn labels_sort_for_display() {
    let unknown = Schedule::Unknown;
    let monday = Schedule::Day(NumberedWeekday::Mon);
    let sunday = Schedule::Day(NumberedWeekday::Sun);
    let every = Schedule::Every(3);
    let monthly = Schedule::Monthly(1);
    let multiple = Schedule::Multiple(vec![Schedule::Every(2), Schedule::Every(9)]);
    let other_multiple = Schedule::Multiple(vec![Schedule::Monthly(4)]);
    assert_eq!(unknown.compare(&monday), Ordering::Less);
    assert_eq!(monday.compare(&sunday), Ordering::Less);
    assert_eq!(sunday.compare(&every), Ordering::Less);
    assert_eq!(every.compare(&monthly), Ordering::Less);
    assert_eq!(monthly.compare(&multiple), Ordering::Less);
    assert_eq!(multiple.compare(&other_multiple), Ordering::Equal);
    assert_eq!(Schedule::Every(5).compare(&every), Ordering::Greater);
    assert_eq!(unknown.compare(&Schedule::Unknown), Ordering::Equal);
}

#[test]
fn weekdays_from_numbers() {
    assert_eq!(NumberedWeekday::from_usize(0), NumberedWeekday::Mon);
    assert_eq!(NumberedWeekday::from_usize(4), NumberedWeekday::Fri);
    assert_eq!(<NumberedWeekday as WeekdayWithNumber>::from_usize(6), NumberedWeekday::Sun);
    assert_eq!(NumberedWeekday::Wed.num_days_from_monday(), 2);
}

#[test]
fn chapter_numbers_from_integer_codes() {
    assert_eq!(ChapterNo::from_int(100125), ChapterNo(10002, 5));
    assert_eq!(ChapterNo::from_int(999), ChapterNo(99, 9));
    assert_eq!(ChapterNo::from_int(0), ChapterNo(0, 0));
}

#[test]
fn chapter_numbers_from_text_codes() {
    assert_eq!(ChapterNo::from_str("100125"), Ok(ChapterNo(12, 5)));
    assert_eq!(ChapterNo::from_str("1+70"), Ok(ChapterNo(7, 0)));
    assert_eq!(ChapterNo::from_str("1"), Err(ChapterNoError::TooShort));
    assert_eq!(ChapterNo::from_str("15"), Err(ChapterNoError::BadNumber));
    assert_eq!(ChapterNo::from_str("1a25"), Err(ChapterNoError::BadNumber));
    assert_eq!(ChapterNo::from_str("1429496729615"), Err(ChapterNoError::BadNumber));
    assert_eq!(ChapterNo::from_str("14294967295x"), Err(ChapterNoError::BadDecimal));
    assert_eq!(ChapterNo::from_str("142949672955"), Ok(ChapterNo(4294967295, 5)));
    assert!(ChapterNo(12, 5) < ChapterNo(13, 0));
    assert!(ChapterNo(12, 5) > ChapterNo(12, 0));
}

#[test]
fn update_order_does_not_change_the_label() {
    let sunday_feb_11 = SUNDAY_2024_01_07 + 5 * WEEK;
    let wednesday_feb_14 = sunday_feb_11 + 3 * 1440;
    let items = vec![
        manga_with_updates(vec![SUNDAY_2024_01_07, sunday_feb_11]),
        manga_with_updates(vec![sunday_feb_11, SUNDAY_2024_01_07]),
        manga_with_updates(vec![sunday_feb_11, SUNDAY_2024_01_07 + 60, sunday_feb_11 + 5, SUNDAY_2024_01_07]),
    ];
    let labels = Schedule::calculate_schedule(&items, wednesday_feb_14, threshold());
    for label in &labels {
        assert_eq!(*label, Schedule::Day(NumberedWeekday::Sun));
    }
    let mut days = weekly(738892, 6, 6);
    days.reverse();
    assert_eq!(Schedule::classify(&days, 738892 + 36, threshold()), Schedule::Day(NumberedWeekday::Sun));
}
