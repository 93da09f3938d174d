use hifzsdk::json::Json;
use hifzsdk::sdk::piece1::parse_verses;
use hifzsdk::sdk::{
    build_plan, build_plan_from_days, chapters_from_json, chunk_daily, flatten, parse_quran,
    try_parse_quran, Chapter, VerseRef, MANZIL_DAYS, SABQI_WINDOW, VERSES_PER_DAY,
};

fn v(chapter: u32, verse: u32) -> VerseRef {
    VerseRef { chapter, verse }
}

fn chapter(number: u32, count: u32) -> Chapter {
    Chapter { number, verses: (1..=count).map(|i| v(number, i)).collect() }
}

#[test]
fn flatten_keeps_chapter_then_verse_order() {
    let chapters = vec![chapter(1, 2), chapter(2, 0), chapter(3, 1)];
    assert_eq!(flatten(&chapters), vec![v(1, 1), v(1, 2), v(3, 1)]);
    assert_eq!(flatten(&[]), Vec::<VerseRef>::new());
}

#[test]
fn chunk_daily_never_breaks_a_surah() {
    let verses = flatten(&[chapter(1, 7), chapter(2, 16)]);
    let days = chunk_daily(&verses, 10);
    assert_eq!(days.len(), 3);
    assert_eq!(days[0], (1..=7).map(|i| v(1, i)).collect::<Vec<_>>());
    assert_eq!(days[1], (1..=10).map(|i| v(2, i)).collect::<Vec<_>>());
    assert_eq!(days[2], (11..=16).map(|i| v(2, i)).collect::<Vec<_>>());
    let back: Vec<VerseRef> = days.concat();
    assert_eq!(back, verses);
}

#[test]
fn chunk_daily_short_surahs_get_their_own_day() {
    let verses = flatten(&[chapter(1, 7), chapter(2, 5)]);
    let days = chunk_daily(&verses, 10);
    assert_eq!(days, vec![verses[0..7].to_vec(), verses[7..12].to_vec()]);
}

#[test]
fn chunk_daily_edges() {
    assert!(chunk_daily(&[], 10).is_empty());
    assert!(chunk_daily(&[], 0).is_empty());
    let verses = flatten(&[chapter(5, 20)]);
    let days = chunk_daily(&verses, 10);
    assert_eq!(days.len(), 2);
    assert!(days.iter().all(|d| d.len() == 10));
    let ones = chunk_daily(&verses[..3], 1);
    assert_eq!(ones, vec![vec![v(5, 1)], vec![v(5, 2)], vec![v(5, 3)]]);
}

#[test]
fn whole_mushaf_day_count() {
    // 6236 verses in surahs of 55 (the last of 21) at 10 verses a day:
    // 6 days for each full surah, 3 for the last.
    let mut chapters = Vec::new();
    let mut left = 6236u32;
    let mut number = 1u32;
    while left > 0 {
        let count = if left >= 55 { 55 } else { left };
        chapters.push(chapter(number, count));
        left -= count;
        number += 1;
    }
    let verses = flatten(&chapters);
    assert_eq!(verses.len(), 6236);
    let days = chunk_daily(&verses, VERSES_PER_DAY);
    assert_eq!(days.len(), 113 * 6 + 3);
    assert_eq!(days[days.len() - 1].len(), 1);
    let plan = build_plan(&chapters);
    assert_eq!(plan.total_days, 681);
    assert_eq!(plan.steps.len(), 681);
}

#[test]
fn every_lesson_lies_in_one_surah() {
    let verses = flatten(&[chapter(1, 3), chapter(2, 25), chapter(3, 10), chapter(4, 1)]);
    let days = chunk_daily(&verses, 10);
    assert_eq!(days.iter().map(|d| d.len()).collect::<Vec<_>>(), vec![3, 10, 10, 5, 10, 1]);
    for day in &days {
        assert!(day.iter().all(|x| x.chapter == day[0].chapter));
    }
}

fn numbered_days(n: usize) -> Vec<Vec<VerseRef>> {
    (0..n).map(|d| vec![v(1, d as u32 + 1)]).collect()
}

#[test]
fn plan_first_day_has_no_review() {
    let plan = build_plan_from_days(&numbered_days(3));
    let step = &plan.steps[0];
    assert_eq!(step.day, 1);
    assert_eq!(step.sabqi_new, vec![v(1, 1)]);
    assert!(step.sabqi_review.is_empty());
    assert!(step.manzil_review.is_empty());
    assert_eq!(plan.steps[2].sabqi_review, vec![v(1, 1), v(1, 2)]);
}

#[test]
fn plan_windows_roll() {
    let plan = build_plan_from_days(&numbered_days(30));
    // day index 6: sabqi reviews lessons 1..6, manzil lesson 0.
    let s6 = &plan.steps[6];
    assert_eq!(s6.day, 7);
    assert_eq!(s6.sabqi_review, (2..=6).map(|i| v(1, i)).collect::<Vec<_>>());
    assert_eq!(s6.manzil_review, vec![v(1, 1)]);
    // day index 25: manzil lessons 5..20, sabqi lessons 20..25.
    let s25 = &plan.steps[25];
    assert_eq!(s25.sabqi_new, vec![v(1, 26)]);
    assert_eq!(s25.sabqi_review, (21..=25).map(|i| v(1, i)).collect::<Vec<_>>());
    assert_eq!(s25.manzil_review, (6..=20).map(|i| v(1, i)).collect::<Vec<_>>());
    assert_eq!(s25.manzil_review.len(), MANZIL_DAYS);
    // the three windows are consecutive lessons
    let mut all = s25.manzil_review.clone();
    all.extend(s25.sabqi_review.iter().cloned());
    all.extend(s25.sabqi_new.iter().cloned());
    assert_eq!(all, (6..=26).map(|i| v(1, i)).collect::<Vec<_>>());
}

#[test]
fn plan_header() {
    let plan = build_plan_from_days(&numbered_days(2));
    assert_eq!(plan.method, "Sabqi -> Manzil");
    assert!(plan.description.starts_with("Daily hifz routine"));
    assert_eq!(plan.verses_per_day, 10);
    assert_eq!(plan.sabqi_review_days, SABQI_WINDOW as u64);
    assert_eq!(plan.manzil_review_days, MANZIL_DAYS as u64);
    assert_eq!(plan.total_days, 2);
    let empty = build_plan_from_days(&[]);
    assert_eq!(empty.total_days, 0);
    assert!(empty.steps.is_empty());
}

#[test]
fn plan_new_lessons_cover_the_mushaf_once() {
    let chapters = vec![chapter(1, 7), chapter(2, 30), chapter(3, 4)];
    let plan = build_plan(&chapters);
    let news: Vec<VerseRef> = plan.steps.iter().flat_map(|s| s.sabqi_new.iter().cloned()).collect();
    assert_eq!(news, flatten(&chapters));
    assert_eq!(plan.total_days, 5);
}

const DOC: &str = r#"{
  "10": [ {"chapter": 10, "verse": 1, "text": "x"} ],
  "2": [ {"chapter": 2, "verse": 1, "text": "a"}, {"chapter": 2, "verse": 2, "text": "b"} ],
  "1": [ {"chapter": 1, "verse": 1, "text": "c"} ],
  "meta": { "name": "not a chapter" }
}"#;

#[test]
fn parse_quran_orders_chapters_numerically() {
    let chapters = parse_quran(DOC);
    let numbers: Vec<u32> = chapters.iter().map(|c| c.number).collect();
    assert_eq!(numbers, vec![1, 2, 10]);
    assert_eq!(chapters[1].verses, vec![v(2, 1), v(2, 2)]);
    assert_eq!(chapters[2].verses, vec![v(10, 1)]);
}

#[test]
fn parse_quran_fills_missing_fields() {
    let doc = r#"{ "7": [ {"verse": 3}, {"chapter": 9}, {}, 5, {"chapter": 4294967297, "verse": -1} ] }"#;
    let chapters = parse_quran(doc);
    assert_eq!(chapters.len(), 1);
    assert_eq!(chapters[0].verses, vec![v(7, 3), v(9, 0), v(7, 0), v(7, 0), v(1, 0)]);
}

#[test]
fn parse_quran_keys_that_are_not_canonical() {
    // "+3" and "03" name chapter 3, but its entries are looked up under "3".
    let doc = r#"{ "+3": [ {"verse": 1} ], "03": [], "4": {"not": "an array"} }"#;
    let chapters = parse_quran(doc);
    let numbers: Vec<u32> = chapters.iter().map(|c| c.number).collect();
    assert_eq!(numbers, vec![3, 3, 4]);
    assert!(chapters.iter().all(|c| c.verses.is_empty()));
    let not_object = parse_quran("[1, 2, 3]");
    assert!(not_object.is_empty());
    let too_big = parse_quran(r#"{ "4294967296": [ {} ], "-1": [ {} ] }"#);
    assert!(too_big.is_empty());
}

#[test]
fn try_parse_quran_refuses_invalid_json() {
    assert!(try_parse_quran("{ \"1\": [ ").is_none());
    assert!(try_parse_quran("").is_none());
    let chapters = try_parse_quran(DOC).unwrap();
    assert_eq!(chapters.len(), 3);
}

#[test]
fn parse_verses_flattens_the_document() {
    let verses = parse_verses(DOC).unwrap();
    assert_eq!(verses, vec![v(1, 1), v(2, 1), v(2, 2), v(10, 1)]);
    assert!(parse_verses("nope").is_none());
}

#[test]
fn chapters_from_a_built_document() {
    let entry = Json::Object(vec![
        ("chapter".to_string(), Json::Number(Some(5), "5".to_string())),
        ("verse".to_string(), Json::Number(Some(8), "8".to_string())),
    ]);
    let root = Json::Object(vec![
        ("5".to_string(), Json::Array(vec![entry])),
        ("x".to_string(), Json::Null),
    ]);
    let chapters = chapters_from_json(&root);
    assert_eq!(chapters.len(), 1);
    assert_eq!(chapters[0].number, 5);
    assert_eq!(chapters[0].verses, vec![v(5, 8)]);
    assert!(chapters_from_json(&Json::Bool(true)).is_empty());
}

#[test]
fn larger_quota_never_adds_days() {
    let verses = flatten(&[chapter(1, 7), chapter(2, 25), chapter(3, 1), chapter(4, 12)]);
    let counts: Vec<usize> = (1..=30).map(|n| chunk_daily(&verses, n).len()).collect();
    assert!(counts.windows(2).all(|w| w[1] <= w[0]));
    assert_eq!(counts[0], 45);
    assert_eq!(counts[9], 1 + 3 + 1 + 2);
    assert_eq!(counts[29], 4);
}
