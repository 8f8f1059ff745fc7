//! Tests for the interpretation stage: tag extraction, clock-line
//! resolution, the moods/tags partition and whole-diary assembly.

use daylio_tools::interpret::{
    convert_24_hour_to_12_hour, extract_tags, interpret, parse_date, simplify_note_heuristically,
    split_tags_and_moods, InterpretError,
};
use daylio_tools::models::{
    CalendarDate, DayEntry, Diary, DiaryDateTime, Mood, MoodDetail, Tag, TagDetail,
};
use daylio_tools::parse::{ParsedDayEntry, ParsedPdf, StatLine};

fn raw_entry(date: CalendarDate, day_hour: &str, mood: &str, note: &[&str]) -> ParsedDayEntry {
    ParsedDayEntry {
        date,
        day_hour: day_hour.to_owned(),
        mood: mood.to_owned(),
        note: note.iter().map(|s| (*s).to_owned()).collect(),
        tags: vec![],
    }
}

fn tag_detail(name: &str) -> TagDetail {
    TagDetail { name: name.to_owned(), icon_id: None }
}

fn stat(name: &str, count: u32) -> StatLine {
    StatLine::new(name.to_owned(), count)
}

#[test]
fn test_simplify_note_heuristically() {
    let text = "Newline before punctuation\n. Newline after over-\nride some spaces    and newline mid\nsentence. Unicode ligature ﬃ\n\nPreserve the empty line, but not the final one\n\n";
    println!("original: {}", text);

    let simplified = simplify_note_heuristically(text.to_owned());
    assert_eq!(
        simplified,
        "Newline before punctuation. Newline after over-ride some spaces and newline mid sentence. Unicode ligature ffi\n\nPreserve the empty line, but not the final one"
    );

    assert_eq!(
        simplify_note_heuristically(
            "Elle ne peut plus parler et faire des gestes simples, mais ce\nn'est pas.".to_owned()
        ),
        "Elle ne peut plus parler et faire des gestes simples, mais ce n'est pas."
    );
}

#[test]
fn test_parse_date() {
    let entry = raw_entry(
        CalendarDate::from_ymd_opt(2022, 8, 2).unwrap(),
        "Monday 8 45 PM",
        "",
        &[],
    );
    let date = parse_date(&entry).unwrap();
    assert_eq!(date.month(), 8);
    assert_eq!(date.day(), 2);
    assert_eq!(date.year(), 2022);
    assert_eq!(date.hour(), 20);
    assert_eq!(date.minute(), 45);
    assert_eq!(date.second(), 0);
}

#[test]
fn test_extract_tags() {
    let entry = raw_entry(
        CalendarDate::from_ymd_opt(2022, 9, 2).unwrap(),
        "",
        "",
        &[
            "some tag   another tag    yet another tag ",
            "A tag, on another line",
            "A tag that does not matches case",
            "not a tag",
            "still not a tag",
        ],
    );

    let tags = vec![
        tag_detail("some tag"),
        tag_detail("another tag"),
        tag_detail("yet another tag"),
        tag_detail("A tag, on another line"),
    ];
    let (note, tags) = extract_tags(&entry, &tags);

    let expected_note = [
        "A tag that does not matches case".to_owned(),
        "not a tag".to_owned(),
        "still not a tag".to_owned(),
    ]
    .join("\n");
    let expected_tags = vec![
        "A tag, on another line".to_owned(),
        "another tag".to_owned(),
        "some tag".to_owned(),
        "yet another tag".to_owned(),
    ];

    assert_eq!(note, expected_note);
    assert_eq!(tags, expected_tags);
}

#[test]
fn test_processed_pdf_from_parsed_pdf() {
    let parsed = ParsedPdf {
        day_entries: vec![
            raw_entry(
                CalendarDate::from_ymd_opt(2022, 9, 2).unwrap(),
                "Monday 8 45 PM",
                "rad",
                &["This is a note"],
            ),
            raw_entry(
                CalendarDate::from_ymd_opt(2022, 9, 3).unwrap(),
                "Tuesday 8 45 AM",
                "rad",
                &["This is a note²"],
            ),
            raw_entry(
                CalendarDate::from_ymd_opt(2022, 9, 3).unwrap(),
                "Tuesday 9 00 AM",
                "good",
                &["some tag   another tag    yet another tag ", "Note title", "Note body"],
            ),
        ],
        stats: vec![
            stat("rad", 0),
            stat("good", 0),
            stat("some tag", 0),
            stat("another tag", 0),
            stat("yet another tag", 0),
            stat("Tag that won't be matched", 0),
        ],
    };

    let expected = Diary {
        day_entries: vec![
            DayEntry {
                date: parse_date(&parsed.day_entries[0]).unwrap(),
                moods: vec![Mood::new("rad")],
                tags: vec![],
                note: "This is a note".to_owned(),
            },
            DayEntry {
                date: parse_date(&parsed.day_entries[1]).unwrap(),
                moods: vec![Mood::new("rad")],
                tags: vec![],
                note: "This is a note²".to_owned(),
            },
            DayEntry {
                date: parse_date(&parsed.day_entries[2]).unwrap(),
                moods: vec![Mood::new("good")],
                tags: vec![
                    Tag::new("another tag"),
                    Tag::new("some tag"),
                    Tag::new("yet another tag"),
                ],
                note: "Note title\nNote body".to_owned(),
            },
        ],
        moods: vec![
            MoodDetail {
                name: "good".to_owned(),
                wellbeing_value: Some(2),
                icon_id: None,
                category: None,
            },
            MoodDetail {
                name: "rad".to_owned(),
                wellbeing_value: Some(1),
                icon_id: None,
                category: None,
            },
        ],
        tags: vec![
            tag_detail("Tag that won't be matched"),
            tag_detail("another tag"),
            tag_detail("some tag"),
            tag_detail("yet another tag"),
        ],
    };

    let processed = interpret(parsed).unwrap();

    assert_eq!(processed, expected);
}

#[test]
fn longest_tag_name_matches_first() {
    let entry = raw_entry(
        CalendarDate::from_ymd_opt(2022, 9, 2).unwrap(),
        "",
        "",
        &["some tag", "body"],
    );
    let tags = vec![tag_detail("tag"), tag_detail("some tag")];
    let (note, found) = extract_tags(&entry, &tags);
    assert_eq!(note, "body");
    assert_eq!(found, vec!["some tag".to_owned()]);
}

#[test]
fn tag_only_lines_round_trip() {
    let entry = raw_entry(
        CalendarDate::from_ymd_opt(2022, 9, 2).unwrap(),
        "",
        "",
        &["beta alpha", "gamma", "body line"],
    );
    let tags = vec![tag_detail("alpha"), tag_detail("beta"), tag_detail("gamma")];
    let (note, found) = extract_tags(&entry, &tags);
    assert_eq!(note, "body line");
    assert_eq!(
        found,
        vec!["alpha".to_owned(), "beta".to_owned(), "gamma".to_owned()]
    );
}

#[test]
fn concatenated_candidate_tags_are_decomposed() {
    let mut entry = raw_entry(
        CalendarDate::from_ymd_opt(2022, 9, 2).unwrap(),
        "",
        "",
        &["body"],
    );
    entry.tags = vec!["alphabeta".to_owned()];
    let tags = vec![tag_detail("alpha"), tag_detail("beta")];
    let (note, found) = extract_tags(&entry, &tags);
    assert_eq!(note, "body");
    assert_eq!(found, vec!["alpha".to_owned(), "beta".to_owned()]);
}

#[test]
fn duplicate_tags_collapse() {
    let mut entry = raw_entry(
        CalendarDate::from_ymd_opt(2022, 9, 2).unwrap(),
        "",
        "",
        &["alpha", "body"],
    );
    entry.tags = vec!["alpha".to_owned()];
    let tags = vec![tag_detail("alpha")];
    let (_, found) = extract_tags(&entry, &tags);
    assert_eq!(found, vec!["alpha".to_owned()]);
}

#[test]
fn end_to_end_interpretation() {
    let parsed = ParsedPdf {
        stats: vec![stat("rad", 15), stat("good", 20), stat("tagA", 3), stat("tagB", 1)],
        day_entries: vec![raw_entry(
            CalendarDate::from_ymd_opt(2022, 9, 3).unwrap(),
            "Tuesday 9 00 AM",
            "good",
            &["tagA tagB", "Body text"],
        )],
    };
    let diary = interpret(parsed).unwrap();
    assert_eq!(diary.day_entries.len(), 1);
    let entry = &diary.day_entries[0];
    assert_eq!(entry.moods, vec![Mood::new("good")]);
    assert_eq!(entry.tags, vec![Tag::new("tagA"), Tag::new("tagB")]);
    assert_eq!(entry.note, "Body text");
    let good = diary.moods.iter().find(|m| m.name == "good").unwrap();
    assert_eq!(good.wellbeing_value, Some(2));
    let rad = diary.moods.iter().find(|m| m.name == "rad").unwrap();
    assert_eq!(rad.wellbeing_value, Some(1));
    assert_eq!(diary.tags, vec![tag_detail("tagA"), tag_detail("tagB")]);
}

#[test]
fn missing_mood_is_fatal() {
    let parsed = ParsedPdf {
        stats: vec![stat("rad", 15), stat("tagA", 3)],
        day_entries: vec![raw_entry(
            CalendarDate::from_ymd_opt(2022, 9, 3).unwrap(),
            "Tuesday 9 00 AM",
            "unknown mood",
            &["Body"],
        )],
    };
    assert_eq!(
        interpret(parsed),
        Err(InterpretError::MoodNotFound { label: "unknown mood".to_owned() })
    );
}

#[test]
fn empty_document_has_no_boundary() {
    let parsed = ParsedPdf { stats: vec![stat("rad", 15)], day_entries: vec![] };
    assert_eq!(interpret(parsed), Err(InterpretError::NoEntries));
}

#[test]
fn unreadable_clock_line_is_reported() {
    let parsed = ParsedPdf {
        stats: vec![stat("rad", 15)],
        day_entries: vec![raw_entry(
            CalendarDate::from_ymd_opt(2022, 9, 3).unwrap(),
            "Tuesday",
            "rad",
            &["Body"],
        )],
    };
    assert_eq!(interpret(parsed), Err(InterpretError::ClockTime { index: 0 }));
}

#[test]
fn boundary_follows_the_last_used_mood() {
    let parsed = ParsedPdf {
        stats: vec![stat("rad", 15), stat("interleaved", 2), stat("good", 20), stat("tagA", 3)],
        day_entries: vec![
            raw_entry(
                CalendarDate::from_ymd_opt(2022, 9, 3).unwrap(),
                "Tuesday 9 00 AM",
                "rad",
                &[],
            ),
            raw_entry(
                CalendarDate::from_ymd_opt(2022, 9, 4).unwrap(),
                "Wednesday 9 00 AM",
                "good",
                &[],
            ),
        ],
    };
    let (tags, moods) = split_tags_and_moods(&parsed).unwrap();
    let mood_names: Vec<String> = moods.iter().map(|m| m.name.clone()).collect();
    assert_eq!(
        mood_names,
        vec!["rad".to_owned(), "interleaved".to_owned(), "good".to_owned()]
    );
    assert_eq!(tags, vec![tag_detail("tagA")]);
    // the custom label between two predefined moods inherits the group of
    // the one before it
    assert_eq!(moods[0].wellbeing_value, Some(1));
    assert_eq!(moods[1].wellbeing_value, Some(1));
    assert_eq!(moods[2].wellbeing_value, Some(2));
}

#[test]
fn custom_mood_before_any_predefined_gets_group_zero() {
    let parsed = ParsedPdf {
        stats: vec![stat("strange", 1), stat("rad", 2)],
        day_entries: vec![
            raw_entry(
                CalendarDate::from_ymd_opt(2022, 9, 3).unwrap(),
                "Tuesday 9 00 AM",
                "strange",
                &[],
            ),
            raw_entry(
                CalendarDate::from_ymd_opt(2022, 9, 3).unwrap(),
                "Tuesday 10 00 AM",
                "rad",
                &[],
            ),
        ],
    };
    let (_, moods) = split_tags_and_moods(&parsed).unwrap();
    assert_eq!(moods[0].wellbeing_value, Some(0));
    assert_eq!(moods[1].wellbeing_value, Some(1));
}

#[test]
fn clock_conversions_cover_both_layouts() {
    assert_eq!(convert_24_hour_to_12_hour("8 45 PM"), Some("8 45 PM".to_owned()));
    assert_eq!(convert_24_hour_to_12_hour("14 30"), Some("2 30 pm".to_owned()));
    assert_eq!(convert_24_hour_to_12_hour("00 05"), Some("12 05 am".to_owned()));
    assert_eq!(convert_24_hour_to_12_hour("7 05"), Some("7 05 am".to_owned()));
    assert_eq!(convert_24_hour_to_12_hour("nonsense"), None);
    assert_eq!(convert_24_hour_to_12_hour(""), None);
}

#[test]
fn colons_in_clock_lines_are_tolerated() {
    let entry = raw_entry(
        CalendarDate::from_ymd_opt(2015, 5, 16).unwrap(),
        "Sunday 8:53 PM",
        "",
        &[],
    );
    let date = parse_date(&entry).unwrap();
    assert_eq!(date.hour(), 20);
    assert_eq!(date.minute(), 53);
}

#[test]
fn normalization_is_idempotent_on_samples() {
    let samples = vec![
        "Newline before punctuation\n. Newline after over-\nride some spaces    and newline mid\nsentence. Unicode ligature ﬃ\n\nPreserve the empty line, but not the final one\n\n",
        "plain text",
        "two\nlines",
        "ends with break\n",
        "a  lot   of    spaces",
        "spaced .\ndot",
    ];
    for s in samples {
        let once = simplify_note_heuristically(s.to_owned());
        let twice = simplify_note_heuristically(once.clone());
        assert_eq!(once, twice, "not idempotent on {:?}", s);
    }
}

#[test]
fn entries_are_listed_chronologically() {
    let parsed = ParsedPdf {
        stats: vec![stat("rad", 15)],
        day_entries: vec![
            raw_entry(
                CalendarDate::from_ymd_opt(2022, 9, 4).unwrap(),
                "Sunday 9 00 AM",
                "rad",
                &["newest"],
            ),
            raw_entry(
                CalendarDate::from_ymd_opt(2022, 9, 3).unwrap(),
                "Saturday 9 00 AM",
                "rad",
                &["oldest"],
            ),
        ],
    };
    let diary = interpret(parsed).unwrap();
    assert_eq!(diary.day_entries[0].note, "oldest");
    assert_eq!(diary.day_entries[1].note, "newest");
    assert_eq!(
        diary.day_entries[0].date,
        DiaryDateTime { year: 2022, month: 9, day: 3, hour: 9, minute: 0, second: 0 }
    );
}
