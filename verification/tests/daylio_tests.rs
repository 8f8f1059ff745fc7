//! Tests for the predefined mood vocabulary, the date normalizer and the
//! summary shapes.

use daylio_tools::daylio::{
    daylio_predefined_mood_idx, daylio_predefined_mood_name, DaylioMetadata,
};
use daylio_tools::dates::{convert_french_date, convert_language_date};
use daylio_tools::models::{MoodDetail, MoodDetailLite, TagDetail, TagDetailLite};

#[test]
fn predefined_moods_match_without_regard_to_case() {
    assert_eq!(daylio_predefined_mood_idx("rad"), Some(1));
    assert_eq!(daylio_predefined_mood_idx("RAD"), Some(1));
    assert_eq!(daylio_predefined_mood_idx("Super"), Some(1));
    assert_eq!(daylio_predefined_mood_idx("good"), Some(2));
    assert_eq!(daylio_predefined_mood_idx("Bien"), Some(2));
    assert_eq!(daylio_predefined_mood_idx("MEH"), Some(3));
    assert_eq!(daylio_predefined_mood_idx("mauvais"), Some(4));
    assert_eq!(daylio_predefined_mood_idx("Horrible"), Some(5));
    assert_eq!(daylio_predefined_mood_idx("awful"), Some(5));
    assert_eq!(daylio_predefined_mood_idx("custom thing"), None);
}

#[test]
fn predefined_mood_names_round_trip() {
    assert_eq!(daylio_predefined_mood_name(1), Some("super"));
    assert_eq!(daylio_predefined_mood_name(3), Some("mouais"));
    assert_eq!(daylio_predefined_mood_name(5), Some("horrible"));
    assert_eq!(daylio_predefined_mood_name(0), None);
    assert_eq!(daylio_predefined_mood_name(6), None);
    for id in 1..=5i64 {
        let name = daylio_predefined_mood_name(id).unwrap();
        assert_eq!(daylio_predefined_mood_idx(name), Some(id as u64));
    }
}

#[test]
fn french_dates_are_rewritten_to_english_order() {
    assert_eq!(convert_french_date("16 mai 2015"), Some("may 16, 2015".to_owned()));
    assert_eq!(convert_french_date("1 janvier 2020"), Some("january 1, 2020".to_owned()));
    assert_eq!(convert_french_date("25 Décembre 2019"), Some("december 25, 2019".to_owned()));
    // a date without a French month passes through lowercased
    assert_eq!(convert_french_date("May 16, 2015"), Some("may 16, 2015".to_owned()));
    assert_eq!(convert_language_date("2 août 2021"), Some("august 2, 2021".to_owned()));
    // a French month mentioned without the day/month/year shape is malformed
    assert_eq!(convert_french_date("mai"), None);
}

#[test]
fn default_backup_metadata_is_fresh() {
    let m = DaylioMetadata::default();
    assert_eq!(m.number_of_entries, 0);
    assert_eq!(m.created_at, 0);
    assert!(!m.is_auto_backup);
    assert_eq!(m.platform, "android");
    assert_eq!(m.android_version, 15);
    assert_eq!(m.number_of_photos, 0);
    assert_eq!(m.photos_size, 0);
}

#[test]
fn summary_shapes_keep_their_fields() {
    let mood = MoodDetail {
        name: "good".to_owned(),
        icon_id: Some(4),
        wellbeing_value: Some(2),
        category: Some("positive".to_owned()),
    };
    let lite = MoodDetailLite::of_detail(&mood);
    assert_eq!(lite.name, "good");
    assert_eq!(lite.wellbeing_value, Some(2));
    assert_eq!(lite.category, Some("positive".to_owned()));

    let tag = TagDetail { name: "sport".to_owned(), icon_id: Some(7) };
    let tlite = TagDetailLite::of_detail(&tag);
    assert_eq!(tlite.name, "sport");
}
