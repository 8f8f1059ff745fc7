//! The target application's fixed mood vocabulary and the plain records of
//! its backup format. The backup container itself (archive and JSON) is
//! handled by surrounding code; only the data shapes and the predefined
//! mood table live here.

use crate::text::{chars_of, eq_chars, lower_of, lowercase};
use vstd::prelude::*;

verus! {

pub const NUMBER_OF_PREDEFINED_MOODS: u64 = 5;

/// The wellbeing group of a predefined mood name, best first: the lowered
/// label decides, in English or French.
pub open spec fn spec_predefined_mood_idx(low: Seq<char>) -> Option<u64> {
    if low == "super"@ || low == "rad"@ {
        Some(1u64)
    } else if low == "bien"@ || low == "good"@ {
        Some(2u64)
    } else if low == "mouais"@ || low == "meh"@ {
        Some(3u64)
    } else if low == "mauvais"@ || low == "bad"@ {
        Some(4u64)
    } else if low == "horrible"@ || low == "awful"@ {
        Some(5u64)
    } else {
        None
    }
}

/// The group a predefined mood label belongs to, matched without regard
/// to case; `None` for custom labels.
pub fn daylio_predefined_mood_idx(custom_name: &str) -> (r: Option<u64>)
    ensures
        r == spec_predefined_mood_idx(lower_of(custom_name@)),
{
    let lowered = lowercase(custom_name);
    let low = chars_of(lowered.as_str());
    if eq_lit(&low, "super") || eq_lit(&low, "rad") {
        Some(1)
    } else if eq_lit(&low, "bien") || eq_lit(&low, "good") {
        Some(2)
    } else if eq_lit(&low, "mouais") || eq_lit(&low, "meh") {
        Some(3)
    } else if eq_lit(&low, "mauvais") || eq_lit(&low, "bad") {
        Some(4)
    } else if eq_lit(&low, "horrible") || eq_lit(&low, "awful") {
        Some(5)
    } else {
        None
    }
}

/// Whether `v` holds exactly the characters of the literal `s`.
fn eq_lit(v: &Vec<char>, s: &str) -> (r: bool)
    ensures
        r == (v@ == s@),
{
    let sv = chars_of(s);
    eq_chars(v, &sv)
}

/// The canonical (French) name of each predefined mood group.
pub open spec fn spec_predefined_mood_name(id: int) -> Option<Seq<char>> {
    if id == 1 {
        Some("super"@)
    } else if id == 2 {
        Some("bien"@)
    } else if id == 3 {
        Some("mouais"@)
    } else if id == 4 {
        Some("mauvais"@)
    } else if id == 5 {
        Some("horrible"@)
    } else {
        None
    }
}

/// The canonical name of a predefined mood group.
pub fn daylio_predefined_mood_name(id: i64) -> (r: Option<&'static str>)
    ensures
        match r {
            Some(s) => spec_predefined_mood_name(id as int) == Some(s@),
            None => spec_predefined_mood_name(id as int) is None,
        },
{
    if id == 1 {
        Some("super")
    } else if id == 2 {
        Some("bien")
    } else if id == 3 {
        Some("mouais")
    } else if id == 4 {
        Some("mauvais")
    } else if id == 5 {
        Some("horrible")
    } else {
        None
    }
}

// --- backup format records ---

/// One mood of a backup, predefined or custom.
#[derive(Debug, Clone, PartialEq, Eq)]
pub struct DaylioCustomMood {
    pub id: i64,
    pub custom_name: String,
    pub mood_group_id: i64,
    pub mood_group_order: i64,
    pub icon_id: i64,
    pub predefined_name_id: i64,
    pub state: i64,
    pub created_at: i64,
}

/// One tag of a backup.
#[derive(Debug, Clone, PartialEq, Eq)]
pub struct DaylioTag {
    pub id: i64,
    pub name: String,
    pub created_at: i64,
    pub icon: i64,
    pub order: i64,
    pub state: i64,
    pub id_tag_group: i64,
}

/// One tag group of a backup.
#[derive(Debug, Clone, PartialEq, Eq)]
pub struct TagGroup {
    pub id: i64,
    pub name: String,
    pub is_expanded: bool,
    pub order: i64,
}

/// The backup's bookkeeping header.
#[derive(Debug, Clone, PartialEq, Eq)]
pub struct DaylioMetadata {
    pub number_of_entries: i64,
    pub created_at: i64,
    pub is_auto_backup: bool,
    pub platform: String,
    pub android_version: i64,
    pub number_of_photos: i64,
    pub photos_size: i64,
}

impl Default for DaylioMetadata {
    /// A fresh header for a backup written by this tool.
    fn default() -> (r: Self)
        ensures
            r.number_of_entries == 0,
            r.created_at == 0,
            !r.is_auto_backup,
            r.platform@ == "android"@,
            r.android_version == 15,
            r.number_of_photos == 0,
            r.photos_size == 0,
    {
        DaylioMetadata {
            number_of_entries: 0,
            created_at: 0,
            is_auto_backup: false,
            platform: "android".to_owned(),
            android_version: 15,
            number_of_photos: 0,
            photos_size: 0,
        }
    }
}

/// One reminder of a backup.
#[derive(Debug, Clone, PartialEq, Eq)]
pub struct Reminder {
    pub id: i64,
    pub hour: i64,
    pub minute: i64,
    pub state: i64,
    pub custom_text_enabled: bool,
}

/// One writing template of a backup.
#[derive(Debug, Clone, PartialEq, Eq)]
pub struct WritingTemplate {
    pub id: i64,
    pub order: i64,
    pub predefined_template_id: i64,
    pub title: String,
    pub body: String,
}

} // verus!
