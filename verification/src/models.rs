//! The data model of the reconstructed diary.

use crate::text::lex_le;
use vstd::prelude::*;

verus! {

// --- dates and times ---

/// A calendar date as plain year, month and day numbers.
#[derive(Debug, Clone, PartialEq, Eq)]
pub struct CalendarDate {
    pub year: i32,
    pub month: u8,
    pub day: u8,
}

impl CalendarDate {
    /// Month and day lie in the ranges a calendar allows.
    pub open spec fn wf(self) -> bool {
        1 <= self.month <= 12 && 1 <= self.day <= 31
    }

    /// A date from plain numbers; rejects out-of-range months and days.
    pub fn from_ymd_opt(year: i32, month: u8, day: u8) -> (r: Option<CalendarDate>)
        ensures
            match r {
                Some(d) => d == (CalendarDate { year, month, day }) && d.wf(),
                None => !(1 <= month <= 12 && 1 <= day <= 31),
            },
    {
        if 1 <= month && month <= 12 && 1 <= day && day <= 31 {
            Some(CalendarDate { year, month, day })
        } else {
            None
        }
    }
}

/// A resolved date and time of day, held as plain numbers.
#[derive(Debug, Clone, PartialEq, Eq)]
pub struct DiaryDateTime {
    pub year: i32,
    pub month: u8,
    pub day: u8,
    pub hour: u8,
    pub minute: u8,
    pub second: u8,
}

impl DiaryDateTime {
    pub open spec fn wf(self) -> bool {
        1 <= self.month <= 12 && 1 <= self.day <= 31 && self.hour < 24 && self.minute < 60
            && self.second < 60
    }

    pub fn year(&self) -> (r: i32)
        ensures
            r == self.year,
    {
        self.year
    }

    pub fn month(&self) -> (r: u8)
        ensures
            r == self.month,
    {
        self.month
    }

    pub fn day(&self) -> (r: u8)
        ensures
            r == self.day,
    {
        self.day
    }

    pub fn hour(&self) -> (r: u8)
        ensures
            r == self.hour,
    {
        self.hour
    }

    pub fn minute(&self) -> (r: u8)
        ensures
            r == self.minute,
    {
        self.minute
    }

    pub fn second(&self) -> (r: u8)
        ensures
            r == self.second,
    {
        self.second
    }

    /// Chronological order as a tuple order on the six fields.
    pub open spec fn spec_le(self, other: DiaryDateTime) -> bool {
        if self.year != other.year {
            self.year < other.year
        } else if self.month != other.month {
            self.month < other.month
        } else if self.day != other.day {
            self.day < other.day
        } else if self.hour != other.hour {
            self.hour < other.hour
        } else if self.minute != other.minute {
            self.minute < other.minute
        } else {
            self.second <= other.second
        }
    }

    /// Decides chronological order.
    pub fn le(&self, other: &DiaryDateTime) -> (r: bool)
        ensures
            r == self.spec_le(*other),
    {
        if self.year != other.year {
            self.year < other.year
        } else if self.month != other.month {
            self.month < other.month
        } else if self.day != other.day {
            self.day < other.day
        } else if self.hour != other.hour {
            self.hour < other.hour
        } else if self.minute != other.minute {
            self.minute < other.minute
        } else {
            self.second <= other.second
        }
    }
}

// --- references and details ---

/// A tag reference inside an entry.
#[derive(Debug, Clone, PartialEq, Eq, Hash)]
pub struct Tag {
    pub name: String,
}

impl Tag {
    pub fn new(name: &str) -> (r: Self)
        ensures
            r.name@ == name@,
    {
        Tag { name: name.to_owned() }
    }
}

/// A mood reference inside an entry.
#[derive(Debug, Clone, PartialEq, Eq, Hash)]
pub struct Mood {
    pub name: String,
}

impl Mood {
    pub fn new(name: &str) -> (r: Self)
        ensures
            r.name@ == name@,
    {
        Mood { name: name.to_owned() }
    }
}

/// One tag of the statistics list, after the moods/tags partition.
#[derive(Debug, Clone, PartialEq, Eq)]
pub struct TagDetail {
    pub name: String,
    pub icon_id: Option<i64>,
}

/// One mood of the statistics list, with its wellbeing group.
#[derive(Debug, Clone, PartialEq, Eq)]
pub struct MoodDetail {
    pub name: String,
    pub icon_id: Option<i64>,
    pub wellbeing_value: Option<u64>,
    pub category: Option<String>,
}

/// One finalized diary entry.
#[derive(Debug, Clone, PartialEq)]
pub struct DayEntry {
    pub date: DiaryDateTime,
    pub moods: Vec<Mood>,
    pub tags: Vec<Tag>,
    pub note: String,
}

/// The fully interpreted diary.
#[derive(Debug, Clone, PartialEq)]
pub struct Diary {
    pub day_entries: Vec<DayEntry>,
    pub moods: Vec<MoodDetail>,
    pub tags: Vec<TagDetail>,
}

// --- summary shapes ---

/// A mood detail reduced to what a summary view needs.
#[derive(Debug, Clone, PartialEq, Eq)]
pub struct MoodDetailLite {
    pub name: String,
    pub wellbeing_value: Option<u64>,
    pub category: Option<String>,
}

impl MoodDetailLite {
    /// The summary shape of one mood detail.
    pub fn of_detail(detail: &MoodDetail) -> (r: MoodDetailLite)
        ensures
            r.name@ == detail.name@,
            r.wellbeing_value == detail.wellbeing_value,
            r.category == detail.category,
    {
        MoodDetailLite {
            name: detail.name.clone(),
            wellbeing_value: detail.wellbeing_value,
            category: detail.category.clone(),
        }
    }
}

/// A tag detail reduced to its name.
#[derive(Debug, Clone, PartialEq, Eq)]
pub struct TagDetailLite {
    pub name: String,
}

impl TagDetailLite {
    /// The summary shape of one tag detail.
    pub fn of_detail(detail: &TagDetail) -> (r: TagDetailLite)
        ensures
            r.name@ == detail.name@,
    {
        TagDetailLite { name: detail.name.clone() }
    }
}

// --- mathematical views ---

/// The mathematical shape of a mood detail.
pub struct SpecMoodDetail {
    pub name: Seq<char>,
    pub icon_id: Option<i64>,
    pub wellbeing_value: Option<u64>,
    pub category: Option<Seq<char>>,
}

impl View for MoodDetail {
    type V = SpecMoodDetail;

    open spec fn view(&self) -> SpecMoodDetail {
        SpecMoodDetail {
            name: self.name@,
            icon_id: self.icon_id,
            wellbeing_value: self.wellbeing_value,
            category: match self.category {
                None => None,
                Some(c) => Some(c@),
            },
        }
    }
}

/// The mathematical shape of a tag detail.
pub struct SpecTagDetail {
    pub name: Seq<char>,
    pub icon_id: Option<i64>,
}

impl View for TagDetail {
    type V = SpecTagDetail;

    open spec fn view(&self) -> SpecTagDetail {
        SpecTagDetail { name: self.name@, icon_id: self.icon_id }
    }
}

/// The mathematical shape of one finalized entry: the mood and tag
/// references appear as their names.
pub struct SpecDayEntry {
    pub date: DiaryDateTime,
    pub moods: Seq<Seq<char>>,
    pub tags: Seq<Seq<char>>,
    pub note: Seq<char>,
}

impl View for DayEntry {
    type V = SpecDayEntry;

    open spec fn view(&self) -> SpecDayEntry {
        SpecDayEntry {
            date: self.date,
            moods: self.moods@.map_values(|m: Mood| m.name@),
            tags: self.tags@.map_values(|t: Tag| t.name@),
            note: self.note@,
        }
    }
}

pub open spec fn md_seq_view(s: Seq<MoodDetail>) -> Seq<SpecMoodDetail> {
    s.map_values(|m: MoodDetail| m@)
}

pub open spec fn td_seq_view(s: Seq<TagDetail>) -> Seq<SpecTagDetail> {
    s.map_values(|t: TagDetail| t@)
}

pub open spec fn de_seq_view(s: Seq<DayEntry>) -> Seq<SpecDayEntry> {
    s.map_values(|e: DayEntry| e@)
}

impl MoodDetail {
    /// Decides the by-name listing order.
    fn le_name(&self, other: &Self) -> (r: bool)
        ensures
            r == lex_le(self.name@, other.name@),
    {
        let a = crate::text::chars_of(self.name.as_str());
        let b = crate::text::chars_of(other.name.as_str());
        crate::text::lex_le_chars(&a, &b)
    }
}

impl TagDetail {
    /// Decides the by-name listing order.
    fn le_name(&self, other: &Self) -> (r: bool)
        ensures
            r == lex_le(self.name@, other.name@),
    {
        let a = crate::text::chars_of(self.name.as_str());
        let b = crate::text::chars_of(other.name.as_str());
        crate::text::lex_le_chars(&a, &b)
    }
}

// --- stable sorting ---

/// The order mood details are listed in: by name.
pub open spec fn md_le(a: SpecMoodDetail, b: SpecMoodDetail) -> bool {
    lex_le(a.name, b.name)
}

/// The order tag details are listed in: by name.
pub open spec fn td_le(a: SpecTagDetail, b: SpecTagDetail) -> bool {
    lex_le(a.name, b.name)
}

/// The order diary entries are listed in: chronological.
pub open spec fn de_le(a: SpecDayEntry, b: SpecDayEntry) -> bool {
    a.date.spec_le(b.date)
}

/// Where a stable insertion puts an element under this order: after
/// every element it is not strictly below.
pub open spec fn md_insert(r: Seq<SpecMoodDetail>, x: SpecMoodDetail) -> Seq<SpecMoodDetail>
    decreases r.len(),
{
    if r.len() > 0 && !md_le(r.last(), x) {
        md_insert(r.drop_last(), x).push(r.last())
    } else {
        r.push(x)
    }
}

/// The stable insertion sort of mood details by name.
pub open spec fn md_sort(s: Seq<SpecMoodDetail>) -> Seq<SpecMoodDetail>
    decreases s.len(),
{
    if s.len() == 0 {
        Seq::empty()
    } else {
        md_insert(md_sort(s.drop_last()), s.last())
    }
}

proof fn lemma_md_insert_at(r: Seq<SpecMoodDetail>, x: SpecMoodDetail, j: int)
    requires
        0 <= j <= r.len(),
        forall|k: int| j <= k < r.len() ==> !md_le(#[trigger] r[k], x),
        j > 0 ==> md_le(r[j - 1], x),
    ensures
        md_insert(r, x) == r.insert(j, x),
    decreases r.len() - j,
{
    if j == r.len() {
        assert(r.insert(j, x) =~= r.push(x));
        if r.len() > 0 {
            assert(md_le(r[r.len() - 1], x));
        }
    } else {
        assert(!md_le(r.last(), x));
        lemma_md_insert_at(r.drop_last(), x, j);
        assert(r.drop_last().insert(j, x).push(r.last()) =~= r.insert(j, x));
    }
}

/// Where a stable insertion puts an element under this order: after
/// every element it is not strictly below.
pub open spec fn td_insert(r: Seq<SpecTagDetail>, x: SpecTagDetail) -> Seq<SpecTagDetail>
    decreases r.len(),
{
    if r.len() > 0 && !td_le(r.last(), x) {
        td_insert(r.drop_last(), x).push(r.last())
    } else {
        r.push(x)
    }
}

/// The stable insertion sort of tag details by name.
pub open spec fn td_sort(s: Seq<SpecTagDetail>) -> Seq<SpecTagDetail>
    decreases s.len(),
{
    if s.len() == 0 {
        Seq::empty()
    } else {
        td_insert(td_sort(s.drop_last()), s.last())
    }
}

proof fn lemma_td_insert_at(r: Seq<SpecTagDetail>, x: SpecTagDetail, j: int)
    requires
        0 <= j <= r.len(),
        forall|k: int| j <= k < r.len() ==> !td_le(#[trigger] r[k], x),
        j > 0 ==> td_le(r[j - 1], x),
    ensures
        td_insert(r, x) == r.insert(j, x),
    decreases r.len() - j,
{
    if j == r.len() {
        assert(r.insert(j, x) =~= r.push(x));
        if r.len() > 0 {
            assert(td_le(r[r.len() - 1], x));
        }
    } else {
        assert(!td_le(r.last(), x));
        lemma_td_insert_at(r.drop_last(), x, j);
        assert(r.drop_last().insert(j, x).push(r.last()) =~= r.insert(j, x));
    }
}

/// Where a stable insertion puts an element under this order: after
/// every element it is not strictly below.
pub open spec fn de_insert(r: Seq<SpecDayEntry>, x: SpecDayEntry) -> Seq<SpecDayEntry>
    decreases r.len(),
{
    if r.len() > 0 && !de_le(r.last(), x) {
        de_insert(r.drop_last(), x).push(r.last())
    } else {
        r.push(x)
    }
}

/// The stable insertion sort of diary entries by date.
pub open spec fn de_sort(s: Seq<SpecDayEntry>) -> Seq<SpecDayEntry>
    decreases s.len(),
{
    if s.len() == 0 {
        Seq::empty()
    } else {
        de_insert(de_sort(s.drop_last()), s.last())
    }
}

proof fn lemma_de_insert_at(r: Seq<SpecDayEntry>, x: SpecDayEntry, j: int)
    requires
        0 <= j <= r.len(),
        forall|k: int| j <= k < r.len() ==> !de_le(#[trigger] r[k], x),
        j > 0 ==> de_le(r[j - 1], x),
    ensures
        de_insert(r, x) == r.insert(j, x),
    decreases r.len() - j,
{
    if j == r.len() {
        assert(r.insert(j, x) =~= r.push(x));
        if r.len() > 0 {
            assert(de_le(r[r.len() - 1], x));
        }
    } else {
        assert(!de_le(r.last(), x));
        lemma_de_insert_at(r.drop_last(), x, j);
        assert(r.drop_last().insert(j, x).push(r.last()) =~= r.insert(j, x));
    }
}

/// Sorts stably by the listing order.
pub fn sort_mood_details(v: Vec<MoodDetail>) -> (r: Vec<MoodDetail>)
    ensures
        md_seq_view(r@) == md_sort(md_seq_view(v@)),
{
    let mut rest = v;
    let total = rest.len();
    let mut r: Vec<MoodDetail> = Vec::new();
    let ghost full = md_seq_view(rest@);
    let mut taken: usize = 0;
    proof {
        assert(full.subrange(0, 0) =~= Seq::<MoodDetail>::empty().map_values(|e: MoodDetail| e@));
        assert(md_sort(full.subrange(0, 0)) =~= md_seq_view(r@));
    }
    while rest.len() > 0
        invariant
            full.len() == total,
            taken + rest@.len() == full.len(),
            md_seq_view(rest@) == full.subrange(taken as int, full.len() as int),
            md_seq_view(r@) == md_sort(full.subrange(0, taken as int)),
        decreases rest@.len(),
    {
        let ghost rest0 = rest@;
        let ghost restv = md_seq_view(rest@);
        let x = rest.remove(0);
        proof {
            assert(restv[0] == rest0[0]@);
            assert(restv[0] == full.subrange(taken as int, full.len() as int)[0]);
            assert(x@ == full[taken as int]);
            assert(rest@ == rest0.remove(0));
            assert forall|k: int| 0 <= k < rest@.len() implies md_seq_view(rest@)[k] == full.subrange(
                taken + 1,
                full.len() as int,
            )[k] by {
                assert(rest@[k] == rest0[k + 1]);
                assert(restv[k + 1] == rest0[k + 1]@);
            }
            assert(md_seq_view(rest@) =~= full.subrange(taken + 1, full.len() as int));
        }
        let mut j: usize = r.len();
        while j > 0 && !(r[j - 1].le_name(&x))
            invariant
                j <= r@.len(),
                md_seq_view(r@).len() == r@.len(),
                forall|k: int| j <= k < r@.len() ==> !md_le(#[trigger] md_seq_view(r@)[k], x@),
            decreases j,
        {
            proof {
                assert(md_seq_view(r@)[j - 1] == r@[j - 1]@);
            }
            j = j - 1;
        }
        let ghost r0 = md_seq_view(r@);
        proof {
            if j > 0 {
                assert(md_seq_view(r@)[j - 1] == r@[j - 1]@);
            }
        }
        r.insert(j, x);
        taken = taken + 1;
        proof {
            lemma_md_insert_at(r0, x@, j as int);
            assert(md_seq_view(r@) =~= r0.insert(j as int, x@));
            let pre = full.subrange(0, taken as int);
            assert(pre.drop_last() =~= full.subrange(0, taken - 1));
            assert(pre.last() == full[taken - 1]);
        }
    }
    proof {
        assert(full.subrange(0, taken as int) =~= full);
    }
    r
}

/// Sorts stably by the listing order.
pub fn sort_tag_details(v: Vec<TagDetail>) -> (r: Vec<TagDetail>)
    ensures
        td_seq_view(r@) == td_sort(td_seq_view(v@)),
{
    let mut rest = v;
    let total = rest.len();
    let mut r: Vec<TagDetail> = Vec::new();
    let ghost full = td_seq_view(rest@);
    let mut taken: usize = 0;
    proof {
        assert(full.subrange(0, 0) =~= Seq::<TagDetail>::empty().map_values(|e: TagDetail| e@));
        assert(td_sort(full.subrange(0, 0)) =~= td_seq_view(r@));
    }
    while rest.len() > 0
        invariant
            full.len() == total,
            taken + rest@.len() == full.len(),
            td_seq_view(rest@) == full.subrange(taken as int, full.len() as int),
            td_seq_view(r@) == td_sort(full.subrange(0, taken as int)),
        decreases rest@.len(),
    {
        let ghost rest0 = rest@;
        let ghost restv = td_seq_view(rest@);
        let x = rest.remove(0);
        proof {
            assert(restv[0] == rest0[0]@);
            assert(restv[0] == full.subrange(taken as int, full.len() as int)[0]);
            assert(x@ == full[taken as int]);
            assert(rest@ == rest0.remove(0));
            assert forall|k: int| 0 <= k < rest@.len() implies td_seq_view(rest@)[k] == full.subrange(
                taken + 1,
                full.len() as int,
            )[k] by {
                assert(rest@[k] == rest0[k + 1]);
                assert(restv[k + 1] == rest0[k + 1]@);
            }
            assert(td_seq_view(rest@) =~= full.subrange(taken + 1, full.len() as int));
        }
        let mut j: usize = r.len();
        while j > 0 && !(r[j - 1].le_name(&x))
            invariant
                j <= r@.len(),
                td_seq_view(r@).len() == r@.len(),
                forall|k: int| j <= k < r@.len() ==> !td_le(#[trigger] td_seq_view(r@)[k], x@),
            decreases j,
        {
            proof {
                assert(td_seq_view(r@)[j - 1] == r@[j - 1]@);
            }
            j = j - 1;
        }
        let ghost r0 = td_seq_view(r@);
        proof {
            if j > 0 {
                assert(td_seq_view(r@)[j - 1] == r@[j - 1]@);
            }
        }
        r.insert(j, x);
        taken = taken + 1;
        proof {
            lemma_td_insert_at(r0, x@, j as int);
            assert(td_seq_view(r@) =~= r0.insert(j as int, x@));
            let pre = full.subrange(0, taken as int);
            assert(pre.drop_last() =~= full.subrange(0, taken - 1));
            assert(pre.last() == full[taken - 1]);
        }
    }
    proof {
        assert(full.subrange(0, taken as int) =~= full);
    }
    r
}

/// Sorts stably by the listing order.
pub fn sort_day_entries(v: Vec<DayEntry>) -> (r: Vec<DayEntry>)
    ensures
        de_seq_view(r@) == de_sort(de_seq_view(v@)),
{
    let mut rest = v;
    let total = rest.len();
    let mut r: Vec<DayEntry> = Vec::new();
    let ghost full = de_seq_view(rest@);
    let mut taken: usize = 0;
    proof {
        assert(full.subrange(0, 0) =~= Seq::<DayEntry>::empty().map_values(|e: DayEntry| e@));
        assert(de_sort(full.subrange(0, 0)) =~= de_seq_view(r@));
    }
    while rest.len() > 0
        invariant
            full.len() == total,
            taken + rest@.len() == full.len(),
            de_seq_view(rest@) == full.subrange(taken as int, full.len() as int),
            de_seq_view(r@) == de_sort(full.subrange(0, taken as int)),
        decreases rest@.len(),
    {
        let ghost rest0 = rest@;
        let ghost restv = de_seq_view(rest@);
        let x = rest.remove(0);
        proof {
            assert(restv[0] == rest0[0]@);
            assert(restv[0] == full.subrange(taken as int, full.len() as int)[0]);
            assert(x@ == full[taken as int]);
            assert(rest@ == rest0.remove(0));
            assert forall|k: int| 0 <= k < rest@.len() implies de_seq_view(rest@)[k] == full.subrange(
                taken + 1,
                full.len() as int,
            )[k] by {
                assert(rest@[k] == rest0[k + 1]);
                assert(restv[k + 1] == rest0[k + 1]@);
            }
            assert(de_seq_view(rest@) =~= full.subrange(taken + 1, full.len() as int));
        }
        let mut j: usize = r.len();
        while j > 0 && !(r[j - 1].date.le(&x.date))
            invariant
                j <= r@.len(),
                de_seq_view(r@).len() == r@.len(),
                forall|k: int| j <= k < r@.len() ==> !de_le(#[trigger] de_seq_view(r@)[k], x@),
            decreases j,
        {
            proof {
                assert(de_seq_view(r@)[j - 1] == r@[j - 1]@);
            }
            j = j - 1;
        }
        let ghost r0 = de_seq_view(r@);
        proof {
            if j > 0 {
                assert(de_seq_view(r@)[j - 1] == r@[j - 1]@);
            }
        }
        r.insert(j, x);
        taken = taken + 1;
        proof {
            lemma_de_insert_at(r0, x@, j as int);
            assert(de_seq_view(r@) =~= r0.insert(j as int, x@));
            let pre = full.subrange(0, taken as int);
            assert(pre.drop_last() =~= full.subrange(0, taken - 1));
            assert(pre.last() == full[taken - 1]);
        }
    }
    proof {
        assert(full.subrange(0, taken as int) =~= full);
    }
    r
}

impl Diary {
    /// The same diary with entries in chronological order and the mood and
    /// tag details ordered by name.
    pub fn sorted(self) -> (r: Diary)
        ensures
            de_seq_view(r.day_entries@) == de_sort(de_seq_view(self.day_entries@)),
            md_seq_view(r.moods@) == md_sort(md_seq_view(self.moods@)),
            td_seq_view(r.tags@) == td_sort(td_seq_view(self.tags@)),
    {
        Diary {
            day_entries: sort_day_entries(self.day_entries),
            moods: sort_mood_details(self.moods),
            tags: sort_tag_details(self.tags),
        }
    }
}

} // verus!
