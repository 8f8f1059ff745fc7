//! Tests for the grammar-level parser, run on synthesized documents that
//! follow the export layout: a two-line header, a three-column statistics
//! block flattened to reading order, and date-separated day entries with
//! page numbers interleaved.

use daylio_tools::models::CalendarDate;
use daylio_tools::parse::{parse, parse_header, parse_stat_lines, ParseError, ParsedDayEntry, ParsedPdf, StatLine};

fn stat(name: &str, count: u32) -> StatLine {
    StatLine::new(name.to_owned(), count)
}

fn date(y: i32, m: u8, d: u8) -> CalendarDate {
    CalendarDate::from_ymd_opt(y, m, d).unwrap()
}

fn entry(y: i32, m: u8, d: u8, day_hour: &str, mood: &str, note: &[&str]) -> ParsedDayEntry {
    ParsedDayEntry {
        date: date(y, m, d),
        day_hour: day_hour.to_owned(),
        mood: mood.to_owned(),
        note: note.iter().map(|s| (*s).to_owned()).collect(),
        tags: vec![],
    }
}

const HEADER_TEXT: &str = "Daylio Export                                                           1\nApril 27, 2022 - January 23, 2023\n\n\n\n";
const STATS_TEXT: &str = "rad                    15×        Tag 21 NUD   9×   Tag 8 WNA    2×\nMood 0 KWY              5×        Tag 11 XRB   8×   Tag 14 NEU   2×\ngood                   20×        Tag 6 AUG    6×   Tag 9 MAS    1×\nMood 1 QBL             13×        Tag 10 OKU   6×   Tag 16 QUG   1×\nmeh                     1×        Tag 23 CLN   5×   Tag 22 ITV   1×\nMood 2 VUP              8×        Tag 2 NWR    4×   Tag 24 KVI   1×\nbad                     2×        Tag 12 LRD   3×   Tag 25 CGQ   1×\nTag 5 IGN              14×        Tag 0 AHY    2×   Tag 33 IQP   1×\nTag 4 HBK              10×\n\n\n\n";
const BIG_DOC: &str = "Daylio Export                                                           1\nApril 27, 2022 - January 23, 2023\n\n\n\nrad                    15×        Tag 21 NUD   9×   Tag 8 WNA    2×\nMood 0 KWY              5×        Tag 11 XRB   8×   Tag 14 NEU   2×\ngood                   20×        Tag 6 AUG    6×   Tag 9 MAS    1×\nMood 1 QBL             13×        Tag 10 OKU   6×   Tag 16 QUG   1×\nmeh                     1×        Tag 23 CLN   5×   Tag 22 ITV   1×\nMood 2 VUP              8×        Tag 2 NWR    4×   Tag 24 KVI   1×\nbad                     2×        Tag 12 LRD   3×   Tag 25 CGQ   1×\nTag 5 IGN              14×        Tag 0 AHY    2×   Tag 33 IQP   1×\nTag 4 HBK              10×\n\n\n\nAugust 2, 2022              MOOD 2 VUP\nTuesday 11 00 PM\nNote title 0 LKH\nNote 0 LHF\nAugust 2, 2022              RAD\nTuesday 6 00 PM\nNote title 1 OAK\nNote 1 QJO\nAugust 1, 2022              RAD\nMonday 8 45 PM\nNote title 2 FFU\nNote 2 JBQ\nAugust 1, 2022              MOOD 2 VUP\nMonday 10 30 AM\nNote title 3 MKL\nNote 3 VPH\nJuly 31, 2022              MOOD 2 VUP\nSunday 4 00 PM\nNote title 4 BTD\nNote 4 UDK\nJuly 30, 2022              MOOD 1 QBL\nSaturday 9 00 AM\nNote title 5 VXG\n                                  2\nNote 5 AOT\nJuly 29, 2022              MOOD 2 VUP\nFriday 8 00 AM\nNote title 6 JIG\nNote 6 GVX\nJuly 25, 2022              RAD\nMonday 10 01 AM\nNote title 7 IFI\nNote 7 ABH\nJuly 23, 2022              MOOD 1 QBL\nSaturday 10 58 AM\nNote title 8 AGV\nNote 8 UGW\nJuly 23, 2022              MOOD 1 QBL\nSaturday 9 01 AM\nNote title 9 VGL\nNote 9 XMI\nJuly 23, 2022              MEH\nSaturday 7 44 AM\nNote title 10 YIG\nNote 10 ADT\nJuly 23, 2022              MOOD 1 QBL\nSaturday 7 26 AM\nNote title 11 FSE\nNote 11 GUP\nJuly 1, 2022              MOOD 1 QBL\nFriday 9 19 PM\nNote title 12 LGC\nNote 12 XKN\nJune 30, 2022              GOOD\nThursday 6 39 AM\nNote title 13 AKM\nNote 13 YJP\nJune 26, 2022              RAD\nSunday 5 00 PM\nNote title 14 CGY\nNote 14 XHV\nJune 23, 2022              GOOD\nThursday 12 52 PM\nNote title 15 IQK\n                                  3\nNote 15 JJD\nJune 23, 2022              MOOD 1 QBL\nThursday 12 05 PM\nNote title 16 RDS\nNote 16 TYC\nJune 23, 2022              GOOD\nThursday 8 04 AM\nNote title 17 MCA\nNote 17 FGP\nJune 22, 2022              GOOD\nWednesday 6 00 PM\nNote title 18 BFC\nNote 18 VLP\nJune 20, 2022              MOOD 1 QBL\nMonday 9 00 AM\nNote title 19 OVK\nNote 19 BIB\nJune 19, 2022              MOOD 2 VUP\nSunday 9 29 PM\nNote title 20 IJG\nNote 20 JWW\nJune 18, 2022              RAD\nSaturday 9 29 PM\nNote title 21 YYM\nNote 21 LGX\nJune 13, 2022              GOOD\nMonday 9 25 PM\nNote title 22 DDS\nNote 22 PDV\nJune 11, 2022              RAD\nSaturday 10 00 AM\nNote title 23 HWK\nNote 23 IXE\nJune 9, 2022              RAD\nThursday 9 14 PM\nNote title 24 EXK\nNote 24 NHO\nJune 9, 2022              MOOD 1 QBL\nThursday 10 21 AM\nNote title 25 HVQ\n                                  4\nNote 25 KLA\nJune 6, 2022              RAD\nMonday 8 50 PM\nNote title 26 ONQ\nNote 26 DCC\nJune 4, 2022              MOOD 0 KWY\nSaturday 9 50 PM\nNote title 27 PBF\nNote 27 BGL\nJune 3, 2022              MOOD 0 KWY\nFriday 10 24 AM\nNote title 28 FGA\nNote 28 AEQ\nMay 29, 2022              RAD\nSunday 8 42 PM\nNote title 29 AIU\nNote 29 GVL\nMay 28, 2022              RAD\nSaturday 6 00 PM\nNote title 30 RRM\nNote 30 QVS\nMay 27, 2022              GOOD\nFriday 8 42 PM\nNote title 31 LPS\nNote 31 HKU\nMay 26, 2022              GOOD\nThursday 8 00 PM\nNote title 32 MGE\nNote 32 PRG\nMay 25, 2022              MOOD 1 QBL\nWednesday 4 55 AM\nNote title 33 AMR\nNote 33 MYX\nMay 24, 2022              MOOD 2 VUP\nTuesday 8 44 PM\nNote title 34 YRH\nNote 34 SXS\nMay 22, 2022              RAD\nSunday 8 53 PM\nTag 2 NWR    Tag 4 HBK   Tag 5 IGN     Tag 10 OKU     Tag 23 CLN\n                                  5\nNote title 35 XLA\nNote 35 AHM\nMay 20, 2022              MOOD 0 KWY\nFriday 8 15 PM\nTag 5 IGN    Tag 6 AUG   Tag 21 NUD     Tag 23 CLN\nNote title 36 GYK\nNote 36 AFX\nMay 20, 2022              GOOD\nFriday 5 11 AM\nNote title 37 SHL\nNote 37 YKU\nMay 15, 2022              GOOD\nSunday 9 00 PM\nTag 4 HBK    Tag 5 IGN   Tag 6 AUG     Tag 11 XRB    Tag 21 NUD\nTag 23 CLN\nNote title 38 NBR\nNote 38 HPJ\nMay 14, 2022              GOOD\nSaturday 1 50 PM\nTag 4 HBK    Tag 8 WNA    Tag 12 LRD    Tag 33 IQP\nNote title 39 UKI\nNote 39 KFO\nMay 13, 2022              GOOD\nFriday 6 00 PM\nTag 0 AHY    Tag 5 IGN    Tag 6 AUG     Tag 11 XRB\nNote title 40 TJJ\nNote 40 DBV\nMay 12, 2022              BAD\nThursday 7 04 AM\nNote title 41 EBK\nNote 41 HVI\nMay 11, 2022              GOOD\nWednesday 11 17 AM\nNote title 42 OLY\nNote 42 FQU\nMay 11, 2022              BAD\nWednesday 9 39 AM\nTag 5 IGN    Tag 6 AUG    Tag 10 OKU\nNote title 43 VXJ\nNote 43 MBW\nMay 10, 2022              MOOD 2 VUP\nTuesday 9 57 AM\nTag 5 IGN    Tag 9 MAS    Tag 10 OKU\nNote title 44 DPR\nNote 44 BIV\nMay 9, 2022              GOOD\nMonday 8 00 PM\nTag 5 IGN    Tag 6 AUG    Tag 12 LRD    Tag 21 NUD\n                                  6\nNote title 45 LWT\nNote 45 OUF\nMay 8, 2022              RAD\nSunday 8 27 PM\nTag 2 NWR    Tag 4 HBK    Tag 5 IGN     Tag 6 AUG    Tag 10 OKU\nTag 14 NEU   Tag 21 NUD    Tag 22 ITV\nNote title 46 EAJ\nNote 46 FWU\nMay 7, 2022              RAD\nSaturday 7 00 PM\nTag 2 NWR    Tag 4 HBK    Tag 5 IGN     Tag 10 OKU\nNote title 47 NYG\nNote 47 AND\nMay 6, 2022              GOOD\nFriday 5 00 PM\nTag 5 IGN    Tag 8 WNA     Tag 11 XRB\nNote title 48 EEX\nNote 48 NNJ\nMay 5, 2022              GOOD\nThursday 8 37 PM\nTag 4 HBK    Tag 5 IGN     Tag 11 XRB   Tag 21 NUD   Tag 23 CLN\nNote title 49 MFY\nNote 49 AFH\nMay 4, 2022              RAD\nWednesday 8 45 PM\nTag 4 HBK    Tag 5 IGN     Tag 21 NUD   Tag 25 CGQ\nNote title 50 THD\nNote 50 USB\nMay 3, 2022              GOOD\nTuesday 6 31 PM\nTag 4 HBK    Tag 5 IGN     Tag 11 XRB   Tag 21 NUD\nNote title 51 OXM\nNote 51 DMN\nMay 2, 2022              GOOD\nMonday 8 00 PM\nTag 21 NUD\nNote title 52 MCT\nNote 52 VUF\nMay 2, 2022              MOOD 2 VUP\nMonday 5 12 PM\nTag 4 HBK    Tag 12 LRD\nNote title 53 JGL\nNote 53 NTR\nMay 1, 2022              GOOD\nSunday 3 19 PM\nTag 2 NWR    Tag 4 HBK      Tag 5 IGN   Tag 11 XRB   Tag 14 NEU\nTag 16 QUG    Tag 23 CLN\nNote title 54 JRN\nNote 54 HOI\nApril 30, 2022              RAD\nSaturday 1 30 PM\nNote title 55 NWO\n                                  7\nNote 55 JGI\nApril 30, 2022              MOOD 1 QBL\nSaturday 6 09 AM\nTag 0 AHY    Tag 10 OKU   Tag 21 NUD\nNote title 56 WRY\nNote 56 LOF\nApril 29, 2022              GOOD\nFriday 5 23 AM\nTag 11 XRB\nNote title 57 HHQ\nNote 57 MHD\nApril 28, 2022              MOOD 0 KWY\nThursday 5 01 PM\nNote title 58 AKY\nNote 58 CHG\nApril 28, 2022              MOOD 0 KWY\nThursday 8 24 AM\nTag 24 KVI\nNote title 59 XNI\nNote 59 XHR\nApril 28, 2022              MOOD 1 QBL\nThursday 7 11 AM\nNote title 60 TEO\nNote 60 YQQ\nApril 28, 2022              GOOD\nThursday 7 02 AM\nTag 11 XRB\nNote title 61 GTQ\nNote 61 NJC\nApril 27, 2022              MOOD 1 QBL\nWednesday 1 00 PM\nNote title 62 OQP\nNote 62 BTP\nApril 27, 2022              MOOD 1 QBL\nWednesday 5 30 AM\nNote title 63 FSU\nNote 63 DWN\n";
const SMALL_DOC: &str = "Daylio Export                                                           1\nJanuary 4, 2023 - January 24, 2023\n\n\n\nrad                     1×        manger sain  2×   exercice     1×\nmeh                     1×        ménage       2×   sport        1×\nnull                    1×        famille      1×   films        1×\nawful                   2×        rendez vous  1×   shopping     1×\n\n\n\nJanuary 24, 2023              AWFUL\nTuesday 11 36 AM\n\nJanuary 24, 2023              RAD\nTuesday 9 59 AM\nfamille       rendez vous        exercice         sport       ménage\nNote title\nNote body\nJanuary 11, 2023              MEH\nWednesday 10 20 PM\nmanger sain\nHey, here's a note with\nLinebreaks!\nBecause I love breaking parsers\nJanuary 4, 2023              AWFUL\nWednesday 8 00 PM\nmanger sain        films       ménage          shopping\nMay 16, 2015              NULL\nSaturday 8 00 PM\nNo tag\nThis is an old note. It has no title, but its body is really longThis is an old note. It has no title, but\nits body is really long\nThis is an old note. It has no title, but its body is really long\nThis is an old note. It has no title, but its body is really longThis is an old note. It has no title, but\nits body is really long\nThis is an old note. It has no title, but its body is really longThis is an old note. It has no title, but\nits body is really long\nThis is an old note. It has no title, but its body is really long\nThis is an old note. It has no title, but its body is really longThis is an old note. It has no title, but\nits body is really long\n";

#[test]
fn test_parse_header() {
    let tail = "rest of the document";
    let input = format!("{}{}", HEADER_TEXT, tail);
    let (lines, consumed) = parse_header(&input).unwrap();
    assert_eq!(consumed, 111);
    assert_eq!(&input[consumed..], tail);
    let expected = vec![
        "Daylio Export                                                           1".to_owned(),
        "April 27, 2022 - January 23, 2023".to_owned(),
    ];
    assert_eq!(lines, expected);
}

fn expected_parsed_tags() -> Vec<StatLine> {
    vec![
        stat("rad", 15),
        stat("Tag 21 NUD", 9),
        stat("Tag 8 WNA", 2),
        stat("Mood 0 KWY", 5),
        stat("Tag 11 XRB", 8),
        stat("Tag 14 NEU", 2),
        stat("good", 20),
        stat("Tag 6 AUG", 6),
        stat("Tag 9 MAS", 1),
        stat("Mood 1 QBL", 13),
        stat("Tag 10 OKU", 6),
        stat("Tag 16 QUG", 1),
        stat("meh", 1),
        stat("Tag 23 CLN", 5),
        stat("Tag 22 ITV", 1),
        stat("Mood 2 VUP", 8),
        stat("Tag 2 NWR", 4),
        stat("Tag 24 KVI", 1),
        stat("bad", 2),
        stat("Tag 12 LRD", 3),
        stat("Tag 25 CGQ", 1),
        stat("Tag 5 IGN", 14),
        stat("Tag 0 AHY", 2),
        stat("Tag 33 IQP", 1),
        stat("Tag 4 HBK", 10),
    ]
}

#[test]
fn test_parse_stats() {
    let tail = "August 2, 2022              MOOD 2 VUP\n";
    let input = format!("{}{}", STATS_TEXT, tail);
    let (stats, consumed) = parse_stat_lines(&input).unwrap();
    // consumed counts characters, and the count glyph is not ASCII
    assert_eq!(consumed, STATS_TEXT.chars().count());
    let rest: String = input.chars().skip(consumed).collect();
    assert_eq!(rest, tail);
    assert_eq!(stats, expected_parsed_tags());
}

fn expected_big_entries() -> Vec<ParsedDayEntry> {
    vec![
        entry(2022, 8, 2, "Tuesday 11 00 PM", "MOOD 2 VUP", &["Note title 0 LKH", "Note 0 LHF"]),
        entry(2022, 8, 2, "Tuesday 6 00 PM", "RAD", &["Note title 1 OAK", "Note 1 QJO"]),
        entry(2022, 8, 1, "Monday 8 45 PM", "RAD", &["Note title 2 FFU", "Note 2 JBQ"]),
        entry(2022, 8, 1, "Monday 10 30 AM", "MOOD 2 VUP", &["Note title 3 MKL", "Note 3 VPH"]),
        entry(2022, 7, 31, "Sunday 4 00 PM", "MOOD 2 VUP", &["Note title 4 BTD", "Note 4 UDK"]),
        entry(2022, 7, 30, "Saturday 9 00 AM", "MOOD 1 QBL", &["Note title 5 VXG", "Note 5 AOT"]),
        entry(2022, 7, 29, "Friday 8 00 AM", "MOOD 2 VUP", &["Note title 6 JIG", "Note 6 GVX"]),
        entry(2022, 7, 25, "Monday 10 01 AM", "RAD", &["Note title 7 IFI", "Note 7 ABH"]),
        entry(2022, 7, 23, "Saturday 10 58 AM", "MOOD 1 QBL", &["Note title 8 AGV", "Note 8 UGW"]),
        entry(2022, 7, 23, "Saturday 9 01 AM", "MOOD 1 QBL", &["Note title 9 VGL", "Note 9 XMI"]),
        entry(2022, 7, 23, "Saturday 7 44 AM", "MEH", &["Note title 10 YIG", "Note 10 ADT"]),
        entry(2022, 7, 23, "Saturday 7 26 AM", "MOOD 1 QBL", &["Note title 11 FSE", "Note 11 GUP"]),
        entry(2022, 7, 1, "Friday 9 19 PM", "MOOD 1 QBL", &["Note title 12 LGC", "Note 12 XKN"]),
        entry(2022, 6, 30, "Thursday 6 39 AM", "GOOD", &["Note title 13 AKM", "Note 13 YJP"]),
        entry(2022, 6, 26, "Sunday 5 00 PM", "RAD", &["Note title 14 CGY", "Note 14 XHV"]),
        entry(2022, 6, 23, "Thursday 12 52 PM", "GOOD", &["Note title 15 IQK", "Note 15 JJD"]),
        entry(2022, 6, 23, "Thursday 12 05 PM", "MOOD 1 QBL", &["Note title 16 RDS", "Note 16 TYC"]),
        entry(2022, 6, 23, "Thursday 8 04 AM", "GOOD", &["Note title 17 MCA", "Note 17 FGP"]),
        entry(2022, 6, 22, "Wednesday 6 00 PM", "GOOD", &["Note title 18 BFC", "Note 18 VLP"]),
        entry(2022, 6, 20, "Monday 9 00 AM", "MOOD 1 QBL", &["Note title 19 OVK", "Note 19 BIB"]),
        entry(2022, 6, 19, "Sunday 9 29 PM", "MOOD 2 VUP", &["Note title 20 IJG", "Note 20 JWW"]),
        entry(2022, 6, 18, "Saturday 9 29 PM", "RAD", &["Note title 21 YYM", "Note 21 LGX"]),
        entry(2022, 6, 13, "Monday 9 25 PM", "GOOD", &["Note title 22 DDS", "Note 22 PDV"]),
        entry(2022, 6, 11, "Saturday 10 00 AM", "RAD", &["Note title 23 HWK", "Note 23 IXE"]),
        entry(2022, 6, 9, "Thursday 9 14 PM", "RAD", &["Note title 24 EXK", "Note 24 NHO"]),
        entry(2022, 6, 9, "Thursday 10 21 AM", "MOOD 1 QBL", &["Note title 25 HVQ", "Note 25 KLA"]),
        entry(2022, 6, 6, "Monday 8 50 PM", "RAD", &["Note title 26 ONQ", "Note 26 DCC"]),
        entry(2022, 6, 4, "Saturday 9 50 PM", "MOOD 0 KWY", &["Note title 27 PBF", "Note 27 BGL"]),
        entry(2022, 6, 3, "Friday 10 24 AM", "MOOD 0 KWY", &["Note title 28 FGA", "Note 28 AEQ"]),
        entry(2022, 5, 29, "Sunday 8 42 PM", "RAD", &["Note title 29 AIU", "Note 29 GVL"]),
        entry(2022, 5, 28, "Saturday 6 00 PM", "RAD", &["Note title 30 RRM", "Note 30 QVS"]),
        entry(2022, 5, 27, "Friday 8 42 PM", "GOOD", &["Note title 31 LPS", "Note 31 HKU"]),
        entry(2022, 5, 26, "Thursday 8 00 PM", "GOOD", &["Note title 32 MGE", "Note 32 PRG"]),
        entry(2022, 5, 25, "Wednesday 4 55 AM", "MOOD 1 QBL", &["Note title 33 AMR", "Note 33 MYX"]),
        entry(2022, 5, 24, "Tuesday 8 44 PM", "MOOD 2 VUP", &["Note title 34 YRH", "Note 34 SXS"]),
        entry(2022, 5, 22, "Sunday 8 53 PM", "RAD", &["Tag 2 NWR    Tag 4 HBK   Tag 5 IGN     Tag 10 OKU     Tag 23 CLN", "Note title 35 XLA", "Note 35 AHM"]),
        entry(2022, 5, 20, "Friday 8 15 PM", "MOOD 0 KWY", &["Tag 5 IGN    Tag 6 AUG   Tag 21 NUD     Tag 23 CLN", "Note title 36 GYK", "Note 36 AFX"]),
        entry(2022, 5, 20, "Friday 5 11 AM", "GOOD", &["Note title 37 SHL", "Note 37 YKU"]),
        entry(2022, 5, 15, "Sunday 9 00 PM", "GOOD", &["Tag 4 HBK    Tag 5 IGN   Tag 6 AUG     Tag 11 XRB    Tag 21 NUD", "Tag 23 CLN", "Note title 38 NBR", "Note 38 HPJ"]),
        entry(2022, 5, 14, "Saturday 1 50 PM", "GOOD", &["Tag 4 HBK    Tag 8 WNA    Tag 12 LRD    Tag 33 IQP", "Note title 39 UKI", "Note 39 KFO"]),
        entry(2022, 5, 13, "Friday 6 00 PM", "GOOD", &["Tag 0 AHY    Tag 5 IGN    Tag 6 AUG     Tag 11 XRB", "Note title 40 TJJ", "Note 40 DBV"]),
        entry(2022, 5, 12, "Thursday 7 04 AM", "BAD", &["Note title 41 EBK", "Note 41 HVI"]),
        entry(2022, 5, 11, "Wednesday 11 17 AM", "GOOD", &["Note title 42 OLY", "Note 42 FQU"]),
        entry(2022, 5, 11, "Wednesday 9 39 AM", "BAD", &["Tag 5 IGN    Tag 6 AUG    Tag 10 OKU", "Note title 43 VXJ", "Note 43 MBW"]),
        entry(2022, 5, 10, "Tuesday 9 57 AM", "MOOD 2 VUP", &["Tag 5 IGN    Tag 9 MAS    Tag 10 OKU", "Note title 44 DPR", "Note 44 BIV"]),
        entry(2022, 5, 9, "Monday 8 00 PM", "GOOD", &["Tag 5 IGN    Tag 6 AUG    Tag 12 LRD    Tag 21 NUD", "Note title 45 LWT", "Note 45 OUF"]),
        entry(2022, 5, 8, "Sunday 8 27 PM", "RAD", &["Tag 2 NWR    Tag 4 HBK    Tag 5 IGN     Tag 6 AUG    Tag 10 OKU", "Tag 14 NEU   Tag 21 NUD    Tag 22 ITV", "Note title 46 EAJ", "Note 46 FWU"]),
        entry(2022, 5, 7, "Saturday 7 00 PM", "RAD", &["Tag 2 NWR    Tag 4 HBK    Tag 5 IGN     Tag 10 OKU", "Note title 47 NYG", "Note 47 AND"]),
        entry(2022, 5, 6, "Friday 5 00 PM", "GOOD", &["Tag 5 IGN    Tag 8 WNA     Tag 11 XRB", "Note title 48 EEX", "Note 48 NNJ"]),
        entry(2022, 5, 5, "Thursday 8 37 PM", "GOOD", &["Tag 4 HBK    Tag 5 IGN     Tag 11 XRB   Tag 21 NUD   Tag 23 CLN", "Note title 49 MFY", "Note 49 AFH"]),
        entry(2022, 5, 4, "Wednesday 8 45 PM", "RAD", &["Tag 4 HBK    Tag 5 IGN     Tag 21 NUD   Tag 25 CGQ", "Note title 50 THD", "Note 50 USB"]),
        entry(2022, 5, 3, "Tuesday 6 31 PM", "GOOD", &["Tag 4 HBK    Tag 5 IGN     Tag 11 XRB   Tag 21 NUD", "Note title 51 OXM", "Note 51 DMN"]),
        entry(2022, 5, 2, "Monday 8 00 PM", "GOOD", &["Tag 21 NUD", "Note title 52 MCT", "Note 52 VUF"]),
        entry(2022, 5, 2, "Monday 5 12 PM", "MOOD 2 VUP", &["Tag 4 HBK    Tag 12 LRD", "Note title 53 JGL", "Note 53 NTR"]),
        entry(2022, 5, 1, "Sunday 3 19 PM", "GOOD", &["Tag 2 NWR    Tag 4 HBK      Tag 5 IGN   Tag 11 XRB   Tag 14 NEU", "Tag 16 QUG    Tag 23 CLN", "Note title 54 JRN", "Note 54 HOI"]),
        entry(2022, 4, 30, "Saturday 1 30 PM", "RAD", &["Note title 55 NWO", "Note 55 JGI"]),
        entry(2022, 4, 30, "Saturday 6 09 AM", "MOOD 1 QBL", &["Tag 0 AHY    Tag 10 OKU   Tag 21 NUD", "Note title 56 WRY", "Note 56 LOF"]),
        entry(2022, 4, 29, "Friday 5 23 AM", "GOOD", &["Tag 11 XRB", "Note title 57 HHQ", "Note 57 MHD"]),
        entry(2022, 4, 28, "Thursday 5 01 PM", "MOOD 0 KWY", &["Note title 58 AKY", "Note 58 CHG"]),
        entry(2022, 4, 28, "Thursday 8 24 AM", "MOOD 0 KWY", &["Tag 24 KVI", "Note title 59 XNI", "Note 59 XHR"]),
        entry(2022, 4, 28, "Thursday 7 11 AM", "MOOD 1 QBL", &["Note title 60 TEO", "Note 60 YQQ"]),
        entry(2022, 4, 28, "Thursday 7 02 AM", "GOOD", &["Tag 11 XRB", "Note title 61 GTQ", "Note 61 NJC"]),
        entry(2022, 4, 27, "Wednesday 1 00 PM", "MOOD 1 QBL", &["Note title 62 OQP", "Note 62 BTP"]),
        entry(2022, 4, 27, "Wednesday 5 30 AM", "MOOD 1 QBL", &["Note title 63 FSU", "Note 63 DWN"]),
    ]
}

#[test]
fn test_parse_pdf() {
    let parsed = parse(BIG_DOC).unwrap();
    let expected = ParsedPdf { stats: expected_parsed_tags(), day_entries: expected_big_entries() };
    assert_eq!(parsed.stats, expected.stats);
    assert_eq!(parsed.day_entries.len(), expected.day_entries.len());
    for (i, (a, b)) in parsed.day_entries.iter().zip(expected.day_entries.iter()).enumerate() {
        assert_eq!(a, b, "entry {} differs", i);
    }
}

#[test]
fn test_parse_small_pdf() {
    let parsed = parse(SMALL_DOC).unwrap();
    let expected_stats = vec![
        stat("rad", 1),
        stat("manger sain", 2),
        stat("exercice", 1),
        stat("meh", 1),
        stat("ménage", 2),
        stat("sport", 1),
        stat("null", 1),
        stat("famille", 1),
        stat("films", 1),
        stat("awful", 2),
        stat("rendez vous", 1),
        stat("shopping", 1),
    ];
    let expected_entries = vec![
        entry(2023, 1, 24, "Tuesday 11 36 AM", "AWFUL", &[]),
        entry(2023, 1, 24, "Tuesday 9 59 AM", "RAD", &["famille       rendez vous        exercice         sport       ménage", "Note title", "Note body"]),
        entry(2023, 1, 11, "Wednesday 10 20 PM", "MEH", &["manger sain", "Hey, here's a note with", "Linebreaks!", "Because I love breaking parsers"]),
        entry(2023, 1, 4, "Wednesday 8 00 PM", "AWFUL", &["manger sain        films       ménage          shopping"]),
        entry(2015, 5, 16, "Saturday 8 00 PM", "NULL", &["No tag", "This is an old note. It has no title, but its body is really longThis is an old note. It has no title, but", "its body is really long", "This is an old note. It has no title, but its body is really long", "This is an old note. It has no title, but its body is really longThis is an old note. It has no title, but", "its body is really long", "This is an old note. It has no title, but its body is really longThis is an old note. It has no title, but", "its body is really long", "This is an old note. It has no title, but its body is really long", "This is an old note. It has no title, but its body is really longThis is an old note. It has no title, but", "its body is really long"]),
    ];
    assert_eq!(parsed.stats, expected_stats);
    assert_eq!(parsed.day_entries, expected_entries);
}

#[test]
fn parse_rejects_header_without_terminator() {
    let r = parse("just one line, never terminated");
    assert_eq!(r, Err(ParseError::Header { position: 0 }));
}

#[test]
fn parse_rejects_statistics_without_terminator() {
    let input = "Title\nRange\n\n\n\nnothing that matches a stat line here";
    match parse(input) {
        Err(ParseError::Statistics { position }) => assert_eq!(position, 15),
        other => panic!("unexpected outcome: {:?}", other),
    }
}

#[test]
fn parse_rejects_statistics_count_overflow() {
    let input = "Title\nRange\n\n\n\nhuge  4294967296\u{d7}\n\n\n\nMay 1, 2022  RAD\nSunday 1 00 PM\n";
    assert!(matches!(parse(input), Err(ParseError::Statistics { .. })));
}

#[test]
fn parse_rejects_missing_first_date() {
    let input = "Title\nRange\n\n\n\n\nrad  3\u{d7}\n\n\n\nthis is not a date";
    match parse(input) {
        Err(ParseError::DayEntries { .. }) => {}
        other => panic!("unexpected outcome: {:?}", other),
    }
}

#[test]
fn parse_accepts_body_less_final_entry() {
    let input = "Title\nRange\n\n\n\n\nrad  3\u{d7}\n\n\n\nMay 1, 2022  RAD\nSunday 1 00 PM\n";
    let parsed = parse(input).unwrap();
    assert_eq!(parsed.day_entries.len(), 1);
    assert_eq!(parsed.day_entries[0].mood, "RAD");
    assert!(parsed.day_entries[0].note.is_empty());
}

#[test]
fn parse_discards_interleaved_page_numbers() {
    let input = "Title\nRange\n\n\n\n\nrad  3\u{d7}\n\n\n\nMay 1, 2022  RAD\nSunday 1 00 PM\nfirst line\n        7\nsecond line\n";
    let parsed = parse(input).unwrap();
    assert_eq!(parsed.day_entries[0].note, vec!["first line".to_owned(), "second line".to_owned()]);
}

#[test]
fn parse_normalizes_french_dates() {
    let english = "Title\nRange\n\n\n\n\nrad  3\u{d7}\n\n\n\nMay 16, 2015  RAD\nSaturday 8 53 PM\n";
    let french = "Title\nRange\n\n\n\n\nrad  3\u{d7}\n\n\n\n16 mai 2015  RAD\nSaturday 8 53 PM\n";
    let a = parse(english).unwrap();
    let b = parse(french).unwrap();
    assert_eq!(a.day_entries[0].date, date(2015, 5, 16));
    assert_eq!(a.day_entries[0].date, b.day_entries[0].date);
}
