use change_scheme::codec::{FormatError, Header};
use change_scheme::engine::{change_scheme, iter_indexes, unaligned_words, Note, NoteKind};
use change_scheme::scheme::{Pair, Scheme, SchemeError};
use change_scheme::textgrid::{Interval, IntervalTier, TextGrid};

fn iv(min: &str, max: &str, text: &str) -> Interval {
    Interval { min_time: min.to_string(), max_time: max.to_string(), text: text.to_string() }
}

fn tier(name: &str, min: &str, max: &str, intervals: Vec<Interval>) -> IntervalTier {
    IntervalTier { min_time: min.to_string(), max_time: max.to_string(), name: name.to_string(), intervals }
}

fn grid(words: Vec<Interval>, phones: Vec<Interval>, max: &str) -> TextGrid {
    TextGrid {
        min_time: "0".to_string(),
        max_time: max.to_string(),
        items: vec![tier("words", "0", max, words), tier("phones", "0", max, phones)],
    }
}

fn strings(v: &[&str]) -> Vec<String> {
    v.iter().map(|s| s.to_string()).collect()
}

fn pair(old: &[&str], new: &str) -> Pair {
    Pair { new: new.to_string(), old: strings(old) }
}

fn summary(ivs: &[Interval]) -> Vec<(String, String, String)> {
    ivs.iter().map(|i| (i.min_time.clone(), i.max_time.clone(), i.text.clone())).collect()
}

#[test]
fn alignment_follows_word_ends() {
    let tg = grid(
        vec![iv("0", "1.0", "a"), iv("1.0", "2.5", "b")],
        vec![iv("0", "0.5", "p"), iv("0.5", "1.0", "q"), iv("1.0", "2.0", "r"), iv("2.0", "2.5", "s")],
        "2.5",
    );
    assert_eq!(iter_indexes(&tg), vec![(0, (0, 1)), (1, (2, 3))]);
}

#[test]
fn alignment_skips_word_without_matching_end() {
    let tg = grid(
        vec![iv("0", "1", "a"), iv("1", "7", "b"), iv("7", "3", "c")],
        vec![iv("0", "1", "p"), iv("1", "2", "q"), iv("2", "3", "r")],
        "3",
    );
    assert_eq!(iter_indexes(&tg), vec![(0, (0, 0)), (2, (1, 2))]);
}

#[test]
fn rules_collapse_phones() {
    let mut scheme = Scheme::new();
    scheme.insert("W".to_string(), vec![pair(&["a", "b"], "x"), pair(&["c"], "y")]);
    let tg = grid(
        vec![iv("0", "3", "W")],
        vec![iv("0", "1", "a"), iv("1", "2", "b"), iv("2", "3", "c")],
        "3",
    );
    let (out, notes) = change_scheme(&scheme, &tg).unwrap();
    assert_eq!(
        summary(&out.items[1].intervals),
        vec![
            ("0".to_string(), "2".to_string(), "x".to_string()),
            ("2".to_string(), "3".to_string(), "y".to_string())
        ]
    );
    assert!(notes.is_empty());
    assert_eq!(summary(&out.items[0].intervals), summary(&tg.items[0].intervals));
    assert_eq!(out.items[1].name, "phones");
}

#[test]
fn mismatch_keeps_phones() {
    let mut scheme = Scheme::new();
    scheme.insert("W".to_string(), vec![pair(&["a", "b"], "x"), pair(&["c"], "y")]);
    let phones = vec![iv("0", "1", "a"), iv("1", "2", "z"), iv("2", "3", "c")];
    let tg = grid(vec![iv("0", "3", "W")], phones.clone(), "3");
    let (out, notes) = change_scheme(&scheme, &tg).unwrap();
    assert_eq!(summary(&out.items[1].intervals), summary(&phones));
    assert_eq!(notes, vec![Note { kind: NoteKind::Mismatch, word: 0, start: 0, end: 2 }]);
}

#[test]
fn already_converted_keeps_phones() {
    let mut scheme = Scheme::new();
    scheme.insert("W".to_string(), vec![pair(&["a", "b"], "x"), pair(&["c"], "y")]);
    let phones = vec![iv("0", "2", "x"), iv("2", "3", "y")];
    let tg = grid(vec![iv("0", "3", "W")], phones.clone(), "3");
    let (out, notes) = change_scheme(&scheme, &tg).unwrap();
    assert_eq!(summary(&out.items[1].intervals), summary(&phones));
    assert_eq!(notes, vec![Note { kind: NoteKind::AlreadyConverted, word: 0, start: 0, end: 1 }]);
}

#[test]
fn unknown_word_keeps_phones() {
    let mut scheme = Scheme::new();
    scheme.insert("W".to_string(), vec![pair(&["a"], "x")]);
    let phones = vec![iv("0", "1", "a"), iv("1", "2", "m"), iv("2", "3", "n")];
    let tg = grid(vec![iv("0", "1", "W"), iv("1", "3", "V")], phones, "3");
    let (out, notes) = change_scheme(&scheme, &tg).unwrap();
    assert_eq!(
        summary(&out.items[1].intervals),
        vec![
            ("0".to_string(), "1".to_string(), "x".to_string()),
            ("1".to_string(), "2".to_string(), "m".to_string()),
            ("2".to_string(), "3".to_string(), "n".to_string())
        ]
    );
    assert_eq!(notes, vec![Note { kind: NoteKind::UnknownWord, word: 1, start: 1, end: 2 }]);
}

#[test]
fn time_is_conserved() {
    let mut scheme = Scheme::new();
    scheme.insert("W".to_string(), vec![pair(&["a", "b"], "x"), pair(&["c"], "y")]);
    scheme.insert("SP".to_string(), vec![pair(&["SP"], "SP")]);
    let tg = grid(
        vec![iv("0.1", "0.5", "SP"), iv("0.5", "3", "W")],
        vec![iv("0.1", "0.5", "SP"), iv("0.5", "1", "a"), iv("1", "2", "b"), iv("2", "3", "c")],
        "3",
    );
    let (out, _) = change_scheme(&scheme, &tg).unwrap();
    let p = &out.items[1].intervals;
    assert_eq!(p.len(), 3);
    assert_eq!(p[0].min_time, "0.1");
    assert_eq!(p[p.len() - 1].max_time, "3");
}

#[test]
fn too_few_tiers_is_refused() {
    let scheme = Scheme::new();
    let tg = TextGrid { min_time: "0".to_string(), max_time: "1".to_string(), items: vec![] };
    assert!(change_scheme(&scheme, &tg).is_none());
}

#[test]
fn rule_row_is_cut_at_new_labels() {
    let rules = Pair::parse(&strings(&["p", "h", "o", "n"]), &strings(&["ph", "", "on", ""])).unwrap();
    assert_eq!(rules.len(), 2);
    assert_eq!(rules[0].new, "ph");
    assert_eq!(rules[0].old, strings(&["p", "h"]));
    assert_eq!(rules[1].new, "on");
    assert_eq!(rules[1].old, strings(&["o", "n"]));
}

#[test]
fn rule_row_drops_labels_before_first_start() {
    let rules = Pair::parse(&strings(&["a", "b", "c"]), &strings(&["", "B", ""])).unwrap();
    assert_eq!(rules.len(), 1);
    assert_eq!(rules[0].new, "B");
    assert_eq!(rules[0].old, strings(&["b", "c"]));
}

#[test]
fn rule_row_without_new_label_is_refused() {
    assert_eq!(Pair::parse(&strings(&["a", "b"]), &strings(&["", ""])).err(), Some(SchemeError::NoBoundary));
}

#[test]
fn scheme_rows_are_added() {
    let mut scheme = Scheme::new();
    assert_eq!(scheme.add_row(&strings(&["hon", "h", "o", "n", "", ""]), &strings(&["hon", "h", "on", ""])), Ok(()));
    let rules = scheme.get(&"hon".to_string()).unwrap();
    assert_eq!(rules.len(), 2);
    assert_eq!(rules[0].new, "h");
    assert_eq!(rules[0].old, strings(&["h"]));
    assert_eq!(rules[1].new, "on");
    assert_eq!(rules[1].old, strings(&["o", "n"]));
    assert!(scheme.get(&"other".to_string()).is_none());
}

#[test]
fn scheme_row_errors() {
    let mut scheme = Scheme::new();
    assert_eq!(scheme.add_row(&strings(&["", ""]), &strings(&["x"])), Err(SchemeError::MissingWord));
    assert_eq!(scheme.add_row(&strings(&["w", "a", "b"]), &strings(&["w", "x"])), Err(SchemeError::ShortNewLine));
    assert_eq!(scheme.add_row(&strings(&["w", "a"]), &strings(&["w", ""])), Err(SchemeError::NoBoundary));
    assert!(scheme.get(&"w".to_string()).is_none());
}

#[test]
fn later_entry_replaces_earlier() {
    let mut scheme = Scheme::new();
    scheme.insert("SP".to_string(), vec![pair(&["sp"], "x")]);
    scheme.insert("SP".to_string(), vec![pair(&["SP"], "SP")]);
    let rules = scheme.get(&"SP".to_string()).unwrap();
    assert_eq!(rules.len(), 1);
    assert_eq!(rules[0].old, strings(&["SP"]));
}

const SAMPLE: &str = "File type = \"ooTextFile\"\n\
Object class = \"TextGrid\"\n\
\n\
xmin = 0\n\
xmax = 2.5\n\
tiers? <exists>\n\
size = 2\n\
item []:\n\
    item [1]:\n\
        class = \"IntervalTier\"\n\
        name = \"words\"\n\
        xmin = 0\n\
        xmax = 2.5\n\
        intervals: size = 1\n\
        intervals [1]:\n\
            xmin = 0\n\
            xmax = 2.5\n\
            text = \"W\"\n\
    item [2]:\n\
        class = \"IntervalTier\"\n\
        name = \"phones\"\n\
        xmin = 0\n\
        xmax = 2.5\n\
        intervals: size = 2\n\
        intervals [1]:\n\
            xmin = 0\n\
            xmax = 1.25\n\
            text = \"a\"\n\
        intervals [2]:\n\
            xmin = 1.25\n\
            xmax = 2.5\n\
            text = \"\"\n";

#[test]
fn parse_reads_sample() {
    let (tg, header) = TextGrid::read(SAMPLE).unwrap();
    assert_eq!(header, Header { file_type_ok: true, object_class_ok: true });
    assert_eq!(tg.min_time, "0");
    assert_eq!(tg.max_time, "2.5");
    assert_eq!(tg.size(), 2);
    assert_eq!(tg.items[0].name, "words");
    assert_eq!(tg.items[1].size(), 2);
    assert_eq!(summary(&tg.items[1].intervals), vec![
        ("0".to_string(), "1.25".to_string(), "a".to_string()),
        ("1.25".to_string(), "2.5".to_string(), "".to_string())
    ]);
}

#[test]
fn parse_accepts_loose_spacing_and_crlf() {
    let text = SAMPLE.replace("xmin = 0\n", "xmin   =0 \r\n").replace("File type", "File  type");
    let (tg, header) = TextGrid::read(&text).unwrap();
    assert_eq!(tg.min_time, "0");
    assert_eq!(tg.items[1].intervals[0].min_time, "0");
    assert!(header.file_type_ok);
}

#[test]
fn header_mismatch_is_advisory() {
    let text = SAMPLE.replace("ooTextFile", "other");
    let (tg, header) = TextGrid::read(&text).unwrap();
    assert_eq!(header, Header { file_type_ok: false, object_class_ok: true });
    assert_eq!(tg.size(), 2);
}

#[test]
fn parse_errors() {
    assert_eq!(TextGrid::read("").err(), Some(FormatError::MissingLine));
    assert_eq!(TextGrid::read(&SAMPLE.replace("xmax = 1.25", "xmax = abc")).err(), Some(FormatError::BadNumber));
    assert_eq!(TextGrid::read(&SAMPLE.replace("\"words\"", "words")).err(), Some(FormatError::BadText));
    assert_eq!(TextGrid::read(&SAMPLE.replace("\"IntervalTier\"\nname = \"phones\"", "\"TextTier\"\nname = \"phones\"")).err(), Some(FormatError::UnsupportedTier));
    assert_eq!(TextGrid::read(&SAMPLE.replace("size = 2\nitem", "size = 2.0\nitem")).err(), Some(FormatError::BadCount));
    assert_eq!(TextGrid::read(&SAMPLE.replace("size = 2\nitem", "size = 3\nitem")).err(), Some(FormatError::MissingLine));
}

#[test]
fn to_string_writes_numbered_blocks() {
    let tg = TextGrid {
        min_time: "0".to_string(),
        max_time: "1".to_string(),
        items: vec![tier("w", "0", "1", vec![iv("0", "1", "hi")])],
    };
    let expected = "File type = \"ooTextFile\"\nObject class = \"TextGrid\"\n\nxmin = 0\nxmax = 1\ntiers? <exists>\nsize = 1\nitem []:\n    item [1]\n        class = \"IntervalTier\"\n        name = \"w\"\n        xmin = 0\n        xmax = 1\n        intervals: size = 1\n            intervals [1]\n                xmin = 0\n                xmax = 1\n                text = \"hi\"\n";
    assert_eq!(tg.to_string(), expected);
}

#[test]
fn to_string_without_tiers() {
    let tg = TextGrid { min_time: "0".to_string(), max_time: "1".to_string(), items: vec![] };
    assert_eq!(tg.to_string(), "File type = \"ooTextFile\"\nObject class = \"TextGrid\"\n\nxmin = 0\nxmax = 1\ntiers? <absent>\n");
    let (back, _) = TextGrid::read(&tg.to_string()).unwrap();
    assert_eq!(back.size(), 0);
    assert_eq!(back.max_time, "1");
}

#[test]
fn round_trip_keeps_values() {
    let (tg, _) = TextGrid::read(SAMPLE).unwrap();
    let text = tg.to_string();
    let (back, _) = TextGrid::read(&text).unwrap();
    assert_eq!(back.to_string(), text);
    assert_eq!(summary(&back.items[1].intervals), summary(&tg.items[1].intervals));
    let tg10 = TextGrid {
        min_time: "0".to_string(),
        max_time: "10".to_string(),
        items: vec![tier("p", "0", "10", (0..12).map(|k| iv(&k.to_string(), &(k + 1).to_string(), "x")).collect())],
    };
    let (back10, _) = TextGrid::read(&tg10.to_string()).unwrap();
    assert_eq!(back10.items[0].size(), 12);
    assert!(tg10.to_string().contains("intervals [12]"));
}

#[test]
fn other_tiers_are_copied() {
    let mut scheme = Scheme::new();
    scheme.insert("W".to_string(), vec![pair(&["a", "b"], "x")]);
    let mut tg = grid(vec![iv("0", "2", "W")], vec![iv("0", "1", "a"), iv("1", "2", "b")], "2");
    tg.items.push(tier("notes", "0", "2", vec![iv("0", "2", "n")]));
    let (out, notes) = change_scheme(&scheme, &tg).unwrap();
    assert!(notes.is_empty());
    assert_eq!(out.size(), 3);
    assert_eq!(out.items[2].name, "notes");
    assert_eq!(summary(&out.items[2].intervals), summary(&tg.items[2].intervals));
    assert_eq!(summary(&out.items[1].intervals), vec![("0".to_string(), "2".to_string(), "x".to_string())]);
}

#[test]
fn interval_text_form() {
    assert_eq!(iv("0.5", "1", "ph").to_string(), "interval: \n   xmin = 0.5\n   xmax = 1\n   text = \"ph\"");
}

#[test]
fn malformed_numbers_are_refused() {
    for bad in ["1.2.3", ".", "..", "1..2"] {
        let text = SAMPLE.replace("xmax = 1.25", &format!("xmax = {bad}"));
        assert_eq!(TextGrid::read(&text).err(), Some(FormatError::BadNumber), "{bad}");
    }
    for good in [".5", "2.", "007"] {
        let text = SAMPLE.replace("xmax = 1.25\n", &format!("xmax = {good}\n")).replace("xmin = 1.25\n", &format!("xmin = {good}\n"));
        let (tg, _) = TextGrid::read(&text).unwrap();
        assert_eq!(tg.items[1].intervals[0].max_time, good);
    }
}

#[test]
fn header_lines_follow_their_pattern() {
    let cases = [
        ("File type = \"ooTextFile\"", true),
        ("File  type=\"ooTextFile\"", true),
        ("File type = \"ooTextFile\" x", true),
        ("File type = \"other\"", false),
        (" File type = \"ooTextFile\"", false),
        ("X = \"ooTextFile\"", false),
    ];
    for (line, ok) in cases {
        let text = SAMPLE.replace("File type = \"ooTextFile\"", line);
        let (_, header) = TextGrid::read(&text).unwrap();
        assert_eq!(header.file_type_ok, ok, "{line}");
        assert!(header.object_class_ok);
    }
    let classes = [
        ("Object class = \"TextGrid\"", true),
        ("Object class=\"TextGrid\"", true),
        ("Object class = \"Pitch\"", false),
        ("  Object class = \"TextGrid\"", false),
    ];
    for (line, ok) in classes {
        let text = SAMPLE.replace("Object class = \"TextGrid\"", line);
        let (_, header) = TextGrid::read(&text).unwrap();
        assert_eq!(header.object_class_ok, ok, "{line}");
    }
}

#[test]
fn unaligned_words_are_listed() {
    let tg = grid(
        vec![iv("0", "1", "a"), iv("1", "7", "b"), iv("7", "3", "c")],
        vec![iv("0", "1", "p"), iv("1", "2", "q"), iv("2", "3", "r")],
        "3",
    );
    assert_eq!(unaligned_words(&tg), vec![1]);
    let ok = grid(vec![iv("0", "1", "a")], vec![iv("0", "1", "p")], "1");
    assert!(unaligned_words(&ok).is_empty());
}

#[test]
fn rule_intervals_leave_no_gap() {
    let mut scheme = Scheme::new();
    scheme.insert("W".to_string(), vec![pair(&["a"], "x"), pair(&["b", "c"], "y"), pair(&["d"], "z")]);
    let tg = grid(
        vec![iv("0", "4", "W")],
        vec![iv("0", "1", "a"), iv("1", "2", "b"), iv("2", "3", "c"), iv("3", "4", "d")],
        "4",
    );
    let (out, _) = change_scheme(&scheme, &tg).unwrap();
    assert_eq!(
        summary(&out.items[1].intervals),
        vec![
            ("0".to_string(), "1".to_string(), "x".to_string()),
            ("1".to_string(), "3".to_string(), "y".to_string()),
            ("3".to_string(), "4".to_string(), "z".to_string())
        ]
    );
}
