use jlv::json::{format_json_line, prepare_for_pretty, truncate_strings, JsonValue};
use jlv::lines::{attach_tail_line_numbers, count_lines, read_head, read_range, split_lines, LineCounter, RangeSelection};
use jlv::locate::read_line_covering_offset;
use jlv::render::{render_entries, render_lines};
use jlv::sample::{read_random_buffered, read_random_fast, FastSampler, Reservoir};
use jlv::tail::{read_tail, TailScan};
use jlv::text::{parse_usize, push_decimal, trim_line_ending};
use jlv::{ensure_positive, JlvError, OutputOptions, SelectedLine};

// ---------------------------------------------------------------------------
// Helpers: the loops that the program runs over a file, run over bytes here.
// ---------------------------------------------------------------------------

fn raw_lines(text: &str) -> Vec<String> {
    text.split_inclusive('\n').map(|l| l.to_owned()).collect()
}

fn tail_of(bytes: &[u8], count: usize) -> Vec<SelectedLine> {
    let mut scan = TailScan::new(count, bytes.len() as u64).unwrap();
    while let Some((offset, len)) = scan.next_read() {
        let start = offset as usize;
        scan.feed_chunk(bytes[start..start + len].to_vec());
    }
    let before = scan.boundary_probe().map(|p| bytes[p as usize]);
    scan.finish(before)
}

fn line_covering(bytes: &[u8], offset: u64) -> Option<(u64, String)> {
    read_line_covering_offset(bytes, offset).unwrap()
}

fn random_fast_of(bytes: &[u8], count: usize) -> Option<Vec<SelectedLine>> {
    let mut sampler = FastSampler::new(count, bytes.len() as u64).unwrap();
    while let Some(offset) = sampler.next_offset() {
        assert!(offset < bytes.len() as u64);
        if let Some((start, line)) = line_covering(bytes, offset) {
            sampler.record(start, &line);
        }
    }
    sampler.finish()
}

fn line(n: Option<usize>, content: &str) -> SelectedLine {
    SelectedLine { line_number: n, content: content.to_owned() }
}

fn get<'a>(value: &'a JsonValue, key: &str) -> &'a JsonValue {
    match value {
        JsonValue::Object(members) => &members.iter().find(|(k, _)| k == key).unwrap().1,
        _ => panic!("not an object"),
    }
}

// ---------------------------------------------------------------------------
// Reading, truncating, rendering and sampling
// ---------------------------------------------------------------------------

#[test]
fn read_range_uses_one_based_indices() {
    let lines = raw_lines("{\"a\":1}\n{\"a\":2}\n{\"a\":3}\n");

    let entries = read_range(&lines, 1, 2).unwrap();

    assert_eq!(
        entries,
        vec![
            SelectedLine { line_number: Some(2), content: "{\"a\":2}".to_owned() },
            SelectedLine { line_number: Some(3), content: "{\"a\":3}".to_owned() },
        ]
    );
}

#[test]
fn read_tail_returns_last_lines_without_full_scan() {
    let entries = read_tail(b"{\"a\":1}\n{\"a\":2}\n{\"a\":3}\n", 2).unwrap();

    assert_eq!(
        entries,
        vec![
            SelectedLine { line_number: None, content: "{\"a\":2}".to_owned() },
            SelectedLine { line_number: None, content: "{\"a\":3}".to_owned() },
        ]
    );
}

#[test]
fn truncate_strings_shortens_long_json_values() {
    let mut value = JsonValue::Object(vec![
        ("name".to_owned(), JsonValue::Str("abcdefghijklmnopqrstuvwxyz".to_owned())),
        (
            "nested".to_owned(),
            JsonValue::Object(vec![("path".to_owned(), JsonValue::Str("1234567890".to_owned()))]),
        ),
    ]);

    truncate_strings(&mut value, 5);

    assert_eq!(get(&value, "name"), &JsonValue::Str("abcde...".to_owned()));
    assert_eq!(get(get(&value, "nested"), "path"), &JsonValue::Str("12345...".to_owned()));
}

#[test]
fn render_lines_pretty_formats_json() {
    let entries = vec![line(Some(7), "{\"name\":\"abcdefghijklmnopqrstuvwxyz\"}")];
    let options = OutputOptions { pretty: Some(0), max_chars: 4, show_line_numbers: true };

    let rendered = render_lines(&entries, &options).unwrap();

    assert!(rendered.contains("[line 7]"));
    assert!(rendered.contains("\"name\": \"abcd...\""));
}

#[test]
fn render_lines_pretty_with_gap_inserts_blank_line() {
    let entries = vec![line(Some(1), "{\"a\":1}"), line(Some(2), "{\"a\":2}")];
    let options = OutputOptions { pretty: Some(1), max_chars: 10, show_line_numbers: false };

    let rendered = render_lines(&entries, &options).unwrap();

    assert!(rendered.contains("}\n\n{\n"));
}

#[test]
fn attach_tail_line_numbers_sets_final_indices() {
    let bytes = b"{\"a\":1}\n{\"a\":2}\n{\"a\":3}\n";
    let mut entries = read_tail(bytes, 2).unwrap();

    attach_tail_line_numbers(count_lines(bytes).unwrap(), &mut entries);

    assert_eq!(entries[0].line_number, Some(2));
    assert_eq!(entries[1].line_number, Some(3));
}

#[test]
fn read_random_fast_returns_requested_number_of_lines() {
    let bytes = b"{\"a\":1}\n{\"a\":2}\n{\"a\":3}\n{\"a\":4}\n";
    let entries = read_random_fast(bytes, 2).unwrap();

    assert_eq!(entries.len(), 2);
    for entry in entries {
        assert!(entry.content.starts_with("{\"a\":"));
    }
}

// ---------------------------------------------------------------------------
// Ranges and heads
// ---------------------------------------------------------------------------

#[test]
fn head_is_range_from_zero() {
    let lines = raw_lines("a\nb\nc\n");
    assert_eq!(read_head(&lines, 2).unwrap(), read_range(&lines, 0, 2).unwrap());
    assert_eq!(read_head(&lines, 2).unwrap(), vec![line(Some(1), "a"), line(Some(2), "b")]);
}

#[test]
fn range_past_the_end_is_empty_or_short() {
    let lines = raw_lines("a\nb\nc");
    assert_eq!(read_range(&lines, 5, 3).unwrap(), vec![]);
    assert_eq!(read_range(&lines, 2, 3).unwrap(), vec![line(Some(3), "c")]);
    assert_eq!(read_range(&[], 0, 3).unwrap(), vec![]);
}

#[test]
fn range_count_zero_is_refused() {
    let lines = raw_lines("a\n");
    assert_eq!(read_range(&lines, 0, 0), Err(JlvError::CountNotPositive));
    assert_eq!(read_head(&lines, 0), Err(JlvError::CountNotPositive));
    assert!(RangeSelection::new(0, 0).is_err());
    assert_eq!(JlvError::CountNotPositive.message(), "count must be greater than 0");
    assert_eq!(ensure_positive(0), Err(JlvError::CountNotPositive));
    assert_eq!(ensure_positive(1), Ok(()));
}

#[test]
fn range_trims_crlf_and_keeps_inner_text() {
    let lines = raw_lines("x\r\n\r\ny \n");
    assert_eq!(
        read_range(&lines, 0, 5).unwrap(),
        vec![line(Some(1), "x"), line(Some(2), ""), line(Some(3), "y ")]
    );
}

#[test]
fn range_selection_stops_after_count() {
    let mut selection = RangeSelection::new(1, 1).unwrap();
    assert!(selection.needs_more());
    selection.accept_line("zero\n");
    assert!(selection.needs_more());
    selection.accept_line("one\n");
    assert!(!selection.needs_more());
    assert_eq!(selection.lines_seen(), 2);
    assert_eq!(selection.into_entries(), vec![line(Some(2), "one")]);
}

// ---------------------------------------------------------------------------
// Tail
// ---------------------------------------------------------------------------

#[test]
fn tail_of_empty_file_is_empty() {
    assert_eq!(tail_of(b"", 3), vec![]);
    assert_eq!(read_tail(b"", 3).unwrap(), vec![]);
    assert!(TailScan::new(0, 10).is_err());
    assert_eq!(read_tail(b"a\n", 0), Err(JlvError::CountNotPositive));
}

#[test]
fn tail_without_final_newline_and_with_crlf() {
    assert_eq!(tail_of(b"a\r\nb\r\nc", 2), vec![line(None, "b"), line(None, "c")]);
    assert_eq!(tail_of(b"a\n\n", 5), vec![line(None, "a"), line(None, "")]);
    assert_eq!(tail_of(b"only", 5), vec![line(None, "only")]);
}

#[test]
fn tail_over_several_chunks_gives_the_last_lines() {
    let mut text = String::new();
    for i in 0..30000 {
        text.push_str(&format!("{{\"n\":{i}}}\n"));
    }
    let entries = tail_of(text.as_bytes(), 3);
    assert_eq!(
        entries,
        vec![line(None, "{\"n\":29997}"), line(None, "{\"n\":29998}"), line(None, "{\"n\":29999}")]
    );
    let long_line = "x".repeat(200_000);
    let text = format!("first\n{long_line}\nlast\n");
    assert_eq!(tail_of(text.as_bytes(), 2), vec![line(None, &long_line), line(None, "last")]);
    assert_eq!(read_tail(text.as_bytes(), 2).unwrap(), vec![line(None, &long_line), line(None, "last")]);
}

#[test]
fn tail_replaces_invalid_utf8() {
    assert_eq!(tail_of(b"ok\n\xffbad\n", 1), vec![line(None, "\u{fffd}bad")]);
}

#[test]
fn attach_numbers_when_file_is_shorter() {
    let mut entries = vec![line(None, "a"), line(None, "b")];
    attach_tail_line_numbers(1, &mut entries);
    assert_eq!(entries, vec![line(Some(1), "a"), line(Some(2), "b")]);
    let mut none: Vec<SelectedLine> = vec![];
    attach_tail_line_numbers(9, &mut none);
    assert!(none.is_empty());
}

// ---------------------------------------------------------------------------
// Random samples
// ---------------------------------------------------------------------------

#[test]
fn reservoir_keeps_all_lines_when_few() {
    let lines = raw_lines("a\nb\nc\n");
    assert_eq!(
        read_random_buffered(&lines, 5).unwrap(),
        vec![line(Some(1), "a"), line(Some(2), "b"), line(Some(3), "c")]
    );
    assert_eq!(read_random_buffered(&lines, 0), Err(JlvError::CountNotPositive));
}

#[test]
fn reservoir_sample_is_sorted_and_genuine() {
    let text: String = (1..=200).map(|i| format!("line {i}\n")).collect();
    let lines = raw_lines(&text);
    let sample = read_random_buffered(&lines, 10).unwrap();
    assert_eq!(sample.len(), 10);
    for pair in sample.windows(2) {
        assert!(pair[0].line_number.unwrap() < pair[1].line_number.unwrap());
    }
    for entry in &sample {
        assert_eq!(entry.content, format!("line {}", entry.line_number.unwrap()));
    }
    let mut reservoir = Reservoir::new(2).unwrap();
    reservoir.offer("x\n");
    assert_eq!(reservoir.lines_seen(), 1);
    assert_eq!(reservoir.finish(), vec![line(Some(1), "x")]);
}

#[test]
fn fast_sample_is_distinct_and_ordered() {
    let text: String = (1..=100).map(|i| format!("row {i}\n")).collect();
    let sample = random_fast_of(text.as_bytes(), 5).expect("enough lines for a fast sample");
    assert_eq!(sample.len(), 5);
    let numbers: Vec<usize> = sample
        .iter()
        .map(|e| {
            assert_eq!(e.line_number, None);
            e.content.strip_prefix("row ").unwrap().parse().unwrap()
        })
        .collect();
    for pair in numbers.windows(2) {
        assert!(pair[0] < pair[1]);
    }
}

#[test]
fn fast_sample_of_empty_file_is_empty_and_short_file_falls_back() {
    assert_eq!(random_fast_of(b"", 3), Some(vec![]));
    assert_eq!(random_fast_of(b"one\ntwo\n", 3), None);
    assert!(FastSampler::new(0, 5).is_err());
}

#[test]
fn locator_finds_the_covering_line() {
    let bytes = b"ab\ncd\n\nef";
    assert_eq!(line_covering(bytes, 0), Some((0, "ab".to_owned())));
    assert_eq!(line_covering(bytes, 1), Some((0, "ab".to_owned())));
    assert_eq!(line_covering(bytes, 2), Some((0, "ab".to_owned())));
    assert_eq!(line_covering(bytes, 4), Some((3, "cd".to_owned())));
    assert_eq!(line_covering(bytes, 6), Some((6, "".to_owned())));
    assert_eq!(line_covering(bytes, 8), Some((7, "ef".to_owned())));
    assert_eq!(line_covering(bytes, 100), Some((7, "ef".to_owned())));
    assert_eq!(line_covering(b"", 0), None);
    let mut long = "y".repeat(20_000);
    long.insert(0, '\n');
    long.insert_str(0, "head");
    assert_eq!(line_covering(long.as_bytes(), 19_000).map(|(s, _)| s), Some(5));
}

// ---------------------------------------------------------------------------
// Text, JSON and rendering
// ---------------------------------------------------------------------------

#[test]
fn text_helpers() {
    assert_eq!(trim_line_ending("abc\r\n\n\r"), "abc");
    assert_eq!(trim_line_ending("a\nb"), "a\nb");
    assert_eq!(parse_usize("42"), Some(42));
    assert_eq!(parse_usize("+7"), Some(7));
    assert_eq!(parse_usize("007"), Some(7));
    assert_eq!(parse_usize("+"), None);
    assert_eq!(parse_usize(""), None);
    assert_eq!(parse_usize("-0"), None);
    assert_eq!(parse_usize(" 1"), None);
    assert_eq!(parse_usize("18446744073709551615"), Some(18446744073709551615));
    assert_eq!(parse_usize("18446744073709551616"), None);
    let mut s = String::from("n=");
    push_decimal(&mut s, 1205);
    push_decimal(&mut s, 0);
    assert_eq!(s, "n=12050");
}

#[test]
fn truncation_leaves_keys_numbers_and_short_strings() {
    let mut value = JsonValue::Array(vec![
        JsonValue::Str("héllo wörld".to_owned()),
        JsonValue::Number(serde_json::Number::from(12345678u64)),
        JsonValue::Object(vec![("a_very_long_key".to_owned(), JsonValue::Str("ok".to_owned()))]),
        JsonValue::Bool(true),
        JsonValue::Null,
    ]);
    truncate_strings(&mut value, 3);
    assert_eq!(
        value,
        JsonValue::Array(vec![
            JsonValue::Str("hél...".to_owned()),
            JsonValue::Number(serde_json::Number::from(12345678u64)),
            JsonValue::Object(vec![("a_very_long_key".to_owned(), JsonValue::Str("ok".to_owned()))]),
            JsonValue::Bool(true),
            JsonValue::Null,
        ])
    );
    let mut untouched = JsonValue::Str("abcdef".to_owned());
    prepare_for_pretty(&mut untouched, 0);
    assert_eq!(untouched, JsonValue::Str("abcdef".to_owned()));
}

#[test]
fn render_plain_lines() {
    let entries = vec![line(Some(3), "x"), line(None, "y")];
    let plain = OutputOptions { pretty: None, max_chars: 60, show_line_numbers: false };
    assert_eq!(render_lines(&entries, &plain).unwrap(), "x\ny\n");
    let numbered = OutputOptions { pretty: None, max_chars: 60, show_line_numbers: true };
    assert_eq!(render_lines(&entries, &numbered).unwrap(), "[line 3] x\ny\n");
    assert_eq!(render_lines(&[], &numbered).unwrap(), "");
    assert_eq!(render_lines(&[line(None, "")], &plain).unwrap(), "");
}

#[test]
fn render_pretty_headers_and_fallback() {
    let entries = vec![line(None, "not json"), line(Some(4), "{\"k\":1}")];
    let options = OutputOptions { pretty: Some(2), max_chars: 60, show_line_numbers: true };
    let rendered = render_lines(&entries, &options).unwrap();
    assert_eq!(rendered, "[entry 1]\nnot json\n\n\n[line 4]\n{\n  \"k\": 1\n}\n");
}

#[test]
fn render_pretty_not_json_and_no_limit() {
    let not_json = vec![line(None, "not json")];
    let options = OutputOptions { pretty: Some(0), max_chars: 60, show_line_numbers: true };
    assert_eq!(render_lines(&not_json, &options).unwrap(), "[entry 1]\nnot json\n");
    let long = vec![line(Some(1), "{\"k\":\"abcdef\"}")];
    let whole = OutputOptions { pretty: Some(0), max_chars: 0, show_line_numbers: false };
    assert_eq!(render_lines(&long, &whole).unwrap(), "{\n  \"k\": \"abcdef\"\n}\n");
    let cut = OutputOptions { pretty: Some(0), max_chars: 2, show_line_numbers: false };
    assert_eq!(render_lines(&long, &cut).unwrap(), "{\n  \"k\": \"ab...\"\n}\n");
}

#[test]
fn format_json_line_parses_cuts_and_prints() {
    assert_eq!(format_json_line("[1, \"abcd\", {\"x\": null}]", 1).unwrap(), "[\n  1,\n  \"a...\",\n  {\n    \"x\": null\n  }\n]");
    assert_eq!(format_json_line("{\"n\": 2.5, \"t\": true}", 0).unwrap(), "{\n  \"n\": 2.5,\n  \"t\": true\n}");
    assert_eq!(format_json_line("{\"a\":", 5), None);
    assert_eq!(format_json_line("", 5), None);
}

#[test]
fn render_entries_uses_the_given_bodies() {
    let entries = vec![line(Some(1), "raw one"), line(None, "raw two")];
    let options = OutputOptions { pretty: Some(1), max_chars: 60, show_line_numbers: true };
    let bodies = vec![Some("BODY".to_owned()), None];
    assert_eq!(
        render_entries(&entries, &options, &bodies).unwrap(),
        "[line 1]\nBODY\n\n[entry 2]\nraw two\n"
    );
}

#[test]
fn render_of_a_concatenation_joins_the_renderings() {
    let a = vec![line(Some(1), "{\"a\":1}")];
    let b = vec![line(Some(2), "{\"b\":\"long text\"}"), line(Some(3), "plain")];
    let options = OutputOptions { pretty: Some(2), max_chars: 4, show_line_numbers: true };
    let both: Vec<SelectedLine> = a.iter().chain(b.iter()).cloned().collect();
    let joined = render_lines(&a, &options).unwrap() + "\n\n" + &render_lines(&b, &options).unwrap();
    assert_eq!(render_lines(&both, &options).unwrap(), joined);
}

#[test]
fn truncating_twice_is_truncating_once() {
    let make = || JsonValue::Array(vec![JsonValue::Str("abcdefgh".to_owned()), JsonValue::Str("ab".to_owned())]);
    let mut once = make();
    truncate_strings(&mut once, 3);
    let mut twice = make();
    truncate_strings(&mut twice, 3);
    truncate_strings(&mut twice, 3);
    assert_eq!(once, twice);
    assert_eq!(once, JsonValue::Array(vec![JsonValue::Str("abc...".to_owned()), JsonValue::Str("ab".to_owned())]));
}

#[test]
fn random_fast_over_bytes_gives_small_files_whole() {
    let bytes = b"a\nb\r\nc";
    assert_eq!(
        read_random_fast(bytes, 5).unwrap(),
        vec![line(Some(1), "a"), line(Some(2), "b"), line(Some(3), "c")]
    );
    assert_eq!(read_random_fast(b"", 2).unwrap(), vec![]);
    assert_eq!(read_random_fast(bytes, 0), Err(JlvError::CountNotPositive));
    assert_eq!(read_random_fast(b"ok\n\xffbad\n", 5), Err(JlvError::InvalidUtf8));
    let text: String = (1..=50).map(|i| format!("r{i}\n")).collect();
    let sample = read_random_fast(text.as_bytes(), 3).unwrap();
    assert_eq!(sample.len(), 3);
    for entry in &sample {
        assert!(entry.content.starts_with('r'));
    }
}

#[test]
fn split_lines_keeps_endings_and_refuses_bad_utf8() {
    assert_eq!(split_lines(b"a\r\nb\n\nc").unwrap(), vec!["a\r\n", "b\n", "\n", "c"]);
    assert_eq!(split_lines(b"").unwrap(), Vec::<String>::new());
    assert_eq!(split_lines(b"x\n\xc3"), Err(JlvError::InvalidUtf8));
    assert_eq!(read_line_covering_offset(b"ok\n\xff\n", 3), Err(JlvError::InvalidUtf8));
    assert_eq!(JlvError::InvalidUtf8.message(), "stream did not contain valid UTF-8");
}

#[test]
fn reservoir_place_follows_the_drawn_slot() {
    let mut r = Reservoir::new(2).unwrap();
    r.place("a\n", 7);
    r.place("b\n", 9);
    r.place("c\n", 1);
    r.place("d\n", 2);
    assert_eq!(r.finish(), vec![line(Some(1), "a"), line(Some(3), "c")]);
}

#[test]
fn count_lines_counts_every_jsonl_row() {
    assert_eq!(count_lines(b"{\"a\":1}\n{\"a\":2}\n{\"a\":3}\n").unwrap(), 3);
}

#[test]
fn count_lines_edge_cases() {
    assert_eq!(count_lines(b"").unwrap(), 0);
    assert_eq!(count_lines(b"a").unwrap(), 1);
    assert_eq!(count_lines(b"\n\n").unwrap(), 2);
    assert_eq!(count_lines(b"a\n\xff\n"), Err(JlvError::InvalidUtf8));
    let mut counter = LineCounter::new();
    counter.count_line("x\n");
    counter.count_line("y");
    assert_eq!(counter.total(), 2);
}

#[test]
fn random_fast_lines_are_lines_of_the_file() {
    let text: String = (1..=40).map(|i| format!("line {i}\r\n")).collect();
    let sample = read_random_fast(text.as_bytes(), 4).unwrap();
    assert_eq!(sample.len(), 4);
    let mut last = 0;
    for entry in &sample {
        let n: usize = entry.content.strip_prefix("line ").unwrap().parse().unwrap();
        assert!(n > last);
        last = n;
        if let Some(k) = entry.line_number {
            assert_eq!(k, n);
        }
    }
}

#[test]
fn pretty_numbers_are_written_back_unchanged() {
    assert_eq!(format_json_line("[0.1, 1e300, -7, 18446744073709551615]", 5).unwrap(), "[\n  0.1,\n  1e+300,\n  -7,\n  18446744073709551615\n]");
}

#[test]
fn numbered_tail_is_the_range_of_the_same_lines() {
    let bytes = b"one\r\ntwo\nthree\nfour";
    let total = count_lines(bytes).unwrap();
    for count in 1..7 {
        let mut tail = read_tail(bytes, count).unwrap();
        attach_tail_line_numbers(total, &mut tail);
        let lines = split_lines(bytes).unwrap();
        let range = read_range(&lines, total.saturating_sub(count), count).unwrap();
        assert_eq!(tail, range);
    }
}
