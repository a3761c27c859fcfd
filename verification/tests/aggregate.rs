use sg_patch::aggregate::{aggregate_results, convert_record};
use sg_patch::records::{
    CharCount, End, Range, ReplacementOffsets, SgGuiResultItem, SgResultRaw, Sign,
};

fn b(s: &str) -> Vec<u8> {
    s.as_bytes().to_vec()
}

fn record(
    file: &str,
    byte_start: u32,
    byte_end: u32,
    line: usize,
    text: &str,
    lines: &str,
    replacement: Option<&str>,
) -> SgResultRaw {
    SgResultRaw {
        text: b(text),
        range: Range {
            byte_offset: ReplacementOffsets { start: byte_start, end: byte_end },
            start: End { line, column: 0 },
            end: End { line, column: 0 },
        },
        file: b(file),
        lines: b(lines),
        char_count: CharCount { leading: 0, trailing: 0 },
        replacement: replacement.map(b),
        language: b("js"),
    }
}

fn items_eq(a: &SgGuiResultItem, b: &SgGuiResultItem) -> bool {
    a.id == b.id
        && a.file == b.file
        && a.replacement == b.replacement
        && a.byte_start == b.byte_start
        && a.byte_end == b.byte_end
        && a.formatted_lines.len() == b.formatted_lines.len()
        && a.formatted_lines.iter().zip(b.formatted_lines.iter()).all(|(x, y)| {
            x.bln == y.bln && x.aln == y.aln && x.sign == y.sign && x.val == y.val
        })
}

#[test]
fn grouping_determinism() {
    let records = vec![
        record("b.js", 7, 9, 0, "x", "x", None),
        record("a.js", 50, 53, 5, "x", "x", None),
        record("a.js", 10, 13, 1, "x", "x", None),
    ];
    let groups = aggregate_results(records);
    assert_eq!(groups.len(), 2);
    assert_eq!(groups[0].file, b("a.js"));
    assert_eq!(groups[1].file, b("b.js"));
    assert_eq!(groups[0].results.len(), 2);
    assert_eq!(groups[0].results[0].byte_start, 10);
    assert_eq!(groups[0].results[1].byte_start, 50);
    assert_eq!(groups[1].results.len(), 1);
    assert_eq!(groups[1].results[0].byte_start, 7);
}

#[test]
fn diff_absent_path() {
    let rec = record("a.js", 0, 3, 4, "foo", "foo()\nbar()\nbaz()", None);
    let item = convert_record(&rec);
    assert_eq!(item.formatted_lines.len(), 3);
    for (i, line) in item.formatted_lines.iter().enumerate() {
        assert_eq!(line.bln, Some(5 + i));
        assert_eq!(line.aln, None);
        assert_eq!(line.sign, None);
    }
    assert_eq!(item.formatted_lines[0].val, b("foo()"));
    assert_eq!(item.formatted_lines[1].val, b("bar()"));
    assert_eq!(item.formatted_lines[2].val, b("baz()"));
}

#[test]
fn diff_absent_keeps_empty_lines() {
    let rec = record("a.js", 0, 1, 0, "x", "x\n", None);
    let item = convert_record(&rec);
    assert_eq!(item.formatted_lines.len(), 2);
    assert_eq!(item.formatted_lines[0].val, b("x"));
    assert_eq!(item.formatted_lines[1].val, b(""));
}

#[test]
fn diff_present_path() {
    let rec = record("a.js", 5, 8, 0, "foo", "call(foo)", Some("bar"));
    let item = convert_record(&rec);
    let changed: Vec<_> =
        item.formatted_lines.iter().filter(|l| l.sign.is_some()).collect();
    assert_eq!(changed.len(), 2);
    let removed: Vec<_> =
        changed.iter().filter(|l| l.sign == Some(Sign::Minus)).collect();
    let added: Vec<_> =
        changed.iter().filter(|l| l.sign == Some(Sign::Plus)).collect();
    assert_eq!(removed.len(), 1);
    assert_eq!(added.len(), 1);
    assert_eq!(removed[0].val, b("call(foo)"));
    assert_eq!(added[0].val, b("call(bar)"));
}

#[test]
fn diff_line_numbers_shift_to_first_line() {
    let rec = record("a.js", 5, 8, 9, "foo", "call(foo)", Some("bar"));
    let item = convert_record(&rec);
    for line in &item.formatted_lines {
        if line.sign == Some(Sign::Minus) {
            assert_eq!(line.bln, Some(10));
            assert_eq!(line.aln, None);
        }
        if line.sign == Some(Sign::Plus) {
            assert_eq!(line.aln, Some(10));
            assert_eq!(line.bln, None);
        }
    }
}

#[test]
fn diff_replaces_first_occurrence_only() {
    let rec = record("a.js", 0, 3, 0, "foo", "foo(foo)", Some("bar"));
    let item = convert_record(&rec);
    let added: Vec<_> = item
        .formatted_lines
        .iter()
        .filter(|l| l.sign == Some(Sign::Plus))
        .collect();
    assert_eq!(added.len(), 1);
    assert_eq!(added[0].val, b("bar(foo)"));
}

#[test]
fn identifier_format() {
    let rec = record("src/a.js", 10, 20, 0, "x", "x", None);
    let item = convert_record(&rec);
    assert_eq!(item.id, b("src/a.js:10:20"));
    assert_eq!(item.file, b("src/a.js"));
    assert_eq!(item.replacement, b(""));
    assert_eq!(item.byte_start, 10);
    assert_eq!(item.byte_end, 20);
}

#[test]
fn replacement_field_carries_proposal() {
    let rec = record("a.js", 0, 3, 0, "foo", "foo", Some("bar"));
    let item = convert_record(&rec);
    assert_eq!(item.replacement, b("bar"));
}

#[test]
fn identifier_stability() {
    let mk = || {
        vec![
            record("b.js", 7, 9, 0, "x", "let x = 1;", Some("y")),
            record("a.js", 50, 53, 5, "foo", "call(foo)", Some("bar")),
            record("a.js", 10, 13, 1, "foo", "foo()\nfoo()", None),
        ]
    };
    let first = aggregate_results(mk());
    let second = aggregate_results(mk());
    assert_eq!(first.len(), second.len());
    for (ga, gb) in first.iter().zip(second.iter()) {
        assert_eq!(ga.file, gb.file);
        assert_eq!(ga.results.len(), gb.results.len());
        for (ra, rb) in ga.results.iter().zip(gb.results.iter()) {
            assert!(items_eq(ra, rb));
        }
    }
}

#[test]
fn equal_byte_starts_keep_input_order() {
    let records = vec![
        record("a.js", 10, 13, 1, "x", "first", None),
        record("a.js", 10, 13, 1, "x", "second", None),
    ];
    let groups = aggregate_results(records);
    assert_eq!(groups.len(), 1);
    assert_eq!(groups[0].results.len(), 2);
    assert_eq!(groups[0].results[0].formatted_lines[0].val, b("first"));
    assert_eq!(groups[0].results[1].formatted_lines[0].val, b("second"));
}

#[test]
fn no_records_yield_no_groups() {
    let groups = aggregate_results(Vec::new());
    assert_eq!(groups.len(), 0);
}

#[test]
fn diff_over_multiple_lines() {
    let rec = record(
        "a.js",
        8,
        11,
        2,
        "foo",
        "before()\ncall(foo)\nafter()",
        Some("bar"),
    );
    let item = convert_record(&rec);
    let unchanged: Vec<_> =
        item.formatted_lines.iter().filter(|l| l.sign.is_none()).collect();
    assert_eq!(unchanged.len(), 2);
    assert_eq!(unchanged[0].val, b("before()"));
    assert_eq!(unchanged[0].bln, Some(3));
    assert_eq!(unchanged[0].aln, Some(3));
    assert_eq!(unchanged[1].val, b("after()"));
    assert_eq!(unchanged[1].bln, Some(5));
    assert_eq!(unchanged[1].aln, Some(5));
    let removed: Vec<_> = item
        .formatted_lines
        .iter()
        .filter(|l| l.sign == Some(Sign::Minus))
        .collect();
    assert_eq!(removed.len(), 1);
    assert_eq!(removed[0].val, b("call(foo)"));
    assert_eq!(removed[0].bln, Some(4));
}

#[test]
fn empty_replacement_shows_deletion_inside_line() {
    let rec = record("a.js", 0, 3, 0, "foo", "call(foo)", Some(""));
    let item = convert_record(&rec);
    assert_eq!(item.replacement, b(""));
    let added: Vec<_> = item
        .formatted_lines
        .iter()
        .filter(|l| l.sign == Some(Sign::Plus))
        .collect();
    assert_eq!(added.len(), 1);
    assert_eq!(added[0].val, b("call()"));
}
