use vellum::xlsx::contains_ci;

#[test]
fn ci() {
    assert!(contains_ci("Hello World", "world"));
    assert!(contains_ci("ABC", "abc"));
    assert!(!contains_ci("abc", "xyz"));
    assert!(contains_ci("anything", ""));
}

use vellum::xlsx::{col_index, load_step, parse_shared_strings, read_workbook_sheets, LoadStep, SheetRowReader, StreamBook};
use vellum::xml::{XmlEvent, XmlTag};

const WORKBOOK: &str = r#"<workbook><sheets>
<sheet name="First" sheetId="1" r:id="rId1"/>
<sheet name="Orphan" sheetId="2" r:id="rId9"/>
<sheet name="Second" sheetId="3" r:id="rId2"/>
</sheets></workbook>"#;

const RELS: &str = r#"<Relationships>
<Relationship Id="rId1" Target="worksheets/sheet1.xml"/>
<Relationship Id="rId2" Target="/xl/worksheets/sheet2.xml"/>
</Relationships>"#;

const SST: &str = r#"<sst><si><t>alpha</t></si><si><r><t>be</t></r><r><t>ta</t></r></si></sst>"#;

fn tag(name: &str, attrs: &[(&str, &str)], empty: bool) -> XmlEvent {
    XmlEvent::Tag(
        XmlTag {
            name: name.as_bytes().to_vec(),
            attrs: attrs.iter().map(|(k, v)| (k.as_bytes().to_vec(), v.as_bytes().to_vec())).collect(),
        },
        empty,
    )
}

fn end(name: &str) -> XmlEvent {
    XmlEvent::End(name.as_bytes().to_vec())
}

fn text(t: &str) -> XmlEvent {
    XmlEvent::Text(t.to_string())
}

fn rows_of(events: Vec<XmlEvent>, sst: &Vec<String>) -> Vec<Vec<String>> {
    let mut rr = SheetRowReader::new();
    let mut out = Vec::new();
    for ev in events {
        assert!(rr.accepts(&ev));
        if let Some(row) = rr.feed(&ev, sst) {
            out.push(row);
        }
    }
    out
}

#[test]
fn column_letters() {
    assert_eq!(col_index(b"A1"), 0);
    assert_eq!(col_index(b"c7"), 2);
    assert_eq!(col_index(b"AA3"), 26);
    assert_eq!(col_index(b"12"), 0);
}

#[test]
fn workbook_sheets_in_order() {
    let s = read_workbook_sheets(Some(WORKBOOK), Some(RELS)).unwrap();
    assert_eq!(
        s,
        vec![
            ("First".to_string(), "xl/worksheets/sheet1.xml".to_string()),
            ("Second".to_string(), "xl/worksheets/sheet2.xml".to_string()),
        ]
    );
    assert_eq!(read_workbook_sheets(None, Some(RELS)).unwrap_err(), "missing xl/workbook.xml (not an xlsx?)");
    assert_eq!(read_workbook_sheets(Some(WORKBOOK), None).unwrap_err(), "no worksheets found");
}

#[test]
fn shared_strings_join_runs() {
    assert_eq!(parse_shared_strings(SST), vec!["alpha".to_string(), "beta".to_string()]);
}

#[test]
fn rows_are_assembled() {
    let sst = vec!["x".to_string()];
    let events = vec![
        tag("sheetData", &[], false),
        tag("row", &[("r", "1")], false),
        tag("c", &[("r", "A1"), ("t", "s")], false),
        tag("v", &[], false),
        text("0"),
        end("v"),
        end("c"),
        tag("c", &[("r", "C1")], false),
        tag("v", &[], false),
        text("42"),
        end("v"),
        end("c"),
        end("row"),
        tag("row", &[("r", "2")], false),
        tag("c", &[("t", "b")], false),
        tag("v", &[], false),
        text(" 1 "),
        end("v"),
        end("c"),
        tag("c", &[("t", "inlineStr")], false),
        tag("is", &[], false),
        tag("t", &[], false),
        text("hi"),
        end("t"),
        end("is"),
        end("c"),
        tag("c", &[("t", "s")], false),
        tag("v", &[], false),
        text("7"),
        end("v"),
        end("c"),
        end("row"),
        end("sheetData"),
    ];
    let rows = rows_of(events, &sst);
    assert_eq!(
        rows,
        vec![
            vec!["x".to_string(), String::new(), "42".to_string()],
            vec!["TRUE".to_string(), "hi".to_string(), String::new()],
        ]
    );
}

#[test]
fn stream_book_loads_finds_and_windows() {
    let mut b = StreamBook::open_parts("w.xlsx".to_string(), Some(WORKBOOK), Some(RELS), Some(SST)).ok().unwrap();
    assert_eq!(b.names(), vec!["First".to_string(), "Second".to_string()]);
    assert_eq!(b.selected(), 0);
    assert_eq!(b.sheet_path(), "xl/worksheets/sheet1.xml");
    let g = b.generation();
    assert!(!b.push_row(g, vec!["Apple".to_string(), "pie".to_string()]));
    assert!(!b.push_row(g, vec!["crab".to_string()]));
    assert!(b.push_row(g.wrapping_add(1), vec!["stale".to_string()]));
    b.finish(g);
    assert_eq!(b.dims(), (2, 2, true, false));
    assert_eq!(b.find("AP"), vec![(0, 0)]);
    assert_eq!(b.find("a"), vec![(0, 0), (1, 0)]);
    assert_eq!(b.window(0, 5, 1, 3), vec![vec!["pie".to_string(), String::new()], vec![String::new(), String::new()]]);
    assert!(b.select(1));
    assert_eq!(b.dims(), (0, 0, false, false));
    assert!(!b.select(1));
    assert!(!b.select(5));
    assert_eq!(b.generation(), g.wrapping_add(1));
}

#[test]
fn rows_after_finish_are_refused() {
    let mut b = StreamBook::open_parts("w.xlsx".to_string(), Some(WORKBOOK), Some(RELS), None).ok().unwrap();
    let g = b.generation();
    assert!(!b.push_row(g, vec!["a".to_string()]));
    b.finish(g);
    assert!(b.push_row(g, vec!["late".to_string(), "row".to_string()]));
    assert_eq!(b.dims(), (1, 1, true, false));
}

#[test]
fn loader_steps_deliver_rows_and_finish() {
    let mut b = StreamBook::open_parts("w.xlsx".to_string(), Some(WORKBOOK), Some(RELS), Some(SST)).ok().unwrap();
    let g = b.generation();
    let sst = b.shared_strings().clone();
    let mut reader = SheetRowReader::new();
    let events = vec![
        tag("row", &[], false),
        tag("c", &[("r", "B1"), ("t", "s")], false),
        tag("v", &[], false),
        text("1"),
        end("v"),
        end("c"),
    ];
    for ev in &events {
        assert_eq!(load_step(&mut reader, ev, &sst, &mut b, g), LoadStep::Continue);
        assert_eq!(b.dims(), (0, 0, false, false));
    }
    assert_eq!(load_step(&mut reader, &end("row"), &sst, &mut b, g), LoadStep::Continue);
    assert_eq!(b.dims(), (1, 2, false, false));
    assert_eq!(b.window(0, 1, 0, 2), vec![vec![String::new(), "beta".to_string()]]);
    assert_eq!(load_step(&mut reader, &XmlEvent::Eof, &sst, &mut b, g), LoadStep::Stop);
    assert_eq!(b.dims(), (1, 2, true, false));
}

#[test]
fn find_ignores_case_and_narrows() {
    let mut b = StreamBook::open_parts("w.xlsx".to_string(), Some(WORKBOOK), Some(RELS), None).ok().unwrap();
    let g = b.generation();
    assert!(!b.push_row(g, vec!["Apple".to_string(), "pie".to_string()]));
    assert!(!b.push_row(g, vec!["grape".to_string()]));
    b.finish(g);
    assert_eq!(b.find("ap"), b.find("AP"));
    assert_eq!(b.find("ap"), vec![(0, 0), (1, 0)]);
    assert_eq!(b.find("app"), vec![(0, 0)]);
    assert_eq!(b.find(""), vec![(0, 0), (0, 1), (1, 0)]);
}
