use grex::document::{Document, XmlNode};
use grex::grex::{get_text_content, grex_document};
use grex::line::{parse_grex_line, split_lines};
use grex::text::{
    IntErrorKind, escape_value, escape_xml_entities, is_blank_str, is_whitespace, push_decimal,
    unescape_value,
};
use grex::ungrex::{PathCache, UngrexError, UngrexOutcome, get_or_create_node, ungrex};
use grex::xpath::{XPathError, parse_xpath};

fn built(input: &str) -> Document {
    match ungrex(input) {
        UngrexOutcome::Built(d) => d,
        other => panic!("unexpected outcome: {:?}", other),
    }
}

fn regrex(input: &str) -> Vec<String> {
    grex_document(&built(input))
}

#[test]
fn escape_value_examples() {
    assert_eq!(escape_value("a\\b\nc\td"), "a\\\\b\\nc\\td");
    assert_eq!(escape_value("plain"), "plain");
    assert_eq!(escape_value(""), "");
    assert_eq!(escape_value("\r"), "\r");
}

#[test]
fn unescape_value_examples() {
    assert_eq!(unescape_value("a\\\\b\\nc\\td"), "a\\b\nc\td");
    assert_eq!(unescape_value("\\x"), "\\x");
    assert_eq!(unescape_value("end\\"), "end\\");
    assert_eq!(unescape_value("\\\\n"), "\\n");
}

#[test]
fn unescape_undoes_escape() {
    for s in ["", "x", "\\", "\\n", "a\nb\tc\\", "ÈªëÈ£éÈõ∑ \\t", "\n\n"] {
        assert_eq!(unescape_value(&escape_value(s)), s);
        assert!(!escape_value(s).contains('\n'));
    }
}

#[test]
fn escape_xml_entities_examples() {
    assert_eq!(escape_xml_entities("a<b>&\"c'"), "a&lt;b&gt;&amp;&quot;c&apos;");
    assert_eq!(escape_xml_entities("none"), "none");
}

#[test]
fn whitespace_and_blank() {
    assert!(is_whitespace(' '));
    assert!(is_whitespace('\u{3000}'));
    assert!(is_whitespace('\u{85}'));
    assert!(!is_whitespace('x'));
    assert!(!is_whitespace('\u{200b}'));
    assert!(is_blank_str(""));
    assert!(is_blank_str(" \n\t\r\u{a0}"));
    assert!(!is_blank_str("  x "));
}

#[test]
fn decimal_numbers() {
    let mut s = String::from("n=");
    push_decimal(&mut s, 0);
    assert_eq!(s, "n=0");
    let mut s = String::new();
    push_decimal(&mut s, 1204);
    assert_eq!(s, "1204");
    let mut s = String::new();
    push_decimal(&mut s, usize::MAX);
    assert_eq!(s, usize::MAX.to_string());
}

#[test]
fn parse_grex_line_examples() {
    assert_eq!(
        parse_grex_line("/a/@b = x = y\\n"),
        Some(("/a/@b".to_string(), "x = y\n".to_string()))
    );
    assert_eq!(parse_grex_line("/a/@b =x"), None);
    assert_eq!(parse_grex_line("/a/@b = "), Some(("/a/@b".to_string(), String::new())));
}

#[test]
fn split_lines_examples() {
    assert_eq!(split_lines(""), Vec::<String>::new());
    assert_eq!(split_lines("a\nb"), vec!["a", "b"]);
    assert_eq!(split_lines("a\r\nb\n"), vec!["a", "b"]);
    assert_eq!(split_lines("\n\nx\r"), vec!["", "", "x\r"]);
}

#[test]
fn parse_xpath_examples() {
    let parts = parse_xpath("/a/b[2]/c[+7]/d[3x").unwrap();
    let got: Vec<(String, Option<usize>)> = parts.into_iter().map(|p| (p.name, p.index)).collect();
    assert_eq!(
        got,
        vec![
            ("a".to_string(), None),
            ("b".to_string(), Some(2)),
            ("c".to_string(), Some(7)),
            ("d".to_string(), Some(3)),
        ]
    );
    assert!(parse_xpath("/").unwrap().is_empty());
    let parts = parse_xpath("/a/").unwrap();
    assert_eq!(parts.len(), 2);
    assert_eq!(parts[1].name, "");
}

#[test]
fn parse_xpath_errors() {
    match parse_xpath("a/b") {
        Err(XPathError::MissingLeadingSlash { path }) => assert_eq!(path, "a/b"),
        other => panic!("{:?}", other),
    }
    match parse_xpath("/a[x]") {
        Err(XPathError::InvalidIndex { part, kind }) => {
            assert_eq!(part, "a[x]");
            assert_eq!(kind, IntErrorKind::InvalidDigit);
        }
        other => panic!("{:?}", other),
    }
    match parse_xpath("/a[]") {
        Err(XPathError::InvalidIndex { kind, .. }) => assert_eq!(kind, IntErrorKind::Empty),
        other => panic!("{:?}", other),
    }
    match parse_xpath("/a[99999999999999999999999]") {
        Err(XPathError::InvalidIndex { kind, .. }) => assert_eq!(kind, IntErrorKind::PosOverflow),
        other => panic!("{:?}", other),
    }
    match parse_xpath("/a[+]") {
        Err(XPathError::InvalidIndex { kind, .. }) => assert_eq!(kind, IntErrorKind::InvalidDigit),
        other => panic!("{:?}", other),
    }
}

#[test]
fn grex_sibling_indices_and_text() {
    let mut d = Document::new();
    let r = d.create_root("r");
    let a1 = d.append_element(r, "a");
    d.append_text(a1, "one");
    let b = d.append_element(r, "b");
    d.set_attribute(b, "z", "2");
    d.set_attribute(b, "y", "1");
    let a2 = d.append_element(r, "a");
    d.append_text(a2, "tw");
    d.append_other(a2);
    d.append_text(a2, "o\nx");
    assert_eq!(get_text_content(&d, a2), "tw" .to_string() + "o\nx");
    assert_eq!(
        grex_document(&d),
        vec![
            "/r/a[1]/text() = one",
            "/r/b/@y = 1",
            "/r/b/@z = 2",
            "/r/a[2]/text() = two\\nx",
        ]
    );
}

#[test]
fn grex_of_empty_document() {
    assert!(grex_document(&Document::new()).is_empty());
}

#[test]
fn text_is_ignored_beside_element_children() {
    let mut d = Document::new();
    let r = d.create_root("r");
    d.append_text(r, "hidden");
    let c = d.append_element(r, "c");
    d.set_attribute(c, "k", "v");
    assert_eq!(grex_document(&d), vec!["/r/c/@k = v"]);
}

#[test]
fn ungrex_creates_missing_siblings() {
    let d = built("/r/a[3]/@x = 1\n");
    let lines = grex_document(&d);
    assert_eq!(lines, vec!["/r/a[3]/@x = 1"]);
    let count = d
        .nodes
        .iter()
        .filter(|n| matches!(n, XmlNode::Element(e) if e.name == "a"))
        .count();
    assert_eq!(count, 3);
}

#[test]
fn ungrex_sets_text_and_attributes() {
    assert_eq!(
        regrex("/r/@b = 2\n/r/@a = 1\n/r/@b = 3\n/r/c/text() = hi\\tthere\n\n   \n"),
        vec!["/r/@a = 1", "/r/@b = 3", "/r/c/text() = hi\\tthere"]
    );
}

#[test]
fn ungrex_root_takes_first_name() {
    // every path starts at the root, whatever name its first step gives
    assert_eq!(regrex("/a/@x = 1\n/b/@y = 2\n"), vec!["/a/@x = 1", "/a/@y = 2"]);
}

#[test]
fn ungrex_of_empty_input() {
    let d = built("");
    assert!(d.root.is_none());
    assert!(d.nodes.is_empty());
}

#[test]
fn ungrex_errors() {
    match ungrex("/r/@a = 1\nno separator\n") {
        UngrexOutcome::Failed { line, error: UngrexError::MalformedLine } => assert_eq!(line, 2),
        other => panic!("{:?}", other),
    }
    match ungrex("/r/x = 1\n") {
        UngrexOutcome::Failed { line, error: UngrexError::InvalidXPath } => assert_eq!(line, 1),
        other => panic!("{:?}", other),
    }
    match ungrex("r/@a = 1\n") {
        UngrexOutcome::Failed { line: 1, error: UngrexError::MissingLeadingSlash { path } } => {
            assert_eq!(path, "r")
        }
        other => panic!("{:?}", other),
    }
    match ungrex("/r/a[one]/@a = 1\n") {
        UngrexOutcome::Failed { line: 1, error: UngrexError::InvalidIndex { part, kind } } => {
            assert_eq!(part, "a[one]");
            assert_eq!(kind, IntErrorKind::InvalidDigit);
        }
        other => panic!("{:?}", other),
    }
    match ungrex("//text() = 1\n") {
        UngrexOutcome::Failed { line: 1, error: UngrexError::EmptyPath } => {}
        other => panic!("{:?}", other),
    }
}

#[test]
fn ungrex_aborts_where_a_path_cannot_be_resolved() {
    match ungrex("/r/@a = 1\n/r/a[0]/@b = 2\n") {
        UngrexOutcome::Aborted { line } => assert_eq!(line, 2),
        other => panic!("{:?}", other),
    }
    match ungrex("/r/@a = 1\n//text() = x\n") {
        UngrexOutcome::Aborted { line } => assert_eq!(line, 2),
        other => panic!("{:?}", other),
    }
    match ungrex("/r/a[/@b = 2\n") {
        UngrexOutcome::Aborted { line } => assert_eq!(line, 1),
        other => panic!("{:?}", other),
    }
    match ungrex("/r/a[1é/@b = 2\n") {
        UngrexOutcome::Aborted { line } => assert_eq!(line, 1),
        other => panic!("{:?}", other),
    }
}

#[test]
fn ungrex_root_index_zero_is_ignored() {
    assert_eq!(regrex("/r[0]/@a = 1\n"), vec!["/r/@a = 1"]);
}

#[test]
fn setting_text_keeps_element_children() {
    assert_eq!(
        regrex("/r/a/@x = 1\n/r/text() = t\n/r/b/@y = 2\n"),
        vec!["/r/a/@x = 1", "/r/b/@y = 2"]
    );
    assert_eq!(regrex("/r/a/@x = 1\n/r/text() = t\n"), vec!["/r/a/@x = 1"]);
    let d = built("/r/a/@x = 1\n/r/text() = t\n/r/a/@z = 2\n/r/text() = u\n");
    let r = d.root.unwrap();
    assert_eq!(get_text_content(&d, r), "u");
    assert_eq!(grex_document(&d), vec!["/r/a/@x = 1", "/r/a/@z = 2"]);
}

fn as_text(lines: &[String]) -> String {
    let mut s = String::new();
    for l in lines {
        s.push_str(l);
        s.push('\n');
    }
    s
}

#[test]
fn empty_elements_keep_sibling_indices() {
    let mut d = Document::new();
    let r = d.create_root("r");
    d.append_element(r, "br");
    let a1 = d.append_element(r, "a");
    d.set_attribute(a1, "x", "1");
    d.append_element(r, "a");
    let a3 = d.append_element(r, "a");
    d.set_attribute(a3, "y", "2");
    let c = d.append_element(r, "c");
    d.append_element(c, "d");
    let lines = grex_document(&d);
    assert_eq!(lines, vec!["/r/a[1]/@x = 1", "/r/a[3]/@y = 2"]);
    assert_eq!(regrex(&as_text(&lines)), lines);
}

#[test]
fn leading_empty_sibling_is_rebuilt() {
    let mut d = Document::new();
    let r = d.create_root("r");
    d.append_element(r, "a");
    let a2 = d.append_element(r, "a");
    d.set_attribute(a2, "x", "1");
    let lines = grex_document(&d);
    assert_eq!(lines, vec!["/r/a[2]/@x = 1"]);
    assert_eq!(regrex(&as_text(&lines)), lines);
}

#[test]
fn trailing_empty_sibling_is_lost() {
    let mut d = Document::new();
    let r = d.create_root("r");
    let a1 = d.append_element(r, "a");
    d.set_attribute(a1, "x", "1");
    d.append_element(r, "a");
    let lines = grex_document(&d);
    assert_eq!(lines, vec!["/r/a[1]/@x = 1"]);
    assert_eq!(regrex(&as_text(&lines)), vec!["/r/a/@x = 1"]);
}

#[test]
fn escaped_length_counts_escapes() {
    for s in ["", "a\\b\nc\td", "plain", "\\\\\n"] {
        let extra = s.chars().filter(|c| *c == '\\' || *c == '\n' || *c == '\t').count();
        assert_eq!(escape_value(s).chars().count(), s.chars().count() + extra);
    }
}

#[test]
fn ungrex_appends_missing_siblings_after_existing_ones() {
    let d = built("/r/b/@k = 1\n/r/a/@x = 1\n/r/a[4]/@y = 2\n");
    assert_eq!(
        grex_document(&d),
        vec!["/r/b/@k = 1", "/r/a[1]/@x = 1", "/r/a[4]/@y = 2"]
    );
}

#[test]
fn failing_line_is_numbered() {
    match ungrex("/r/@a = 1\n\n/r/@b = 2\n/r/b\n") {
        UngrexOutcome::Failed { line, error: UngrexError::MalformedLine } => assert_eq!(line, 4),
        other => panic!("{:?}", other),
    }
}

#[test]
fn written_paths_read_back() {
    let parts = parse_xpath("/r[3]/a b/c[0]//d").unwrap();
    let got: Vec<(String, Option<usize>)> = parts.into_iter().map(|p| (p.name, p.index)).collect();
    assert_eq!(
        got,
        vec![
            ("r".to_string(), Some(3)),
            ("a b".to_string(), None),
            ("c".to_string(), Some(0)),
            ("".to_string(), None),
            ("d".to_string(), None),
        ]
    );
}

#[test]
fn cached_paths_name_their_nodes() {
    let mut d = Document::new();
    let mut cache = PathCache::new();
    let a2 = get_or_create_node(&mut d, "/r/a[2]", &mut cache).unwrap();
    let a1 = get_or_create_node(&mut d, "/r/a", &mut cache).unwrap();
    assert_ne!(a1, a2);
    assert_eq!(get_or_create_node(&mut d, "/r/a[1]", &mut cache).unwrap(), a1);
    assert_eq!(get_or_create_node(&mut d, "/r/a[2]", &mut cache).unwrap(), a2);
    let b = get_or_create_node(&mut d, "/r/a[2]/b", &mut cache).unwrap();
    assert_eq!(get_or_create_node(&mut d, "/r/a[2]/b[1]", &mut cache).unwrap(), b);
    let before = d.nodes.len();
    match get_or_create_node(&mut d, "/r/a[x]", &mut cache) {
        Err(UngrexError::InvalidIndex { .. }) => {}
        other => panic!("{:?}", other),
    }
    assert_eq!(d.nodes.len(), before);
}

#[test]
fn last_write_wins_when_texts_merge() {
    let d = built("/r/a/@x = 1\n/r/text() = t\n/r/a[1]/@x = 2\n/r/b/@y = 3\n/r/a/@z = 4\n");
    let r = d.root.unwrap();
    assert_eq!(get_text_content(&d, r), "t");
    assert_eq!(grex_document(&d), vec!["/r/a/@x = 2", "/r/a/@z = 4", "/r/b/@y = 3"]);
}
