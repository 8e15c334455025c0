use vobject::{
    escape_chars, fold_line, parse_component, unescape_chars, unfold_lines, write_component,
    Component, Property,
};

fn names(c: &Component) -> Vec<String> {
    let mut v: Vec<String> = c.props.iter().map(|(k, _)| k.clone()).collect();
    v.sort();
    v
}

fn values(c: &Component, key: &str) -> Vec<String> {
    c.all_props(key).iter().map(|p| p.value_as_string()).collect()
}

#[test]
fn parse_single_property() {
    let c = parse_component("BEGIN:VCARD\r\nFN:Forrest Gump\r\nEND:VCARD\r\n").unwrap();
    assert_eq!(c.name, "VCARD");
    assert_eq!(c.all_props("FN").len(), 1);
    assert_eq!(c.single_prop("FN").unwrap().value_as_string(), "Forrest Gump");
    assert!(c.subcomponents.is_empty());
}

#[test]
fn parse_fails_on_empty_text() {
    assert!(parse_component("").is_err());
}

#[test]
fn parse_fails_without_end() {
    assert!(parse_component("BEGIN:VCARD\r\n").is_err());
}

#[test]
fn parse_fails_without_colon() {
    assert!(parse_component("BEGIN:VCARD\r\nFN\r\nEND:VCARD\r\n").is_err());
}

#[test]
fn parse_fails_on_mismatched_end() {
    assert!(parse_component("BEGIN:A\r\nFN:x\r\nEND:B\r\n").is_err());
}

#[test]
fn parse_fails_on_trailing_text() {
    assert!(parse_component("BEGIN:A\r\nEND:A\r\nFN:x\r\n").is_err());
}

#[test]
fn parse_fails_on_empty_name() {
    assert!(parse_component("BEGIN:\r\nEND:\r\n").is_err());
}

#[test]
fn parse_nested_components() {
    let c = parse_component("BEGIN:A\r\nBEGIN:B\r\nEND:B\r\nEND:A\r\n").unwrap();
    assert_eq!(c.name, "A");
    assert!(c.props.is_empty());
    assert_eq!(c.subcomponents.len(), 1);
    assert_eq!(c.subcomponents[0].name, "B");
    assert!(c.subcomponents[0].props.is_empty());
    assert!(c.subcomponents[0].subcomponents.is_empty());
}

#[test]
fn parse_sibling_subcomponents_and_lf_endings() {
    let text = "BEGIN:VCALENDAR\nVERSION:2.0\nBEGIN:VEVENT\nSUMMARY:one\nEND:VEVENT\n\
                BEGIN:VEVENT\nSUMMARY:two\nEND:VEVENT\nEND:VCALENDAR\n";
    let c = parse_component(text).unwrap();
    assert_eq!(c.subcomponents.len(), 2);
    assert_eq!(values(&c.subcomponents[0], "SUMMARY"), vec!["one".to_string()]);
    assert_eq!(values(&c.subcomponents[1], "SUMMARY"), vec!["two".to_string()]);
    assert_eq!(values(&c, "VERSION"), vec!["2.0".to_string()]);
}

#[test]
fn parse_group_and_params() {
    let text = "BEGIN:VCARD\r\nitem1.EMAIL;TYPE=work;PREF:a@b.c\r\n\
                TEL;LABEL=\"x: y; z\":123\r\nEND:VCARD\r\n";
    let c = parse_component(text).unwrap();
    let e = c.single_prop("EMAIL").unwrap();
    assert_eq!(e.prop_group, Some("item1".to_string()));
    assert_eq!(e.raw_value, "a@b.c");
    assert!(e.params.contains(&("TYPE".to_string(), "work".to_string())));
    assert!(e.params.contains(&("PREF".to_string(), "".to_string())));
    let t = c.single_prop("TEL").unwrap();
    assert_eq!(t.params, vec![("LABEL".to_string(), "x: y; z".to_string())]);
    assert_eq!(t.prop_group, None);
}

#[test]
fn parse_duplicate_param_keeps_last() {
    let c = parse_component("BEGIN:A\r\nX;K=1;K=2:v\r\nEND:A\r\n").unwrap();
    let p = c.single_prop("X").unwrap();
    assert_eq!(p.params, vec![("K".to_string(), "2".to_string())]);
}

#[test]
fn parse_unfolds_continuation_lines() {
    let c = parse_component("BEGIN:A\r\nNOTE:hello\r\n  world\r\nEND:A\r\n").unwrap();
    assert_eq!(c.single_prop("NOTE").unwrap().raw_value, "hello world");
}

#[test]
fn parse_keeps_value_escaped() {
    let c = parse_component("BEGIN:A\r\nNOTE:a\\, b\\; c\\nd\r\nEND:A\r\n").unwrap();
    let p = c.single_prop("NOTE").unwrap();
    assert_eq!(p.raw_value, "a\\, b\\; c\\nd");
    assert_eq!(p.value_as_string(), "a, b; c\nd");
}

#[test]
fn single_prop_absent_or_repeated() {
    let c = parse_component("BEGIN:A\r\nEMAIL:x\r\nEMAIL:y\r\nFN:z\r\nEND:A\r\n").unwrap();
    assert!(c.single_prop("TEL").is_none());
    assert!(c.single_prop("EMAIL").is_none());
    assert!(c.single_prop("FN").is_some());
    assert_eq!(values(&c, "EMAIL"), vec!["x".to_string(), "y".to_string()]);
}

#[test]
fn all_props_of_absent_key_is_empty() {
    let c = Component::new("A");
    assert!(c.all_props("X").is_empty());
}

#[test]
fn all_props_mut_creates_entry() {
    let mut c = Component::new("A");
    assert!(c.props.is_empty());
    c.all_props_mut("X");
    assert_eq!(c.props.len(), 1);
    assert!(c.all_props("X").is_empty());
    c.all_props_mut("X").push(Property::new("one"));
    c.all_props_mut("X").push(Property::new("two"));
    assert_eq!(c.props.len(), 1);
    assert_eq!(values(&c, "X"), vec!["one".to_string(), "two".to_string()]);
    assert!(c.single_prop("X").is_none());
}

#[test]
fn property_new_stores_escaped_value() {
    let p = Property::new("a,b");
    assert_eq!(p.raw_value, "a\\,b");
    assert_eq!(p.value_as_string(), "a,b");
    assert!(p.params.is_empty());
    assert!(p.prop_group.is_none());
}

#[test]
fn escape_exact_values() {
    assert_eq!(escape_chars("a;b,c\\d"), "a\\;b\\,c\\\\d");
    assert_eq!(escape_chars("x\r\ny\nz"), "x\\ny\\nz");
    assert_eq!(escape_chars("x\\Ny"), "x\\ny");
    assert_eq!(escape_chars(""), "");
}

#[test]
fn unescape_exact_values() {
    assert_eq!(unescape_chars("a\\;b\\,c\\\\d"), "a;b,c\\d");
    assert_eq!(unescape_chars("x\\ny\\Nz"), "x\ny\nz");
    assert_eq!(unescape_chars("x\r\ny"), "x\ny");
    assert_eq!(unescape_chars("plain"), "plain");
}

#[test]
fn escape_round_trip_with_separators_and_newline() {
    let s = "Main St. 1; Springfield, USA\nsecond line";
    assert_eq!(unescape_chars(&escape_chars(s)), s);
}

#[test]
fn escape_round_trip_plain_text() {
    for s in ["", "Forrest Gump", "a\\b", "x;y,z", "C:\\\\dir\\file"] {
        assert_eq!(unescape_chars(&escape_chars(s)), s);
    }
}

#[test]
fn fold_exact_values() {
    let s: String = "x".repeat(80);
    let expected = format!("{}\r\n {}", "x".repeat(75), "x".repeat(5));
    assert_eq!(fold_line(&s), expected);
    assert_eq!(fold_line("short"), "short");
    assert_eq!(fold_line(&"y".repeat(74)), "y".repeat(74));
    assert_eq!(fold_line(&"y".repeat(75)), format!("{}\r\n ", "y".repeat(75)));
    let long: String = "z".repeat(160);
    let expected = format!("{}\r\n {}\r\n {}", "z".repeat(75), "z".repeat(75), "z".repeat(10));
    assert_eq!(fold_line(&long), expected);
}

#[test]
fn fold_counts_characters_not_bytes() {
    let s: String = "ä".repeat(76);
    assert_eq!(fold_line(&s), format!("{}\r\n {}", "ä".repeat(75), "ä"));
}

#[test]
fn fold_segments_are_short() {
    let s: String = "abcdefghij".repeat(40);
    let folded = fold_line(&s);
    for seg in folded.split("\r\n") {
        assert!(seg.chars().count() <= 76);
    }
}

#[test]
fn unfold_exact_values() {
    assert_eq!(unfold_lines("ab\r\n c"), "abc");
    assert_eq!(unfold_lines("ab\r\n\tc"), "abc");
    assert_eq!(unfold_lines("ab\n c\n\td"), "abcd");
    assert_eq!(unfold_lines("ab\r c\r\td"), "abcd");
    assert_eq!(unfold_lines("ab\r\nc"), "ab\r\nc");
    assert_eq!(unfold_lines("ab\r\n  c"), "ab c");
}

#[test]
fn unfold_undoes_fold() {
    let s: String = "The quick brown fox jumps over the lazy dog. ".repeat(5);
    assert_eq!(unfold_lines(&fold_line(&s)), s);
}

#[test]
fn write_exact_text() {
    let mut c = Component::new("VCARD");
    let mut p = Property::new("Forrest Gump");
    p.prop_group = Some("item1".to_string());
    p.params.push(("TYPE".to_string(), "x".to_string()));
    c.all_props_mut("FN").push(p);
    let mut sub = Component::new("SUB");
    sub.all_props_mut("NOTE").push(Property::new("a,b"));
    c.subcomponents.push(sub);
    assert_eq!(
        write_component(&c),
        "BEGIN:VCARD\r\nitem1.FN;TYPE=x:Forrest Gump\r\nBEGIN:SUB\r\nNOTE:a\\,b\r\nEND:SUB\r\nEND:VCARD\r\n"
    );
}

#[test]
fn write_folds_long_values() {
    let mut c = Component::new("A");
    c.all_props_mut("NOTE").push(Property::new(&"n".repeat(80)));
    let expected = format!("BEGIN:A\r\nNOTE:{}\r\n {}\r\nEND:A\r\n", "n".repeat(75), "n".repeat(5));
    assert_eq!(write_component(&c), expected);
}

#[test]
fn write_then_parse_round_trip() {
    let text = "BEGIN:VCALENDAR\r\nVERSION:2.0\r\nX-A;P=1:a\\, b\r\nX-A:second\r\n\
                BEGIN:VEVENT\r\nSUMMARY:long value that certainly goes beyond the seventy-five character limit of a line\r\n\
                END:VEVENT\r\nBEGIN:VTODO\r\ng.NOTE:x\r\nEND:VTODO\r\nEND:VCALENDAR\r\n";
    let first = parse_component(text).unwrap();
    let second = parse_component(&write_component(&first)).unwrap();
    assert_eq!(first.name, second.name);
    assert_eq!(names(&first), names(&second));
    for k in names(&first) {
        assert_eq!(values(&first, &k), values(&second, &k));
    }
    assert_eq!(first.subcomponents.len(), second.subcomponents.len());
    for (a, b) in first.subcomponents.iter().zip(second.subcomponents.iter()) {
        assert_eq!(a.name, b.name);
        assert_eq!(names(a), names(b));
        for k in names(a) {
            assert_eq!(values(a, &k), values(b, &k));
        }
    }
}

#[test]
fn from_str_drops_the_message() {
    assert!(Component::from_str("BEGIN:A\r\nEND:A\r\n").is_some());
    assert!(Component::from_str("nothing").is_none());
}

#[test]
fn escape_reads_backslash_n_as_line_break() {
    assert_eq!(unescape_chars(&escape_chars("x\\ny")), "x\\\ny");
    assert_eq!(unescape_chars(&escape_chars("x\\Ny")), "x\ny");
}

#[test]
fn quoted_param_with_colon_is_written_unquoted() {
    let c = parse_component("BEGIN:A\r\nTEL;LABEL=\"x:y\":1\r\nEND:A\r\n").unwrap();
    let text = write_component(&c);
    assert_eq!(text, "BEGIN:A\r\nTEL;LABEL=x:y:1\r\nEND:A\r\n");
    let again = parse_component(&text).unwrap();
    let t = again.single_prop("TEL").unwrap();
    assert_eq!(t.params, vec![("LABEL".to_string(), "x".to_string())]);
    assert_eq!(t.raw_value, "y:1");
}

#[test]
fn escape_round_trip_with_control_characters() {
    for s in ["a\nb;c,d", "\n\n", "tab\there", "cr\ronly", "x\\\ny", "end\\"] {
        assert_eq!(unescape_chars(&escape_chars(s)), s);
    }
}

#[test]
fn parse_keeps_comma_list_and_quoted_value() {
    let text = "BEGIN:VCARD\r\nitem1.EMAIL;TYPE=HOME,WORK;X=\"q;r\":a@b\r\nEND:VCARD\r\n";
    let c = parse_component(text).unwrap();
    let p = c.single_prop("EMAIL").unwrap();
    assert_eq!(p.prop_group, Some("item1".to_string()));
    assert_eq!(
        p.params,
        vec![("TYPE".to_string(), "HOME,WORK".to_string()), ("X".to_string(), "q;r".to_string())]
    );
    assert_eq!(p.raw_value, "a@b");
}

#[test]
fn parse_unfolds_before_storing() {
    let c = parse_component("BEGIN:VCARD\r\nFN:Forr\r\n est Gump\r\nEND:VCARD\r\n").unwrap();
    assert_eq!(c.single_prop("FN").unwrap().raw_value, "Forrest Gump");
}
