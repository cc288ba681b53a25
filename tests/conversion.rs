use xml2bracket::attrs::Attr;
use xml2bracket::compare::first_difference;
use xml2bracket::convert::{convert_events, convert_str, ConvertError};
use xml2bracket::escape::safe_trans;
use xml2bracket::paths::path_exists;
use xml2bracket::transducer::{Element, Event, Fault, Transducer};
use xml2bracket::xml::Tokenizer;

fn output_of(xml: &str) -> String {
    convert_str(xml).unwrap().output
}

fn unescape(e: &str) -> String {
    e.replace("\\\\}", "\\").replace("\\}", "}").replace("\\{", "{")
}

fn element(name: &str, attrs: &[(&str, &str)]) -> Element {
    Element {
        name: name.as_bytes().to_vec(),
        attrs: attrs
            .iter()
            .map(|(k, v)| Attr { key: k.as_bytes().to_vec(), value: v.as_bytes().to_vec() })
            .collect(),
    }
}

#[test]
fn escapes_each_reserved_character() {
    assert_eq!(safe_trans("{".to_string()), "\\{");
    assert_eq!(safe_trans("}".to_string()), "\\}");
    assert_eq!(safe_trans("\\".to_string()), "\\\\}");
    assert_eq!(safe_trans("a{b}c\\d".to_string()), "a\\{b\\}c\\\\}d");
    assert_eq!(safe_trans("plain ünïcode".to_string()), "plain ünïcode");
    assert_eq!(safe_trans(String::new()), "");
}

#[test]
fn escaping_round_trips_through_reversed_substitutions() {
    for s in ["{", "}", "{}", "}{", "a{{b}}c", "\\", "\\{", "\\}", "\\\\}", "x\\y{z}"] {
        assert_eq!(unescape(&safe_trans(s.to_string())), s);
    }
}

#[test]
fn attributes_are_ordered_by_key() {
    assert_eq!(output_of("<root><e b=\"2\" a=\"1\"></e></root>"), "{e{a{1}}{b{2}}}\n");
    assert_eq!(output_of("<root><e a=\"1\" b=\"2\"></e></root>"), "{e{a{1}}{b{2}}}\n");
}

#[test]
fn one_line_per_child_of_the_root() {
    let out = output_of("<root><a>1</a><b>2</b></root>");
    assert_eq!(out, "{a{1}}\n{b{2}}\n");
    assert_eq!(out.lines().collect::<Vec<_>>(), vec!["{a{1}}", "{b{2}}"]);
}

#[test]
fn empty_root_gives_no_line() {
    let t = convert_str("<root></root>").unwrap();
    assert_eq!(t.output, "");
    assert_eq!(t.records, 0);
    assert_eq!(t.depth, 0);
}

#[test]
fn self_closing_child_has_no_content() {
    assert_eq!(output_of("<root><a/></root>"), "{a}\n");
    assert_eq!(output_of("<root><a x=\"1\"/><b/></root>"), "{a{x{1}}}\n{b}\n");
}

#[test]
fn nested_elements_flatten_into_one_record() {
    let t = convert_str("<root><a k=\"v\"><b>t</b><c/>tail</a></root>").unwrap();
    assert_eq!(t.output, "{a{k{v}}{b{t}}{c}{tail}}\n");
    assert_eq!(t.records, 1);
    assert_eq!(t.depth, 0);
}

#[test]
fn reserved_characters_are_escaped_in_every_position() {
    assert_eq!(
        output_of("<root><a k=\"{v}\">x{y}\\</a></root>"),
        "{a{k{\\{v\\}}}{x\\{y\\}\\\\}}}\n"
    );
}

#[test]
fn text_entities_are_resolved_before_escaping() {
    assert_eq!(output_of("<root><a>x &amp; &lt;y&gt;</a></root>"), "{a{x & <y>}}\n");
}

#[test]
fn attribute_values_stay_raw() {
    assert_eq!(output_of("<root><a k=\"x&amp;y\"/></root>"), "{a{k{x&amp;y}}}\n");
}

#[test]
fn whitespace_text_is_trimmed() {
    assert_eq!(output_of("<root>\n  <a> hi </a>\n  <b/>\n</root>\n"), "{a{hi}}\n{b}\n");
}

#[test]
fn progress_is_reported_once_per_hundred_thousand_records() {
    let mut xml = String::from("<root>");
    for _ in 0..100_000 {
        xml.push_str("<a/>");
    }
    xml.push_str("</root>");
    let t = convert_str(&xml).unwrap();
    assert_eq!(t.records, 100_000);
    assert_eq!(t.progress, vec![100_000]);
}

#[test]
fn no_progress_below_the_milestone() {
    let mut xml = String::from("<root>");
    for _ in 0..99_999 {
        xml.push_str("<a/>");
    }
    xml.push_str("</root>");
    let t = convert_str(&xml).unwrap();
    assert_eq!(t.records, 99_999);
    assert!(t.progress.is_empty());
}

#[test]
fn malformed_document_is_a_parse_error() {
    match convert_str("<root><a></b></root>") {
        Err(ConvertError::Parse { .. }) => {}
        other => panic!("unexpected result: {:?}", other.map(|t| t.output)),
    }
}

#[test]
fn unknown_entity_is_an_unescape_error() {
    assert!(matches!(convert_str("<root><a>&bogus;</a></root>"), Err(ConvertError::Unescape)));
}

#[test]
fn text_outside_records_is_not_unescaped() {
    assert_eq!(output_of("<root>&bogus;<a/></root>"), "{a}\n");
}

#[test]
fn events_convert_in_order() {
    let evs = vec![
        Event::Start(element("root", &[])),
        Event::Start(element("r", &[("z", "1"), ("m", "2"), ("a", "3")])),
        Event::Text(b"hi".to_vec()),
        Event::Empty(element("e", &[])),
        Event::End,
        Event::Other,
        Event::End,
        Event::Eof,
    ];
    let t = convert_events(evs).unwrap();
    assert_eq!(t.output, "{r{a{3}}{m{2}}{z{1}}{hi}{e}}\n");
    assert_eq!(t.depth, 0);
    assert_eq!(t.records, 1);
}

#[test]
fn keys_order_by_raw_bytes() {
    let evs = vec![
        Event::Start(element("root", &[])),
        Event::Empty(element("r", &[("b", "1"), ("B", "2"), ("ab", "3"), ("a", "4")])),
        Event::End,
    ];
    let t = convert_events(evs).unwrap();
    assert_eq!(t.output, "{r{B{2}}{a{4}}{ab{3}}{b{1}}}\n");
}

#[test]
fn undecodable_name_is_a_decode_error() {
    let evs = vec![
        Event::Start(element("root", &[])),
        Event::Start(Element { name: vec![0xff, 0xfe], attrs: Vec::new() }),
    ];
    assert!(matches!(convert_events(evs), Err(ConvertError::Decode)));
}

#[test]
fn undecodable_text_is_an_unescape_error() {
    let mut t = Transducer::new();
    assert_eq!(t.step(Event::Start(element("root", &[]))), Ok(()));
    assert_eq!(t.step(Event::Start(element("a", &[]))), Ok(()));
    assert_eq!(t.step(Event::Text(vec![0xc3])), Err(Fault::Unescape));
}

#[test]
fn step_tracks_depth_and_records() {
    let mut t = Transducer::new();
    assert_eq!(t.step(Event::Start(element("root", &[]))), Ok(()));
    assert_eq!(t.depth, 1);
    assert_eq!(t.output, "");
    assert_eq!(t.step(Event::Start(element("a", &[]))), Ok(()));
    assert_eq!(t.depth, 2);
    assert_eq!(t.output, "{a");
    assert_eq!(t.step(Event::End), Ok(()));
    assert_eq!(t.depth, 1);
    assert_eq!(t.records, 1);
    assert_eq!(t.output, "{a}\n");
    assert_eq!(t.step(Event::End), Ok(()));
    assert_eq!(t.depth, 0);
    assert_eq!(t.records, 1);
}

#[test]
fn comparator_reports_first_divergent_line() {
    let a: Vec<String> = ["x", "y", "z"].iter().map(|s| s.to_string()).collect();
    let b: Vec<String> = ["x", "Y", "z"].iter().map(|s| s.to_string()).collect();
    assert_eq!(first_difference(&a, &b), Some(2));
    assert_eq!(a[1], "y");
    assert_eq!(b[1], "Y");
}

#[test]
fn comparator_ignores_trailing_lines() {
    let a: Vec<String> = ["x", "y"].iter().map(|s| s.to_string()).collect();
    let b: Vec<String> = ["x", "y", "extra"].iter().map(|s| s.to_string()).collect();
    assert_eq!(first_difference(&a, &b), None);
    assert_eq!(first_difference(&Vec::new(), &b), None);
}

#[test]
fn missing_path_is_reported() {
    assert_eq!(path_exists("/no/such/path/anywhere.xml").unwrap_err(), "File not found!");
    assert!(path_exists("/").is_ok());
}

#[test]
fn parse_error_carries_its_position() {
    match convert_str("<root><a>x</b></root>") {
        Err(ConvertError::Parse { position, .. }) => assert!(position > 0),
        other => panic!("unexpected result: {:?}", other.map(|t| t.output)),
    }
}

#[test]
fn malformed_attribute_is_a_parse_error() {
    assert!(matches!(
        convert_str("<root><a k=v></a></root>"),
        Err(ConvertError::Parse { .. })
    ));
}

#[test]
fn events_stream_record_by_record() {
    let mut tokens = Tokenizer::new("<root><a>1</a><b x=\"y\"/></root>");
    let mut t = Transducer::new();
    let mut lines = Vec::new();
    loop {
        let ev = tokens.next_event().unwrap();
        if matches!(ev, Event::Eof) {
            break;
        }
        t.step(ev).unwrap();
        let chunk = t.take_output();
        if chunk.ends_with('\n') {
            lines.push(chunk);
        } else if let Some(last) = lines.last_mut() {
            if !last.ends_with('\n') {
                last.push_str(&chunk);
            } else {
                lines.push(chunk);
            }
        } else {
            lines.push(chunk);
        }
        assert_eq!(t.output, "");
    }
    assert_eq!(lines.concat(), "{a{1}}\n{b{x{y}}}\n");
    assert_eq!(t.records, 2);
    assert_eq!(t.depth, 0);
}

#[test]
fn tokenizer_reports_malformed_input() {
    let mut tokens = Tokenizer::new("<root><a></b>");
    let mut seen_error = false;
    for _ in 0..10 {
        match tokens.next_event() {
            Err(ConvertError::Parse { .. }) => {
                seen_error = true;
                break;
            }
            Ok(Event::Eof) => break,
            _ => {}
        }
    }
    assert!(seen_error);
}

#[test]
fn documents_differing_in_attribute_order_convert_alike() {
    let d1 = "<root><a z=\"1\" b=\"2\"><c q=\"x\" p=\"y\"/></a><d m=\"3\" l=\"4\"/></root>";
    let d2 = "<root><a b=\"2\" z=\"1\"><c p=\"y\" q=\"x\"/></a><d l=\"4\" m=\"3\"/></root>";
    assert_eq!(output_of(d1), output_of(d2));
    assert_eq!(output_of(d1), "{a{b{2}}{z{1}}{c{p{y}}{q{x}}}}\n{d{l{4}}{m{3}}}\n");
}
