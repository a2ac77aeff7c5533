use vobject::component::write_component;
use vobject::error::VObjectError;
use vobject::parse_component;
use vobject::vcard::Vcard;
use vobject::Component;
use vobject::Property;
use vobject::escape_chars;
use vobject::unescape_chars;

#[test]
fn property_line_with_param_and_escape() {
    let text = "BEGIN:VCARD\r\nFN;TYPE=work:John\\, Doe\r\nEND:VCARD\r\n";
    let c = parse_component(text).unwrap();
    let p = c.get_only("FN").expect("FN present");
    assert_eq!(p.name, "FN");
    assert_eq!(p.params.len(), 1);
    assert_eq!(p.params[0].key, "TYPE");
    assert_eq!(p.params[0].value, "work");
    assert_eq!(p.raw_value, "John, Doe");
}

#[test]
fn simple_vcard_parses_and_builds() {
    let text = "BEGIN:VCARD\r\nFN:Jane Doe\r\nEND:VCARD\r\n";
    let c = parse_component(text).unwrap();
    assert_eq!(c.name, "VCARD");
    assert_eq!(c.props.len(), 1);
    assert_eq!(c.props[0].name, "FN");
    assert_eq!(c.props[0].raw_value, "Jane Doe");
    assert!(c.subcomponents.is_empty());

    let v = Vcard::build(text).unwrap();
    assert_eq!(v.0.name, "VCARD");

    let cal = "BEGIN:VCALENDAR\r\nEND:VCALENDAR\r\n";
    match Vcard::build(cal) {
        Err(VObjectError::NotAVCard(s)) => assert_eq!(s, cal),
        other => panic!("expected NotAVCard, got {:?}", other),
    }
}

#[test]
fn continuation_line_unfolds() {
    // the single leading whitespace character is the fold marker and is
    // stripped; a space that should survive stands after the marker
    let text = "BEGIN:A\r\nNOTE:Hello\r\n World\r\nEND:A\r\n";
    let c = parse_component(text).unwrap();
    assert_eq!(c.get_only("NOTE").unwrap().raw_value, "HelloWorld");

    let spaced = "BEGIN:A\r\nNOTE:Hello\r\n  World\r\nEND:A\r\n";
    let c2 = parse_component(spaced).unwrap();
    assert_eq!(c2.get_only("NOTE").unwrap().raw_value, "Hello World");
}

#[test]
fn tab_continuation_unfolds() {
    let text = "BEGIN:A\r\nNOTE:Hello\r\n\tWorld\r\nEND:A\r\n";
    let c = parse_component(text).unwrap();
    assert_eq!(c.get_only("NOTE").unwrap().raw_value, "HelloWorld");
}

#[test]
fn duplicate_properties_keep_order() {
    let text = "BEGIN:VCARD\r\nEMAIL:a@x\r\nEMAIL:b@x\r\nEMAIL:c@x\r\nEND:VCARD\r\n";
    let c = parse_component(text).unwrap();
    let all = c.get_all("EMAIL");
    assert_eq!(all.len(), 3);
    assert_eq!(all[0].raw_value, "a@x");
    assert_eq!(all[1].raw_value, "b@x");
    assert_eq!(all[2].raw_value, "c@x");
    assert_eq!(c.get_only("EMAIL").unwrap().raw_value, "a@x");

    let v = Vcard::build(text).unwrap();
    let emails = v.email();
    assert_eq!(emails.len(), 3);
    assert_eq!(emails[0].raw(), "a@x");
    assert_eq!(emails[1].raw(), "b@x");
    assert_eq!(emails[2].raw(), "c@x");
}

#[test]
fn unterminated_component_rejected() {
    let text = "BEGIN:X\r\nFN:a\r\n";
    match parse_component(text) {
        Err(VObjectError::UnterminatedComponent(name)) => assert_eq!(name, "X"),
        other => panic!("expected UnterminatedComponent, got {:?}", other),
    }
}

#[test]
fn mismatched_end_tag_rejected() {
    let text = "BEGIN:X\r\nEND:Y\r\n";
    match parse_component(text) {
        Err(VObjectError::TagMismatch { expected, found }) => {
            assert_eq!(expected, "X");
            assert_eq!(found, "Y");
        }
        other => panic!("expected TagMismatch, got {:?}", other),
    }
}

#[test]
fn end_without_begin_rejected() {
    match parse_component("END:X\r\n") {
        Err(VObjectError::TagMismatch { expected, found }) => {
            assert_eq!(expected, "");
            assert_eq!(found, "X");
        }
        other => panic!("expected TagMismatch, got {:?}", other),
    }
}

#[test]
fn empty_input_rejected() {
    match parse_component("") {
        Err(VObjectError::NoRootComponent) => {}
        other => panic!("expected NoRootComponent, got {:?}", other),
    }
}

#[test]
fn line_without_colon_rejected() {
    let text = "BEGIN:A\r\nnocolonhere\r\nEND:A\r\n";
    match parse_component(text) {
        Err(VObjectError::ParserError(line)) => assert_eq!(line, "nocolonhere"),
        other => panic!("expected ParserError, got {:?}", other),
    }
}

#[test]
fn content_after_root_rejected() {
    let text = "BEGIN:A\r\nEND:A\r\nBEGIN:B\r\nEND:B\r\n";
    match parse_component(text) {
        Err(VObjectError::ParserError(line)) => assert_eq!(line, "BEGIN:B"),
        other => panic!("expected ParserError, got {:?}", other),
    }
}

#[test]
fn case_insensitive_keywords_and_lookup() {
    let text = "begin:VCARD\r\nfn:Jane\r\nend:VCARD\r\n";
    let c = parse_component(text).unwrap();
    assert_eq!(c.name, "VCARD");
    assert_eq!(c.get_only("FN").unwrap().raw_value, "Jane");
    assert_eq!(c.get_all("Fn").len(), 1);
}

#[test]
fn nested_components() {
    let text = "BEGIN:VCALENDAR\r\nBEGIN:VEVENT\r\nSUMMARY:Meet\r\nEND:VEVENT\r\nEND:VCALENDAR\r\n";
    let c = parse_component(text).unwrap();
    assert_eq!(c.name, "VCALENDAR");
    assert_eq!(c.subcomponents.len(), 1);
    assert_eq!(c.subcomponents[0].name, "VEVENT");
    assert_eq!(c.subcomponents[0].get_only("SUMMARY").unwrap().raw_value, "Meet");
}

#[test]
fn unescape_resolves_all_sequences() {
    assert_eq!(unescape_chars("a\\nb"), "a\nb");
    assert_eq!(unescape_chars("a\\Nb"), "a\nb");
    assert_eq!(unescape_chars("a\\;b"), "a;b");
    assert_eq!(unescape_chars("a\\,b"), "a,b");
    assert_eq!(unescape_chars("a\\\\b"), "a\\b");
    assert_eq!(unescape_chars("a\\\\nb"), "a\\nb");
}

#[test]
fn unknown_escape_passes_through() {
    assert_eq!(unescape_chars("a\\xb"), "a\\xb");
    assert_eq!(unescape_chars("tail\\"), "tail\\");
}

#[test]
fn escape_encodes_reserved_characters() {
    assert_eq!(escape_chars("a\nb"), "a\\nb");
    assert_eq!(escape_chars("a;b"), "a\\;b");
    assert_eq!(escape_chars("a,b"), "a\\,b");
    assert_eq!(escape_chars("a\\b"), "a\\\\b");
    assert_eq!(escape_chars("plain"), "plain");
}

#[test]
fn escape_round_trips() {
    let wf = "x\\;y\\,z\\\\w\\n";
    assert_eq!(escape_chars(&unescape_chars(wf)), wf);
    let raw = "all;of,it\\and\nmore";
    assert_eq!(unescape_chars(&escape_chars(raw)), raw);
}

#[test]
fn write_then_parse_round_trip() {
    let mut inner = Component::new(String::from("VEVENT"));
    inner.add_property(Property::new(String::from("SUMMARY"), String::from("semi;colon, and\nnewline")));
    let mut root = Component::new(String::from("VCALENDAR"));
    let mut prop = Property::new(String::from("PRODID"), String::from("tool"));
    prop.params.push(vobject::property::Param { key: String::from("X"), value: String::from("1") });
    root.add_property(prop);
    root.add_subcomponent(inner);

    let text = write_component(&root);
    let back = parse_component(&text).unwrap();
    assert_eq!(back.name, "VCALENDAR");
    assert_eq!(back.props.len(), 1);
    assert_eq!(back.props[0].name, "PRODID");
    assert_eq!(back.props[0].params[0].key, "X");
    assert_eq!(back.props[0].params[0].value, "1");
    assert_eq!(back.subcomponents.len(), 1);
    assert_eq!(back.subcomponents[0].get_only("SUMMARY").unwrap().raw_value, "semi;colon, and\nnewline");
    assert_eq!(write_component(&back), text);
}

#[test]
fn long_lines_fold_within_width() {
    let mut root = Component::new(String::from("VCARD"));
    let long: String = std::iter::repeat('x').take(200).collect();
    root.add_property(Property::new(String::from("NOTE"), long.clone()));
    let text = write_component(&root);
    for line in text.split("\r\n") {
        assert!(line.chars().count() <= 75, "line too long: {}", line);
    }
    let back = parse_component(&text).unwrap();
    assert_eq!(back.get_only("NOTE").unwrap().raw_value, long);
}

#[test]
fn folding_never_splits_escape_sequences() {
    let mut root = Component::new(String::from("VCARD"));
    let tricky: String = std::iter::repeat(';').take(120).collect();
    root.add_property(Property::new(String::from("NOTE"), tricky.clone()));
    let text = write_component(&root);
    for line in text.split("\r\n") {
        assert!(line.chars().count() <= 75);
        let trailing = line.chars().rev().take_while(|c| *c == '\\').count();
        assert_eq!(trailing % 2, 0, "line ends inside an escape: {}", line);
    }
    let back = parse_component(&text).unwrap();
    assert_eq!(back.get_only("NOTE").unwrap().raw_value, tricky);
}

#[test]
fn lf_only_input_accepted() {
    let text = "BEGIN:VCARD\nFN:Jane\nEND:VCARD\n";
    let c = parse_component(text).unwrap();
    assert_eq!(c.get_only("FN").unwrap().raw_value, "Jane");
}

#[test]
fn trailing_blank_lines_dropped() {
    let text = "BEGIN:VCARD\r\nFN:Jane\r\nEND:VCARD\r\n\r\n\r\n";
    assert!(parse_component(text).is_ok());
}

#[test]
fn vcard_name_pieces() {
    let text = "BEGIN:VCARD\r\nN:Doe;John;Quentin;Dr;Jr\r\nVERSION:4.0\r\nEND:VCARD\r\n";
    let v = Vcard::build(text).unwrap();
    let n = v.name().unwrap();
    assert_eq!(n.plain(), "Doe;John;Quentin;Dr;Jr");
    assert_eq!(n.surname().unwrap(), "Doe");
    assert_eq!(n.given_name().unwrap(), "John");
    assert_eq!(n.additional_names().unwrap(), "Quentin");
    assert_eq!(n.honorific_prefixes().unwrap(), "Dr");
    assert_eq!(n.honorific_suffixes().unwrap(), "Jr");
    assert_eq!(n.family_name().unwrap(), "Doe");
    assert_eq!(v.version().unwrap(), "4.0");
}

#[test]
fn vcard_missing_name_and_version() {
    let v = Vcard::build("BEGIN:VCARD\r\nFN:x\r\nEND:VCARD\r\n").unwrap();
    match v.name() {
        Err(VObjectError::NameNotFound) => {}
        other => panic!("expected NameNotFound, got {:?}", other),
    }
    match v.version() {
        Err(VObjectError::VersionNotFound) => {}
        other => panic!("expected VersionNotFound, got {:?}", other),
    }
    assert!(v.bday().is_none());
    assert!(v.email().is_empty());
}

#[test]
fn vcard_getters_return_typed_values() {
    let text = "BEGIN:VCARD\r\nFN:Jane Doe\r\nNICKNAME:JD\r\nBDAY:19900101\r\nTEL:123\r\nTEL:456\r\nEND:VCARD\r\n";
    let v = Vcard::build(text).unwrap();
    let fns = v.fullname();
    assert_eq!(fns.len(), 1);
    assert_eq!(fns[0].raw(), "Jane Doe");
    assert_eq!(v.nickname().len(), 1);
    assert_eq!(v.bday().unwrap().raw(), "19900101");
    let tels = v.tel();
    assert_eq!(tels.len(), 2);
    assert_eq!(tels[0].raw(), "123");
    assert_eq!(tels[1].raw(), "456");
}

#[test]
fn duplicate_param_keys_last_wins() {
    let text = "BEGIN:A\r\nX:v\r\nY;K=1;K=2:v\r\nEND:A\r\n";
    let c = parse_component(text).unwrap();
    let p = c.get_only("Y").unwrap();
    assert_eq!(p.params.len(), 1);
    assert_eq!(p.params[0].key, "K");
    assert_eq!(p.params[0].value, "2");
}

#[test]
fn param_without_value() {
    let text = "BEGIN:A\r\nX;FLAG:v\r\nEND:A\r\n";
    let c = parse_component(text).unwrap();
    let p = c.get_only("X").unwrap();
    assert_eq!(p.params[0].key, "FLAG");
    assert_eq!(p.params[0].value, "");
}

#[test]
fn control_keyword_with_params_is_a_property() {
    // a line starting with `BEGIN;` is no control line: the prefix match
    // needs the colon right after the keyword
    let text = "BEGIN:A\r\nBEGIN;X=1:v\r\nEND:A\r\n";
    let c = parse_component(text).unwrap();
    let p = c.get_only("BEGIN").unwrap();
    assert_eq!(p.raw_value, "v");
    assert_eq!(p.params[0].key, "X");
}

#[test]
fn empty_value_and_empty_tag() {
    let text = "BEGIN:A\r\nX:\r\nEND:A\r\n";
    let c = parse_component(text).unwrap();
    assert_eq!(c.get_only("X").unwrap().raw_value, "");

    let empty_tag = "BEGIN:\r\nX:1\r\nEND:\r\n";
    let c2 = parse_component(empty_tag).unwrap();
    assert_eq!(c2.name, "");
}

#[test]
fn deep_nesting_round_trips() {
    let mut c = Component::new(String::from("L0"));
    c.add_property(Property::new(String::from("K"), String::from("v0")));
    for i in 1..40 {
        let mut outer = Component::new(format!("L{}", i));
        outer.add_property(Property::new(String::from("K"), format!("v{}", i)));
        outer.add_subcomponent(c);
        c = outer;
    }
    let text = write_component(&c);
    let back = parse_component(&text).unwrap();
    assert_eq!(back.name, "L39");
    let mut cur = &back;
    for _ in 0..39 {
        assert_eq!(cur.subcomponents.len(), 1);
        cur = &cur.subcomponents[0];
    }
    assert_eq!(cur.name, "L0");
    assert_eq!(cur.get_only("K").unwrap().raw_value, "v0");
}
