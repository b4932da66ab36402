use jbsync::xml::dom::{parse, serialize};

#[test]
fn round_trips_a_typical_options_file() {
    let source = "<?xml version='1.0' encoding='utf-8'?>\n<application>\n  <component name=\"GeneralSettings\">\n    <option name=\"reopenLastProject\" value=\"false\" />\n  </component>\n</application>";
    let parsed = parse(source).unwrap();
    let serialized = serialize(&parsed);
    assert_eq!(parse(&serialized).unwrap(), parsed);
    assert!(serialized.contains("<option name=\"reopenLastProject\" value=\"false\" />"));
}

#[test]
fn attributes_serialize_in_sorted_order() {
    let parsed = parse("<root b=\"2\" a=\"1\" c=\"3\" />").unwrap();
    assert!(serialize(&parsed).contains("<root a=\"1\" b=\"2\" c=\"3\" />"));
}

#[test]
fn preserves_child_order() {
    let parsed = parse("<list><item value=\"z\" /><item value=\"a\" /></list>").unwrap();
    let serialized = serialize(&parsed);
    let first = serialized.find("\"z\"").unwrap();
    let second = serialized.find("\"a\"").unwrap();
    assert!(first < second, "ordered children must not be sorted");
}

#[test]
fn escapes_significant_whitespace_in_attributes() {
    let parsed = parse("<root value=\"a&#10;b\" />").unwrap();
    let serialized = serialize(&parsed);
    assert!(serialized.contains("&#10;"));
    assert_eq!(parse(&serialized).unwrap(), parsed);
}

#[test]
fn keeps_element_text() {
    let parsed = parse("<place>Java: comments</place>").unwrap();
    assert_eq!(parsed.text.as_deref(), Some("Java: comments"));
    assert_eq!(parse(&serialize(&parsed)).unwrap(), parsed);
}

#[test]
fn a_domain_element_named_by_its_value_is_not_valueless() {
    let parsed = parse(r#"<global_color_scheme name="Islands Dark" />"#).unwrap();
    assert!(!parsed.is_valueless());
}

#[test]
fn an_emptied_wrapper_is_valueless() {
    let parsed = parse(r#"<option name="map" />"#).unwrap();
    assert!(parsed.is_valueless());
    assert!(parse("<map />").unwrap().is_valueless());
    assert!(parse(r#"<entry key="a" />"#).unwrap().is_valueless());
}

#[test]
fn a_wrapper_holding_a_value_survives() {
    let parsed = parse(r#"<option name="tabs" value="4" />"#).unwrap();
    assert!(!parsed.is_valueless());
}

#[test]
fn key_attribute_prefers_name() {
    let parsed = parse("<component name=\"A\" id=\"B\" />").unwrap();
    assert_eq!(
        parsed.key_attribute(),
        Some(("name".to_string(), "A".to_string()))
    );
}

#[test]
fn text_that_is_not_xml_is_refused() {
    assert!(parse("<unclosed").is_err());
    assert!(parse("not xml at all").is_err());
}

#[test]
fn an_escaped_attribute_reads_back_exactly() {
    let parsed = parse("<root value=\"a &amp; &lt;b&gt; &quot;c&quot;\" />").unwrap();
    let serialized = serialize(&parsed);
    assert_eq!(parse(&serialized).unwrap(), parsed);
    assert_eq!(
        parsed.attributes.get("value").map(String::as_str),
        Some("a & <b> \"c\"")
    );
}
