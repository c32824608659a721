use rawgallery::sidecar::{parse_events, Attr, SidecarError, SidecarEvent};
use rawgallery::xml::parse_sidecar;

fn sidecar(description_attrs: &str, subjects: &[&str]) -> String {
    let mut lis = String::new();
    for s in subjects {
        lis.push_str("      <rdf:li>");
        lis.push_str(s);
        lis.push_str("</rdf:li>\n");
    }
    format!(
        "<x:xmpmeta xmlns:x=\"adobe:ns:meta/\">\n <rdf:RDF>\n  <rdf:Description {}>\n   <lr:hierarchicalSubject>\n    <rdf:Bag>\n{}    </rdf:Bag>\n   </lr:hierarchicalSubject>\n  </rdf:Description>\n </rdf:RDF>\n</x:xmpmeta>\n",
        description_attrs, lis
    )
}

#[test]
fn rating_and_tags_parse() {
    let doc = sidecar("rdf:about=\"\" xmp:Rating=\"4\"", &["Family|Smith|Alice"]);
    let meta = parse_sidecar(&doc).unwrap();
    assert_eq!(meta.rating, 4);
    assert_eq!(meta.raw_tag_paths, vec!["Family|Smith|Alice"]);
}

#[test]
fn later_rating_wins_across_document() {
    let doc = "<rdf:RDF>\
               <rdf:Description xmp:Rating=\"3\"></rdf:Description>\
               <rdf:Description xmp:Rating=\"5\"></rdf:Description>\
               </rdf:RDF>";
    let meta = parse_sidecar(doc).unwrap();
    assert_eq!(meta.rating, 5);
}

#[test]
fn description_without_rating_keeps_earlier_rating() {
    let doc = "<rdf:RDF>\
               <rdf:Description xmp:Rating=\"5\"></rdf:Description>\
               <rdf:Description rdf:about=\"\"></rdf:Description>\
               </rdf:RDF>";
    let meta = parse_sidecar(doc).unwrap();
    assert_eq!(meta.rating, 5);
}

#[test]
fn whitespace_only_tag_paths_are_dropped() {
    let doc = sidecar(
        "xmp:Rating=\"2\"",
        &["Family|Smith|Alice", "  ", "Family|Smith|Bob"],
    );
    let meta = parse_sidecar(&doc).unwrap();
    assert_eq!(meta.raw_tag_paths, vec!["Family|Smith|Alice", "Family|Smith|Bob"]);
}

#[test]
fn tag_paths_are_trimmed() {
    let doc = sidecar("xmp:Rating=\"2\"", &["  Travel|Asia "]);
    let meta = parse_sidecar(&doc).unwrap();
    assert_eq!(meta.raw_tag_paths, vec!["Travel|Asia"]);
}

#[test]
fn text_outside_the_subject_block_is_ignored() {
    let doc = "<rdf:RDF><stray>Not|A|Tag</stray>\
               <rdf:Description xmp:Rating=\"1\"></rdf:Description>\
               <lr:hierarchicalSubject><rdf:li>Real|Tag</rdf:li></lr:hierarchicalSubject>\
               </rdf:RDF>";
    let meta = parse_sidecar(doc).unwrap();
    assert_eq!(meta.raw_tag_paths, vec!["Real|Tag"]);
}

#[test]
fn missing_rating_is_rejected() {
    let doc = sidecar("rdf:about=\"\"", &["Family|Smith|Alice"]);
    assert_eq!(parse_sidecar(&doc).unwrap_err(), SidecarError::MissingRating);
}

#[test]
fn non_numeric_rating_is_rejected() {
    let doc = sidecar("xmp:Rating=\"five\"", &[]);
    assert_eq!(parse_sidecar(&doc).unwrap_err(), SidecarError::InvalidRating);
}

#[test]
fn mismatched_tags_are_malformed() {
    let doc = "<a><b></a>";
    assert_eq!(parse_sidecar(doc).unwrap_err(), SidecarError::Malformed);
}

#[test]
fn references_in_tag_paths_are_resolved_and_rejoined() {
    let doc = sidecar(
        "xmp:Rating=\"2\"",
        &["Family|Smith &amp; Jones", "A&#124;B"],
    );
    let meta = parse_sidecar(&doc).unwrap();
    // Each text node comes back as one raw path, references resolved:
    // the second one resolves to a pipe, so it reads as a two-segment path.
    assert_eq!(meta.raw_tag_paths, vec!["Family|Smith & Jones", "A|B"]);
}

#[test]
fn unknown_entities_are_malformed() {
    let doc = sidecar("xmp:Rating=\"2\"", &["Family|&nosuch;"]);
    assert_eq!(parse_sidecar(&doc).unwrap_err(), SidecarError::Malformed);
}

#[test]
fn escaped_attribute_value_is_unescaped() {
    let doc = "<rdf:Description xmp:Rating=\"&#53;\"></rdf:Description>";
    match parse_sidecar(doc) {
        Ok(meta) => assert_eq!(meta.rating, 5),
        Err(e) => panic!("expected a parsed rating, got {:?}", e),
    }
}

fn start(name: &str, attrs: Vec<(&str, &str)>) -> SidecarEvent {
    SidecarEvent::Start {
        name: name.to_string(),
        attrs: attrs
            .into_iter()
            .map(|(k, v)| Attr { key: k.to_string(), value: v.to_string() })
            .collect(),
    }
}

fn end(name: &str) -> SidecarEvent {
    SidecarEvent::End { name: name.to_string() }
}

fn text(content: &str) -> SidecarEvent {
    SidecarEvent::Text { content: content.to_string() }
}

#[test]
fn last_rating_attribute_wins_within_one_event() {
    let events = vec![start(
        "rdf:Description",
        vec![("xmp:Rating", "3"), ("other", "x"), ("xmp:Rating", "5")],
    )];
    let meta = parse_events(&events).unwrap();
    assert_eq!(meta.rating, 5);
}

#[test]
fn subject_block_brackets_collection() {
    let events = vec![
        start("rdf:Description", vec![("xmp:Rating", "1")]),
        text("outside"),
        start("lr:hierarchicalSubject", vec![]),
        text("Family|Smith|Alice"),
        end("lr:hierarchicalSubject"),
        text("outside again"),
        end("rdf:Description"),
    ];
    let meta = parse_events(&events).unwrap();
    assert_eq!(meta.raw_tag_paths, vec!["Family|Smith|Alice"]);
}

#[test]
fn no_events_means_no_rating() {
    let events: Vec<SidecarEvent> = Vec::new();
    assert_eq!(parse_events(&events).unwrap_err(), SidecarError::MissingRating);
}
