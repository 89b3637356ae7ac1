use pmmlruntime::error::PmmlError;
use pmmlruntime::reader::{new_reader, PmmlReader};
use pmmlruntime::xml::XmlEvent;
use quick_xml::events::Event;

#[test]
fn depth_limit() {
    let mut xml = String::from("<PMML>");
    for _ in 0..520 {
        xml.push_str("<a>");
    }
    let bytes = xml.into_bytes();
    let mut r = PmmlReader::from_bytes(&bytes).unwrap();
    let mut err = None;
    loop {
        match r.read_event() {
            Ok(XmlEvent::Eof) => break,
            Ok(_) => {}
            Err(e) => {
                err = Some(e.message());
                break;
            }
        }
    }
    assert!(err.is_some(), "should hit depth limit 512");
    assert!(err.unwrap().contains("depth"));
}

#[test]
fn depth_limit_ok_at_511() {
    let mut xml = String::from("<PMML>");
    for _ in 0..511 {
        xml.push_str("<a>");
    }
    for _ in 0..511 {
        xml.push_str("</a>");
    }
    xml.push_str("</PMML>");
    let bytes = xml.into_bytes();
    let mut r = PmmlReader::from_bytes(&bytes).unwrap();
    let mut got_error = false;
    loop {
        match r.read_event() {
            Ok(XmlEvent::Eof) => break,
            Ok(_) => {}
            Err(_) => {
                got_error = true;
                break;
            }
        }
    }
    assert!(!got_error, "511 depth should be ok");
}

#[test]
fn reader_xxe_blocked() {
    let xxe = r#"<?xml version="1.0"?>
<!DOCTYPE foo [ <!ENTITY xxe SYSTEM "file:///etc/passwd"> ]>
<PMML version="4.4"><DataDictionary><DataField name="f" dataType="string" optype="categorical"/></DataDictionary>&xxe;</PMML>"#;
    let bytes = xxe.as_bytes();
    let r = new_reader(bytes);
    assert!(r.is_ok(), "reader should be created (XXE DTD not expanded)");
    let reader = r.unwrap();
    let mut inner = reader;
    let mut buf = Vec::new();
    let mut found_passwd = false;
    loop {
        match inner.read_event_into(&mut buf) {
            Ok(Event::Text(t)) => {
                let txt = t.unescape().unwrap_or_default().into_owned();
                if txt.contains("root:") {
                    found_passwd = true;
                }
            }
            Ok(Event::Eof) => break,
            Ok(_) => {}
            Err(_) => break,
        }
        buf.clear();
    }
    assert!(!found_passwd, "XXE should not leak file content");
}

#[test]
fn depth_error_is_validation_with_exact_message() {
    let mut xml = String::new();
    for _ in 0..513 {
        xml.push_str("<a>");
    }
    let bytes = xml.into_bytes();
    let mut r = PmmlReader::from_bytes(&bytes).unwrap();
    let mut starts = 0;
    let err = loop {
        match r.read_event() {
            Ok(XmlEvent::Start(_)) => starts += 1,
            Ok(XmlEvent::Eof) => panic!("expected a depth error"),
            Ok(_) => {}
            Err(e) => break e,
        }
    };
    assert_eq!(starts, 512);
    match err {
        PmmlError::ValidationError(m) => assert_eq!(m, "XML depth exceeds limit 512"),
        other => panic!("unexpected error {:?}", other),
    }
}

#[test]
fn declarations_comments_and_pis_are_skipped() {
    let xml = br#"<?xml version="1.0"?><!-- note --><?pi data?><PMML/>"#;
    let mut r = PmmlReader::from_bytes(xml).unwrap();
    match r.read_event() {
        Ok(XmlEvent::Start(t)) => assert_eq!(t.name, "PMML"),
        other => panic!("unexpected {:?}", other),
    }
    match r.read_event() {
        Ok(XmlEvent::End(n)) => assert_eq!(n, "PMML"),
        other => panic!("unexpected {:?}", other),
    }
    assert!(matches!(r.read_event(), Ok(XmlEvent::Eof)));
    assert!(matches!(r.read_event(), Ok(XmlEvent::Eof)));
}

#[test]
fn attributes_are_unescaped() {
    let xml = br#"<PMML a="x &amp; y"/>"#;
    let mut r = PmmlReader::from_bytes(xml).unwrap();
    match r.read_event() {
        Ok(XmlEvent::Start(t)) => {
            assert_eq!(t.attributes.len(), 1);
            assert_eq!(t.attributes[0].key, "a");
            assert_eq!(t.attributes[0].value.as_deref(), Some("x & y"));
        }
        other => panic!("unexpected {:?}", other),
    }
}

#[test]
fn malformed_xml_is_a_parse_error() {
    let xml = br#"<PMML></Other>"#;
    let mut r = PmmlReader::from_bytes(xml).unwrap();
    let mut seen_error = false;
    for _ in 0..4 {
        if let Err(e) = r.read_event() {
            match e {
                PmmlError::ParseError { context, .. } => assert_eq!(context, "xml"),
                other => panic!("unexpected error {:?}", other),
            }
            seen_error = true;
            break;
        }
    }
    assert!(seen_error);
}

#[test]
fn oversized_input_is_rejected() {
    let big = vec![b' '; 100 * 1024 * 1024 + 1];
    match PmmlReader::from_bytes(&big) {
        Err(PmmlError::ValidationError(m)) => {
            assert_eq!(m, "PMML file too large: 104857601 > 104857600")
        }
        _ => panic!("expected a size error"),
    }
    assert!(new_reader(&big).is_err());
}
