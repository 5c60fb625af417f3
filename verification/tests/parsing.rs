use tolls::data_models::{CallRecord, ProcessedCallRecord};
use tolls::xml_events::{tokenize_xml, XmlEvent};
use tolls::xml_parser::XmlParser;
use tolls::xml_scan::scan_events;

fn wrapped_doc() -> String {
    "<dataProduct><xmlResult><targetType>phone</targetType><targetValue>5550001111</targetValue><fromDate>2023-01-01</fromDate><toDate>2023-01-31</toDate><results><messageDirection>Incoming</messageDirection><remoteNumber>(555) 123-4567</remoteNumber><startTime>2023-01-15T10:30:00Z</startTime><endTime>2023-01-15T10:35:00Z</endTime><lengthOfCall>300</lengthOfCall></results><results><messageDirection>outgoing</messageDirection><remoteNumber>15551234567</remoteNumber><startTime>2023-01-16T23:45:10Z</startTime><endTime>2023-01-16T23:46:10Z</endTime><lengthOfCall>60</lengthOfCall></results></xmlResult></dataProduct>"
    .to_string()
}

#[test]
fn wrapped_schema_parses() {
    let records = XmlParser::parse_content_with_source(&wrapped_doc(), "a.xml");
    assert_eq!(records.len(), 2);
    assert_eq!(records[0].target_number, "5550001111");
    assert_eq!(records[0].source_file, "a.xml");
    assert_eq!(records[0].message_direction, "Incoming");
    assert_eq!(records[0].remote_number, "(555) 123-4567");
    assert_eq!(records[0].normalized_number, "5551234567");
    assert_eq!(records[0].length_of_call, 300);
    assert_eq!(records[0].date, "2023-01-15");
    assert_eq!(records[0].time, "10:30:00");
    assert_eq!(records[0].date_time, "2023-01-15 10:30:00");
    assert_eq!(records[0].day_of_week, "Sunday");
    assert_eq!(records[1].normalized_number, "5551234567");
    assert_eq!(records[1].date, "2023-01-16");
    assert_eq!(records[1].day_of_week, "Monday");
}

#[test]
fn unwrapped_schema_parses() {
    let doc = "<xmlResult><targetType>phone</targetType><targetValue>5550002222</targetValue><fromDate>x</fromDate><toDate>y</toDate><results><messageDirection>incoming</messageDirection><remoteNumber>42</remoteNumber><startTime>2023-03-01T08:00:00Z</startTime><endTime>2023-03-01T08:01:00Z</endTime><lengthOfCall>60</lengthOfCall></results></xmlResult>";
    let records = XmlParser::parse_content(doc);
    assert_eq!(records.len(), 1);
    assert_eq!(records[0].target_number, "5550002222");
    assert_eq!(records[0].normalized_number, "0000000042");
    assert_eq!(records[0].source_file, "unknown");
}

#[test]
fn ragged_document_recovered_by_scan() {
    // Missing fields, unknown elements, attributes: the tolerant tier
    // still recovers what it can.
    let doc = "<export version=\"2\"><!-- captured batch --><targetValue>111</targetValue><results><remoteNumber>42</remoteNumber><startTime>2023-01-15T10:30:00Z</startTime><endTime>2023-01-15T10:31:00Z</endTime><lengthOfCall>60</lengthOfCall><junk>zz</junk></results></export>";
    let records = XmlParser::parse_content_with_source(doc, "b.xml");
    assert_eq!(records.len(), 1);
    assert_eq!(records[0].target_number, "111");
    assert_eq!(records[0].message_direction, "");
    assert_eq!(records[0].normalized_number, "0000000042");
    assert_eq!(records[0].length_of_call, 60);
}

#[test]
fn malformed_documents_do_not_raise() {
    // An unterminated results element: parse returns, with no entry
    // (its timestamps never appear complete).
    let r = XmlParser::parse_content("<results><messageDirection>incoming");
    assert_eq!(r.len(), 0);
    // An unknown root with nothing useful inside.
    let r = XmlParser::parse_content("<unknownRoot><foo/></unknownRoot>");
    assert_eq!(r.len(), 0);
    // Not XML at all.
    let r = XmlParser::parse_content("plain text, no tags");
    assert_eq!(r.len(), 0);
    // Unterminated tag at the very end.
    let r = XmlParser::parse_content("<a><b>text</b><c");
    assert_eq!(r.len(), 0);
}

#[test]
fn bad_timestamp_drops_entry_not_batch() {
    let doc = "<xmlResult><targetType>phone</targetType><targetValue>5550003333</targetValue><fromDate>x</fromDate><toDate>y</toDate><results><messageDirection>incoming</messageDirection><remoteNumber>1</remoteNumber><startTime>not a time</startTime><endTime>2023-03-01T08:01:00Z</endTime><lengthOfCall>60</lengthOfCall></results><results><messageDirection>incoming</messageDirection><remoteNumber>2</remoteNumber><startTime>2023-03-01T09:00:00Z</startTime><endTime>2023-03-01T09:01:00Z</endTime><lengthOfCall>60</lengthOfCall></results></xmlResult>";
    let records = XmlParser::parse_content(doc);
    assert_eq!(records.len(), 1);
    assert_eq!(records[0].normalized_number, "0000000002");
}

#[test]
fn wrapped_document_scans_identically() {
    // A document matching the wrapped schema yields the same entries
    // whether the typed tier or the tolerant scan reads it.
    let doc = wrapped_doc();
    let typed = XmlParser::parse_content_with_source(&doc, "same.xml");
    let events = tokenize_xml(&doc);
    let (raw, target) = scan_events(&events);
    assert_eq!(target, "5550001111");
    assert_eq!(raw.len(), typed.len());
    for (r, t) in raw.iter().zip(typed.iter()) {
        let p = ProcessedCallRecord::from_call_record(r, &target, "same.xml")
            .expect("timestamps parse");
        assert_eq!(p.message_direction, t.message_direction);
        assert_eq!(p.remote_number, t.remote_number);
        assert_eq!(p.normalized_number, t.normalized_number);
        assert_eq!(p.target_number, t.target_number);
        assert_eq!(p.length_of_call, t.length_of_call);
        assert_eq!(p.start_time, t.start_time);
        assert_eq!(p.end_time, t.end_time);
    }
}

#[test]
fn tokenizer_events() {
    let events = tokenize_xml("<a attr=\"v\"> hi <b/></a>");
    let shown: Vec<String> = events
        .iter()
        .map(|e| match e {
            XmlEvent::Open(n) => format!("open {}", n),
            XmlEvent::Close(n) => format!("close {}", n),
            XmlEvent::Text(t) => format!("text {}", t),
        })
        .collect();
    assert_eq!(shown, vec!["open a", "text hi", "open b", "close b", "close a"]);
}

#[test]
fn length_of_call_must_be_numeric_for_typed_tiers() {
    // A non-numeric length fails the strict tiers; the tolerant scan
    // keeps the entry with length zero.
    let doc = "<xmlResult><targetType>phone</targetType><targetValue>777</targetValue><fromDate>x</fromDate><toDate>y</toDate><results><messageDirection>incoming</messageDirection><remoteNumber>3</remoteNumber><startTime>2023-03-01T09:00:00Z</startTime><endTime>2023-03-01T09:01:00Z</endTime><lengthOfCall>sixty</lengthOfCall></results></xmlResult>";
    let records = XmlParser::parse_content(doc);
    assert_eq!(records.len(), 1);
    assert_eq!(records[0].length_of_call, 0);
}

#[test]
fn from_call_record_rejects_bad_times() {
    let call = CallRecord {
        message_direction: "incoming".to_string(),
        remote_number: "5551234567".to_string(),
        start_time: "yesterday".to_string(),
        end_time: "2023-03-01T08:01:00Z".to_string(),
        length_of_call: 5,
    };
    assert!(ProcessedCallRecord::from_call_record(&call, "t", "s").is_err());
}
