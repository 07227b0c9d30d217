use movie_catalog::json::json_to_records;
use movie_catalog::json::records_to_json;
use movie_catalog::parse::parse_catalog;
use movie_catalog::record::Movie;

fn fields(m: &Movie) -> (u32, &str, &str, Option<&str>) {
    (m.disc, m.year.as_str(), m.title.as_str(), m.remark.as_deref())
}

#[test]
fn empty_list_renders_as_empty_array() {
    assert_eq!(records_to_json(&Vec::new()), "[]");
}

#[test]
fn one_record_renders_pretty_printed() {
    let ms = parse_catalog("2001Some Title");
    let expected = "[\n  {\n    \"disc\": 0,\n    \"year\": \"2001\",\n    \"title\": \"Some Title\",\n    \"remark\": null\n  }\n]";
    assert_eq!(records_to_json(&ms), expected);
}

#[test]
fn remark_renders_as_a_string_when_present() {
    let ms = parse_catalog("7.\n1999Kids Movie 儿童");
    let expected = "[\n  {\n    \"disc\": 7,\n    \"year\": \"1999\",\n    \"title\": \"Kids Movie\",\n    \"remark\": \"儿童\"\n  }\n]";
    assert_eq!(records_to_json(&ms), expected);
}

#[test]
fn quotes_and_backslashes_are_escaped() {
    let ms = parse_catalog("2001A\"B\\C");
    let json = records_to_json(&ms);
    assert!(json.contains("\"title\": \"A\\\"B\\\\C\""));
}

#[test]
fn round_trip_of_an_empty_list() {
    let back = json_to_records("[]").unwrap();
    assert!(back.is_empty());
}

#[test]
fn round_trip_preserves_every_field() {
    let text = "2001Some Title\n3.\n1999Kids Movie 儿童\n2000A\"B\\C\n12.\n2002  Padded ";
    let ms = parse_catalog(text);
    let json = records_to_json(&ms);
    let back = json_to_records(&json).unwrap();
    assert_eq!(ms.len(), back.len());
    for (x, y) in ms.iter().zip(back.iter()) {
        assert_eq!(fields(x), fields(y));
    }
}

#[test]
fn round_trip_keeps_absent_remark_distinct_from_empty() {
    let ms = parse_catalog("2001No Remark\n1999With One 儿童");
    let back = json_to_records(&records_to_json(&ms)).unwrap();
    assert_eq!(back[0].remark, None);
    assert_eq!(back[1].remark.as_deref(), Some("儿童"));
}

#[test]
fn malformed_documents_are_refused() {
    assert!(json_to_records("").is_none());
    assert!(json_to_records("[").is_none());
    assert!(json_to_records("{}").is_none());
    assert!(json_to_records("[\n  {\n    \"disc\": 1\n  }\n]").is_none());
    assert!(json_to_records("[\n]").is_none());
}

#[test]
fn number_too_large_for_u32_is_refused() {
    let good = records_to_json(&parse_catalog("2001T"));
    let bad = good.replace("\"disc\": 0", "\"disc\": 4294967296");
    assert!(json_to_records(&bad).is_none());
    let edge = good.replace("\"disc\": 0", "\"disc\": 4294967295");
    assert_eq!(json_to_records(&edge).unwrap()[0].disc, 4294967295);
}
