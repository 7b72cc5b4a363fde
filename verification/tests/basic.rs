use docx_cc::controls::ContentControlType;
use docx_cc::detect::{find_subsequence, has_content_control};
use docx_cc::engine::{map_content_controls, remove_content_controls, Mapping, RepeatMapping, ZipData};
use docx_cc::index::get_content_controls;
use docx_cc::metadata::describe_content_controls;

fn part(name: &str, xml: &str) -> (String, Vec<u8>) {
    (name.to_string(), xml.as_bytes().to_vec())
}

#[test]
fn detects_sdt_marker() {
    assert!(has_content_control(b"prefix <w:sdt> suffix"));
    assert!(!has_content_control(b"plain document text"));
    assert!(!has_content_control(b"<w:sdtPr>"));
    assert_eq!(find_subsequence(b"abcabc", b"cab"), Some(2));
    assert_eq!(find_subsequence(b"abcabc", b"zz"), None);
}

#[test]
fn parses_kind_names() {
    assert!(matches!(
        ContentControlType::parse_string("w:richText"),
        Some(ContentControlType::RichText)
    ));
    assert!(matches!(ContentControlType::parse_string("w:text"), Some(ContentControlType::Text)));
    assert!(matches!(
        ContentControlType::parse_string("w:comboBox"),
        Some(ContentControlType::ComboBox)
    ));
    assert!(matches!(
        ContentControlType::parse_string("w:dropDownList"),
        Some(ContentControlType::DropdownList)
    ));
    assert!(matches!(ContentControlType::parse_string("w:date"), Some(ContentControlType::Date)));
    assert!(matches!(
        ContentControlType::parse_string("w15:repeatingSection"),
        Some(ContentControlType::RepeatingSection)
    ));
    assert!(matches!(
        ContentControlType::parse_string("w15:repeatingSectionItem"),
        Some(ContentControlType::RepeatingSectionItem)
    ));
    assert!(ContentControlType::parse_string("w:tag").is_none());
    assert!(ContentControlType::parse_string("").is_none());
}

const SIMPLE_DOC: &str = "<w:document><w:body><w:sdt><w:sdtPr><w:tag w:val=\"Title\"/><w:text/></w:sdtPr><w:sdtContent><w:p><w:r><w:t>Old</w:t></w:r></w:p></w:sdtContent></w:sdt></w:body></w:document>";

#[test]
fn indexes_simple_control() {
    let data: ZipData = vec![part("word/document.xml", SIMPLE_DOC)];
    let docs = get_content_controls(&data).unwrap();
    assert_eq!(docs.len(), 1);
    assert_eq!(docs[0].0, "word/document.xml");
    let positions = &docs[0].1.control_positions;
    assert_eq!(positions.len(), 1);
    let p = &positions[0];
    assert_eq!(p.get_tag(), "Title");
    assert!(matches!(p.get_type(), ContentControlType::Text));
    assert!(p.contains_paragraph);
    assert!(p.begin < p.content_begin);
    assert!(p.content_begin < p.content_end);
    assert!(p.content_end < p.end);
}

#[test]
fn maps_simple_control() {
    let data: ZipData = vec![part("word/document.xml", SIMPLE_DOC)];
    let docs = get_content_controls(&data).unwrap();
    let mappings: Mapping = vec![("Title".to_string(), "New".to_string())];
    let repeat: RepeatMapping = vec![];
    let out = map_content_controls(&data, &docs, &mappings, &repeat).unwrap();
    assert_eq!(out.len(), 1);
    let expected = "<w:document><w:body><w:sdt><w:sdtPr><w:tag w:val=\"Title\"/><w:text/></w:sdtPr><w:sdtContent><w:p><w:r><w:t>New</w:t></w:r></w:p></w:sdtContent></w:sdt></w:body></w:document>";
    assert_eq!(String::from_utf8(out[0].1.clone()).unwrap(), expected);
}

#[test]
fn missing_tag_gets_sentinel() {
    let data: ZipData = vec![part("word/document.xml", SIMPLE_DOC)];
    let docs = get_content_controls(&data).unwrap();
    let mappings: Mapping = vec![];
    let repeat: RepeatMapping = vec![];
    let out = map_content_controls(&data, &docs, &mappings, &repeat).unwrap();
    let expected = "<w:document><w:body><w:sdt><w:sdtPr><w:tag w:val=\"Title\"/><w:text/></w:sdtPr><w:sdtContent><w:p><w:r><w:t>MISSING</w:t></w:r></w:p></w:sdtContent></w:sdt></w:body></w:document>";
    assert_eq!(String::from_utf8(out[0].1.clone()).unwrap(), expected);
}

#[test]
fn strips_simple_control() {
    let data: ZipData = vec![part("word/document.xml", SIMPLE_DOC)];
    let out = remove_content_controls(&data).unwrap();
    let expected = "<w:document><w:body><w:p><w:r><w:t>Old</w:t></w:r></w:p></w:body></w:document>";
    assert_eq!(String::from_utf8(out[0].1.clone()).unwrap(), expected);
}

#[test]
fn passthrough_part_is_untouched() {
    let raw: Vec<u8> = vec![0u8, 159, 146, 150, 60, 119];
    let data: ZipData = vec![
        ("media/image1.bin".to_string(), raw.clone()),
        part("word/plain.xml", "<w:document><w:body/></w:document>"),
    ];
    let mapped = map_content_controls(&data, &get_content_controls(&data).unwrap(), &vec![], &vec![]).unwrap();
    assert_eq!(mapped[0].1, raw);
    assert_eq!(mapped[1].1, data[1].1);
    let stripped = remove_content_controls(&data).unwrap();
    assert_eq!(stripped[0].1, raw);
    assert_eq!(stripped[1].1, data[1].1);
}

#[test]
fn malformed_part_is_rejected() {
    let data: ZipData = vec![part("word/document.xml", "<w:sdt><a></b></w:sdt>")];
    assert!(get_content_controls(&data).is_err());
    assert!(remove_content_controls(&data).is_err());
}

#[test]
fn non_utf8_part_with_marker_is_rejected() {
    let mut bytes = b"<w:sdt>".to_vec();
    bytes.push(0xff);
    let data: ZipData = vec![("word/document.xml".to_string(), bytes)];
    assert!(get_content_controls(&data).is_err());
}

#[test]
fn describe_lists_tags_kinds_and_children() {
    let outer = "<w:document><w:body><w:sdt><w:sdtPr><w:tag w:val=\"Outer\"/></w:sdtPr><w:sdtContent><w:p><w:sdt><w:sdtPr><w:tag w:val=\"Inner\"/><w:text/></w:sdtPr><w:sdtContent><w:r><w:t>x</w:t></w:r></w:sdtContent></w:sdt></w:p></w:sdtContent></w:sdt></w:body></w:document>";
    let data: ZipData = vec![part("word/document.xml", outer)];
    let docs = get_content_controls(&data).unwrap();
    let meta = describe_content_controls(&docs);
    assert_eq!(meta.len(), 2);
    assert_eq!(meta[0].0, "Outer");
    assert_eq!(meta[0].1.types, vec!["w:richText".to_string()]);
    assert_eq!(meta[0].1.children_tags, vec!["Inner".to_string()]);
    assert_eq!(meta[1].0, "Inner");
    assert_eq!(meta[1].1.types, vec!["w:text".to_string()]);
    assert!(meta[1].1.children_tags.is_empty());
}

#[test]
fn indexes_exact_offsets() {
    let data: ZipData = vec![part("word/document.xml", SIMPLE_DOC)];
    let docs = get_content_controls(&data).unwrap();
    let p = &docs[0].1.control_positions[0];
    assert_eq!(p.begin, 2);
    assert_eq!(p.content_begin, 7);
    assert_eq!(p.content_end, 15);
    assert_eq!(p.end, 16);
    assert_eq!(docs[0].1.events.len(), 20);
}

#[test]
fn nested_controls_are_sorted_and_nested() {
    let outer = "<w:document><w:body><w:sdt><w:sdtPr><w:tag w:val=\"Outer\"/></w:sdtPr><w:sdtContent><w:p><w:sdt><w:sdtPr><w:tag w:val=\"Inner\"/><w:text/></w:sdtPr><w:sdtContent><w:r><w:t>x</w:t></w:r></w:sdtContent></w:sdt></w:p></w:sdtContent></w:sdt></w:body></w:document>";
    let data: ZipData = vec![part("word/document.xml", outer)];
    let docs = get_content_controls(&data).unwrap();
    let ps = &docs[0].1.control_positions;
    assert_eq!(ps.len(), 2);
    assert!(ps[0].begin < ps[1].begin);
    assert!(ps[0].begin <= ps[1].begin && ps[1].end <= ps[0].end);
    assert!(matches!(ps[0].get_type(), ContentControlType::RichText));
}

#[test]
fn parse_error_names_part_and_position() {
    let data: ZipData = vec![part("word/document.xml", "<w:sdt><a></b></w:sdt>")];
    match get_content_controls(&data) {
        Err(docx_cc::errors::DocxError::Parse { part, position }) => {
            assert_eq!(part, "word/document.xml");
            assert!(position > 0);
        }
        other => panic!("expected a parse error, got {:?}", other.is_ok()),
    }
}

#[test]
fn encoding_error_names_part() {
    let mut bytes = b"<w:sdt>".to_vec();
    bytes.push(0xff);
    let data: ZipData = vec![("word/document.xml".to_string(), bytes)];
    match get_content_controls(&data) {
        Err(docx_cc::errors::DocxError::Encoding { part }) => {
            assert_eq!(part, "word/document.xml");
        }
        other => panic!("expected an encoding error, got {:?}", other.is_ok()),
    }
}
