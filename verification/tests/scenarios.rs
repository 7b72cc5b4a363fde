use docx_cc::engine::{map_content_controls, Mapping, RepeatMapping, ZipData};
use docx_cc::index::get_content_controls;

fn part(name: &str, xml: &str) -> (String, Vec<u8>) {
    (name.to_string(), xml.as_bytes().to_vec())
}

fn map_one(xml: &str, mappings: Mapping, repeat: RepeatMapping) -> String {
    let data: ZipData = vec![part("word/document.xml", xml)];
    let docs = get_content_controls(&data).unwrap();
    let out = map_content_controls(&data, &docs, &mappings, &repeat).unwrap();
    String::from_utf8(out[0].1.clone()).unwrap()
}

const RUN_DOC: &str = "<w:document><w:body><w:p><w:sdt><w:sdtPr><w:tag w:val=\"RunField\"/><w:text/></w:sdtPr><w:sdtContent><w:r><w:rPr><w:b/></w:rPr><w:t>Old</w:t></w:r></w:sdtContent></w:sdt></w:p></w:body></w:document>";

#[test]
fn run_control_keeps_run_properties() {
    let out = map_one(RUN_DOC, vec![("RunField".to_string(), "Something new".to_string())], vec![]);
    let expected = "<w:document><w:body><w:p><w:sdt><w:sdtPr><w:tag w:val=\"RunField\"/><w:text/></w:sdtPr><w:sdtContent><w:r><w:rPr><w:b/></w:rPr><w:t>Something new</w:t></w:r></w:sdtContent></w:sdt></w:p></w:body></w:document>";
    assert_eq!(out, expected);
}

#[test]
fn inline_drawing_next_to_control_survives() {
    let doc = "<w:document><w:body><w:p><w:r><w:drawing><pic:pic/></w:drawing></w:r><w:sdt><w:sdtPr><w:tag w:val=\"RunField\"/><w:text/></w:sdtPr><w:sdtContent><w:r><w:t>Old</w:t></w:r></w:sdtContent></w:sdt></w:p></w:body></w:document>";
    let out = map_one(doc, vec![("RunField".to_string(), "Something new".to_string())], vec![]);
    let expected = "<w:document><w:body><w:p><w:r><w:drawing><pic:pic/></w:drawing></w:r><w:sdt><w:sdtPr><w:tag w:val=\"RunField\"/><w:text/></w:sdtPr><w:sdtContent><w:r><w:t>Something new</w:t></w:r></w:sdtContent></w:sdt></w:p></w:body></w:document>";
    assert_eq!(out, expected);
}

#[test]
fn rich_fragment_is_not_rewrapped() {
    let out = map_one(
        RUN_DOC,
        vec![("RunField".to_string(), "<w:t>Something</w:t><w:cr/><w:t>new</w:t>".to_string())],
        vec![],
    );
    let expected = "<w:document><w:body><w:p><w:sdt><w:sdtPr><w:tag w:val=\"RunField\"/><w:text/></w:sdtPr><w:sdtContent><w:r><w:rPr><w:b/></w:rPr><w:t>Something</w:t><w:cr/><w:t>new</w:t></w:r></w:sdtContent></w:sdt></w:p></w:body></w:document>";
    assert_eq!(out, expected);
}

#[test]
fn paragraph_control_keeps_paragraph_properties() {
    let doc = "<w:document><w:body><w:sdt><w:sdtPr><w:tag w:val=\"Block\"/></w:sdtPr><w:sdtContent><w:p><w:pPr><w:jc w:val=\"center\"/></w:pPr><w:r><w:t>Old</w:t></w:r></w:p></w:sdtContent></w:sdt></w:body></w:document>";
    let out = map_one(doc, vec![("Block".to_string(), "Fresh".to_string())], vec![]);
    let expected = "<w:document><w:body><w:sdt><w:sdtPr><w:tag w:val=\"Block\"/></w:sdtPr><w:sdtContent><w:p><w:pPr><w:jc w:val=\"center\"/></w:pPr><w:r><w:t>Fresh</w:t></w:r></w:p></w:sdtContent></w:sdt></w:body></w:document>";
    assert_eq!(out, expected);
}

#[test]
fn table_fragment_with_nested_paragraph_passes_verbatim() {
    let doc = "<w:document><w:body><w:sdt><w:sdtPr><w:tag w:val=\"MainContent\"/></w:sdtPr><w:sdtContent><w:p><w:r><w:t>Old</w:t></w:r></w:p></w:sdtContent></w:sdt></w:body></w:document>";
    let table = "<w:tbl><w:tr><w:tc><w:p><w:r><w:t>AAA</w:t></w:r></w:p></w:tc></w:tr></w:tbl>";
    let out = map_one(doc, vec![("MainContent".to_string(), table.to_string())], vec![]);
    let expected = "<w:document><w:body><w:sdt><w:sdtPr><w:tag w:val=\"MainContent\"/></w:sdtPr><w:sdtContent><w:tbl><w:tr><w:tc><w:p><w:r><w:t>AAA</w:t></w:r></w:p></w:tc></w:tr></w:tbl></w:sdtContent></w:sdt></w:body></w:document>";
    assert_eq!(out, expected);
}

const ITEM: &str = "<w:sdt><w:sdtPr><w15:repeatingSectionItem/></w:sdtPr><w:sdtContent><w:p><w:sdt><w:sdtPr><w:tag w:val=\"Town\"/><w:text/></w:sdtPr><w:sdtContent><w:r><w:t>T</w:t></w:r></w:sdtContent></w:sdt><w:sdt><w:sdtPr><w:tag w:val=\"Land\"/><w:text/></w:sdtPr><w:sdtContent><w:r><w:t>L</w:t></w:r></w:sdtContent></w:sdt></w:p></w:sdtContent></w:sdt>";

fn repeat_doc() -> String {
    format!(
        "<w:document><w:body><w:sdt><w:sdtPr><w:tag w:val=\"Entry\"/><w15:repeatingSection/></w:sdtPr><w:sdtContent>{}</w:sdtContent></w:sdt></w:body></w:document>",
        ITEM
    )
}

fn filled_item(town: &str, land: &str) -> String {
    format!(
        "<w:sdt><w:sdtPr><w15:repeatingSectionItem/></w:sdtPr><w:sdtContent><w:p><w:sdt><w:sdtPr><w:tag w:val=\"Town\"/><w:text/></w:sdtPr><w:sdtContent><w:r><w:t>{}</w:t></w:r></w:sdtContent></w:sdt><w:sdt><w:sdtPr><w:tag w:val=\"Land\"/><w:text/></w:sdtPr><w:sdtContent><w:r><w:t>{}</w:t></w:r></w:sdtContent></w:sdt></w:p></w:sdtContent></w:sdt>",
        town, land
    )
}

#[test]
fn repeating_section_expands_per_sub_mapping() {
    let sub1: Mapping = vec![
        ("Town".to_string(), "Cottbus".to_string()),
        ("Land".to_string(), "Brandenburg".to_string()),
    ];
    let sub2: Mapping = vec![
        ("Town".to_string(), "Aachen".to_string()),
        ("Land".to_string(), "NRW".to_string()),
    ];
    let repeat: RepeatMapping = vec![("Entry".to_string(), vec![sub1, sub2])];
    let out = map_one(&repeat_doc(), vec![], repeat);
    let expected = format!(
        "<w:document><w:body><w:sdt><w:sdtPr><w:tag w:val=\"Entry\"/><w15:repeatingSection/></w:sdtPr><w:sdtContent>{}{}</w:sdtContent></w:sdt></w:body></w:document>",
        filled_item("Cottbus", "Brandenburg"),
        filled_item("Aachen", "NRW")
    );
    assert_eq!(out, expected);
}

#[test]
fn repeating_section_without_values_drops_items() {
    let out = map_one(&repeat_doc(), vec![], vec![("Entry".to_string(), vec![])]);
    let expected = "<w:document><w:body><w:sdt><w:sdtPr><w:tag w:val=\"Entry\"/><w15:repeatingSection/></w:sdtPr><w:sdtContent></w:sdtContent></w:sdt></w:body></w:document>";
    assert_eq!(out, expected);
}

#[test]
fn missing_sub_mapping_tag_gets_sentinel() {
    let repeat: RepeatMapping = vec![(
        "Entry".to_string(),
        vec![vec![("Town".to_string(), "Cottbus".to_string())]],
    )];
    let out = map_one(&repeat_doc(), vec![], repeat);
    let expected = format!(
        "<w:document><w:body><w:sdt><w:sdtPr><w:tag w:val=\"Entry\"/><w15:repeatingSection/></w:sdtPr><w:sdtContent>{}</w:sdtContent></w:sdt></w:body></w:document>",
        filled_item("Cottbus", "MISSING")
    );
    assert_eq!(out, expected);
}

#[test]
fn malformed_replacement_value_is_rejected() {
    let data: ZipData = vec![part("word/document.xml", RUN_DOC)];
    let docs = get_content_controls(&data).unwrap();
    let mappings: Mapping = vec![("RunField".to_string(), "<a><b></a>".to_string())];
    assert!(map_content_controls(&data, &docs, &mappings, &vec![]).is_err());
}

fn visible_texts(xml: &str) -> Vec<String> {
    let mut out = Vec::new();
    let mut rest = xml;
    while let Some(a) = rest.find("<w:t>") {
        let tail = &rest[a + 5..];
        let b = tail.find("</w:t>").unwrap();
        out.push(tail[..b].to_string());
        rest = &tail[b + 6..];
    }
    out
}

#[test]
fn mapped_text_matches_mapping_in_order() {
    let doc = "<w:document><w:body><w:sdt><w:sdtPr><w:tag w:val=\"First\"/><w:text/></w:sdtPr><w:sdtContent><w:p><w:r><w:t>alpha</w:t></w:r></w:p></w:sdtContent></w:sdt><w:sdt><w:sdtPr><w:tag w:val=\"Second\"/><w:text/></w:sdtPr><w:sdtContent><w:p><w:r><w:t>beta</w:t></w:r></w:p></w:sdtContent></w:sdt></w:body></w:document>";
    let mappings: Mapping = vec![
        ("First".to_string(), "alpha".to_string()),
        ("Second".to_string(), "beta".to_string()),
    ];
    let out = map_one(doc, mappings, vec![]);
    assert_eq!(visible_texts(&out), vec!["alpha".to_string(), "beta".to_string()]);
}
