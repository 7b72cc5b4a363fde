use docx_cc::archive::{list_zip_contents, map_archive, strip_archive, zip_dir};
use docx_cc::engine::{Mapping, RepeatMapping, ZipData};

const SIMPLE_DOC: &str = "<w:document><w:body><w:sdt><w:sdtPr><w:tag w:val=\"Title\"/><w:text/></w:sdtPr><w:sdtContent><w:p><w:r><w:t>Old</w:t></w:r></w:p></w:sdtContent></w:sdt></w:body></w:document>";

fn sample_parts() -> ZipData {
    vec![
        ("word/document.xml".to_string(), SIMPLE_DOC.as_bytes().to_vec()),
        ("media/blob.bin".to_string(), vec![1u8, 2, 3, 60, 0, 255]),
    ]
}

#[test]
fn zip_round_trip_preserves_parts() {
    let parts = sample_parts();
    let bytes = zip_dir(&parts).unwrap();
    let back = list_zip_contents(&bytes).unwrap();
    assert_eq!(back.len(), parts.len());
    for i in 0..parts.len() {
        assert_eq!(back[i].0, parts[i].0);
        assert_eq!(back[i].1, parts[i].1);
    }
}

#[test]
fn corrupt_archive_is_rejected() {
    assert!(list_zip_contents(b"this is not an archive at all").is_err());
}

#[test]
fn map_archive_replaces_body() {
    let parts = sample_parts();
    let bytes = zip_dir(&parts).unwrap();
    let mappings: Mapping = vec![("Title".to_string(), "Brave New World".to_string())];
    let repeat: RepeatMapping = vec![];
    let mapped = map_archive(&bytes, &mappings, &repeat).unwrap();
    let back = list_zip_contents(&mapped).unwrap();
    let doc = String::from_utf8(back[0].1.clone()).unwrap();
    let expected = "<w:document><w:body><w:sdt><w:sdtPr><w:tag w:val=\"Title\"/><w:text/></w:sdtPr><w:sdtContent><w:p><w:r><w:t>Brave New World</w:t></w:r></w:p></w:sdtContent></w:sdt></w:body></w:document>";
    assert_eq!(doc, expected);
    assert_eq!(back[1].1, parts[1].1);
}

#[test]
fn strip_archive_clears_framing() {
    let parts = sample_parts();
    let bytes = zip_dir(&parts).unwrap();
    let stripped = strip_archive(&bytes).unwrap();
    let back = list_zip_contents(&stripped).unwrap();
    let doc = String::from_utf8(back[0].1.clone()).unwrap();
    assert_eq!(doc, "<w:document><w:body><w:p><w:r><w:t>Old</w:t></w:r></w:p></w:body></w:document>");
    assert_eq!(back[1].1, parts[1].1);
}

#[test]
fn strip_archive_is_idempotent_here() {
    let parts = sample_parts();
    let bytes = zip_dir(&parts).unwrap();
    let once = strip_archive(&bytes).unwrap();
    let twice = strip_archive(&once).unwrap();
    assert_eq!(list_zip_contents(&once).unwrap(), list_zip_contents(&twice).unwrap());
}

#[test]
fn duplicate_part_names_are_refused() {
    let parts: ZipData = vec![
        ("word/a.xml".to_string(), b"x".to_vec()),
        ("word/a.xml".to_string(), b"y".to_vec()),
    ];
    assert!(zip_dir(&parts).is_err());
}
