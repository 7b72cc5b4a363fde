use vstd::prelude::*;
use vstd::slice::slice_to_vec;
use vstd::utf8::{decode_utf8, encode_utf8, valid_utf8, encode_utf8_decode_utf8};
use crate::controls::control_views;
use crate::detect::{contains_sdt, has_content_control};
use crate::errors::{DocxError, PartError};
use crate::events::{EventModel, RawEvent, event_views};
use crate::index::{part_events, part_small, DocumentData};
use crate::scanner::{plain_text, scan_events, scan_ok, scanned_events};
use crate::writer::{
    controls_fit, frag_map_view, map_part, map_part_chars, repeat_map_view, strip_part,
    strip_part_chars, ParsedMapping, ParsedRepeatMapping,
};

verus! {

/// A flat mapping: tag identifiers to raw replacement fragments.
pub type Mapping = Vec<(String, String)>;

/// A repeat mapping: tag identifiers to ordered sub-mappings, one per
/// section instance to produce.
pub type RepeatMapping = Vec<(String, Vec<Mapping>)>;

/// The parts of a document container: part names to byte blobs.
pub type ZipData = Vec<(String, Vec<u8>)>;

/// The view of a flat mapping.
pub open spec fn mapping_view(m: Seq<(String, String)>) -> Seq<(Seq<char>, Seq<char>)> {
    Seq::new(m.len(), |i: int| (m[i].0@, m[i].1@))
}

/// The view of a repeat mapping.
pub open spec fn repeat_mapping_view(rm: Seq<(String, Vec<Mapping>)>) -> Seq<(Seq<char>, Seq<Seq<(Seq<char>, Seq<char>)>>)> {
    Seq::new(rm.len(), |i: int| (rm[i].0@, Seq::new(rm[i].1@.len(), |k: int| mapping_view(rm[i].1@[k]@))))
}

/// Every replacement value in the mapping is accepted by the reader.
pub open spec fn mapping_scan_ok(m: Seq<(Seq<char>, Seq<char>)>) -> bool {
    forall|i: int| 0 <= i < m.len() ==> scan_ok((#[trigger] m[i]).1)
}

/// Every replacement value in the repeat mapping is accepted by the reader.
pub open spec fn repeat_scan_ok(rm: Seq<(Seq<char>, Seq<Seq<(Seq<char>, Seq<char>)>>)>) -> bool {
    forall|i: int, k: int| 0 <= i < rm.len() && 0 <= k < rm[i].1.len() ==> mapping_scan_ok(
        #[trigger] rm[i].1[k],
    )
}

/// Each replacement value scanned into its event fragment.
pub open spec fn mapping_frags(m: Seq<(Seq<char>, Seq<char>)>) -> Seq<(Seq<char>, Seq<EventModel>)> {
    Seq::new(m.len(), |i: int| (m[i].0, scanned_events(m[i].1)))
}

/// Each repeat replacement value scanned into its event fragment.
pub open spec fn repeat_frags(rm: Seq<(Seq<char>, Seq<Seq<(Seq<char>, Seq<char>)>>)>) -> Seq<(Seq<char>, Seq<Seq<(Seq<char>, Seq<EventModel>)>>)> {
    Seq::new(rm.len(), |i: int| (rm[i].0, Seq::new(rm[i].1.len(), |k: int| mapping_frags(rm[i].1[k]))))
}

/// The fragment standing in for a tag no mapping knows: the literal
/// sentinel text.
pub open spec fn missing_frag() -> Seq<EventModel> {
    seq![(EventModel::Text { content: "MISSING"@ })]
}

/// Scans the sentinel for missing tags into its fragment: the reader
/// delivers the plain sentinel text as one text event.
fn missing_fragment() -> (r: Vec<RawEvent>)
    ensures
        event_views(r@) == missing_frag(),
{
    proof {
        reveal_strlit("MISSING");
        assert(plain_text("MISSING"@)) by {
            assert("MISSING"@.len() == 7);
        }
    }
    match scan_events("MISSING") {
        Ok(mut evs) => {
            let ghost pre = evs@;
            proof {
                assert(scanned_events("MISSING"@) =~= missing_frag());
                assert(event_views(pre).len() == 2);
            }
            let _ = evs.pop();
            proof {
                assert(event_views(evs@)[0] == pre[0]@);
                assert(event_views(pre)[0] == pre[0]@);
                assert(event_views(pre)[0] == missing_frag().push(EventModel::Eof)[0]);
                assert(event_views(evs@) =~= missing_frag());
            }
            evs
        },
        Err(_) => {
            proof {
                assert(scan_ok("MISSING"@));
                assert(false);
            }
            Vec::new()
        },
    }
}

/// Scans every replacement value of a flat mapping into its fragment,
/// dropping the closing end-of-input event. A rejected value is reported
/// under its tag with the reader's position.
fn parse_mapping(m: &Mapping) -> (r: Result<ParsedMapping, (String, u64)>)
    ensures
        match r {
            Ok(pm) => mapping_scan_ok(mapping_view(m@)) && frag_map_view(pm@) == mapping_frags(
                mapping_view(m@),
            ),
            Err(e) => !mapping_scan_ok(mapping_view(m@)),
        },
{
    let mut pm: ParsedMapping = Vec::new();
    let mut i: usize = 0;
    while i < m.len()
        invariant
            i <= m@.len(),
            pm@.len() == i,
            forall|k: int| 0 <= k < i ==> scan_ok((#[trigger] mapping_view(m@)[k]).1),
            forall|k: int| 0 <= k < i ==> #[trigger] frag_map_view(pm@)[k] == mapping_frags(
                mapping_view(m@),
            )[k],
        decreases m@.len() - i,
    {
        match scan_events(m[i].1.as_str()) {
            Ok(mut evs) => {
                let ghost scanned = scanned_events(m@[i as int].1@);
                let ghost pre = evs@;
                proof {
                    assert(event_views(pre) == scanned.push(EventModel::Eof));
                    assert(event_views(pre).len() == scanned.len() + 1);
                }
                let _ = evs.pop();
                proof {
                    assert forall|k2: int| 0 <= k2 < evs@.len() implies event_views(evs@)[k2]
                        == scanned[k2] by {
                        assert(event_views(evs@)[k2] == evs@[k2]@);
                        assert(evs@[k2] == pre[k2]);
                        assert(event_views(pre)[k2] == pre[k2]@);
                        assert(event_views(pre)[k2] == scanned.push(EventModel::Eof)[k2]);
                    }
                    assert(event_views(evs@) =~= scanned);
                }
                let ghost pm_before = pm@;
                pm.push((m[i].0.clone(), evs));
                proof {
                    assert forall|k: int| 0 <= k < i + 1 implies #[trigger] frag_map_view(pm@)[k]
                        == mapping_frags(mapping_view(m@))[k] by {
                        if k < i as int {
                            assert(pm@[k] == pm_before[k]);
                            assert(frag_map_view(pm_before)[k] == mapping_frags(
                                mapping_view(m@),
                            )[k]);
                        } else {
                            assert(pm@[k] == pm@.last());
                            assert(event_views(pm@[k].1@) == scanned);
                            assert(mapping_view(m@)[k] == (m@[i as int].0@, m@[i as int].1@));
                        }
                    }
                }
            },
            Err(position) => {
                proof {
                    assert(!scan_ok((mapping_view(m@)[i as int]).1));
                }
                return Err((m[i].0.clone(), position));
            },
        }
        i = i + 1;
    }
    proof {
        assert(frag_map_view(pm@) =~= mapping_frags(mapping_view(m@)));
    }
    Ok(pm)
}

/// Scans every replacement value of a repeat mapping into its fragment.
fn parse_repeat_mapping(rm: &RepeatMapping) -> (r: Result<ParsedRepeatMapping, (String, u64)>)
    ensures
        match r {
            Ok(prm) => repeat_scan_ok(repeat_mapping_view(rm@)) && repeat_map_view(prm@)
                == repeat_frags(repeat_mapping_view(rm@)),
            Err(e) => !repeat_scan_ok(repeat_mapping_view(rm@)),
        },
{
    let ghost rmv = repeat_mapping_view(rm@);
    let mut prm: ParsedRepeatMapping = Vec::new();
    let mut i: usize = 0;
    while i < rm.len()
        invariant
            rmv == repeat_mapping_view(rm@),
            i <= rm@.len(),
            prm@.len() == i,
            forall|a: int, k: int| 0 <= a < i && 0 <= k < rmv[a].1.len() ==> mapping_scan_ok(
                #[trigger] rmv[a].1[k],
            ),
            forall|a: int| 0 <= a < i ==> #[trigger] repeat_map_view(prm@)[a] == repeat_frags(
                rmv,
            )[a],
        decreases rm@.len() - i,
    {
        let mut values: Vec<ParsedMapping> = Vec::new();
        let mut k: usize = 0;
        while k < rm[i].1.len()
            invariant
                rmv == repeat_mapping_view(rm@),
                i < rm@.len(),
                k <= rm@[i as int].1@.len(),
                values@.len() == k,
                rmv[i as int].1.len() == rm@[i as int].1@.len(),
                forall|k2: int| 0 <= k2 < k ==> mapping_scan_ok(#[trigger] rmv[i as int].1[k2]),
                forall|k2: int| 0 <= k2 < k ==> #[trigger] frag_map_view(values@[k2]@)
                    == mapping_frags(rmv[i as int].1[k2]),
            decreases rm@[i as int].1@.len() - k,
        {
            proof {
                assert(rmv[i as int].1[k as int] == mapping_view(rm@[i as int].1@[k as int]@));
            }
            match parse_mapping(&rm[i].1[k]) {
                Ok(pm) => {
                    values.push(pm);
                },
                Err(e) => {
                    return Err(e);
                },
            }
            k = k + 1;
        }
        let ghost prm_before = prm@;
        let ghost vals = values@;
        prm.push((rm[i].0.clone(), values));
        proof {
            assert forall|a: int| 0 <= a < i + 1 implies #[trigger] repeat_map_view(prm@)[a]
                == repeat_frags(rmv)[a] by {
                if a < i as int {
                    assert(prm@[a] == prm_before[a]);
                    assert(repeat_map_view(prm_before)[a] == repeat_frags(rmv)[a]);
                } else {
                    assert(prm@[a] == prm@.last());
                    assert(prm@[a].1@ == vals);
                    assert(Seq::new(vals.len(), |k2: int| frag_map_view(vals[k2]@)) =~= Seq::new(
                        rmv[a].1.len(),
                        |k2: int| mapping_frags(rmv[a].1[k2]),
                    ));
                    assert(repeat_map_view(prm@)[a] == (prm@[a].0@, Seq::new(
                        vals.len(),
                        |k2: int| frag_map_view(vals[k2]@),
                    )));
                    assert(repeat_frags(rmv)[a] == (rmv[a].0, Seq::new(
                        rmv[a].1.len(),
                        |k2: int| mapping_frags(rmv[a].1[k2]),
                    )));
                    assert(rmv[a].0 == rm@[i as int].0@);
                }
            }
        }
        i = i + 1;
    }
    proof {
        assert(repeat_map_view(prm@) =~= repeat_frags(rmv));
    }
    Ok(prm)
}

/// Relies on String::into_bytes: the string's UTF-8 bytes, unchanged.
#[verifier::external_body]
pub(crate) fn string_into_bytes(s: String) -> (r: Vec<u8>)
    ensures
        r@ == encode_utf8(s@),
{
    s.into_bytes()
}

/// The first indexed document stored under this part name, if any.
pub open spec fn doc_lookup_from(docs: Seq<(String, DocumentData)>, name: Seq<char>, i: int) -> Option<DocumentData>
    decreases docs.len() - i,
{
    if i < 0 || i >= docs.len() {
        None
    } else if docs[i].0@ == name {
        Some(docs[i].1)
    } else {
        doc_lookup_from(docs, name, i + 1)
    }
}

/// The indexed document stored under this part name, if any.
pub open spec fn doc_lookup(docs: Seq<(String, DocumentData)>, name: Seq<char>) -> Option<DocumentData> {
    doc_lookup_from(docs, name, 0)
}

fn lookup_doc<'a>(docs: &'a Vec<(String, DocumentData)>, name: &String) -> (r: Option<
    &'a DocumentData,
>)
    ensures
        match r {
            Some(d) => doc_lookup(docs@, name@) == Some(*d),
            None => doc_lookup(docs@, name@) == None::<DocumentData>,
        },
{
    let mut i: usize = 0;
    while i < docs.len()
        invariant
            i <= docs@.len(),
            doc_lookup(docs@, name@) == doc_lookup_from(docs@, name@, i as int),
        decreases docs@.len() - i,
    {
        if docs[i].0 == *name {
            return Some(&docs[i].1);
        }
        i = i + 1;
    }
    None
}

proof fn lemma_doc_lookup_found(docs: Seq<(String, DocumentData)>, name: Seq<char>, i: int)
    requires
        doc_lookup_from(docs, name, i) is Some,
    ensures
        exists|k: int| i <= k < docs.len() && (#[trigger] docs[k]).1 == doc_lookup_from(
            docs,
            name,
            i,
        )->Some_0,
    decreases docs.len() - i,
{
    if 0 <= i < docs.len() {
        if docs[i].0@ == name {
            assert(i <= i < docs.len() && docs[i].1 == doc_lookup_from(docs, name, i)->Some_0);
        } else {
            lemma_doc_lookup_found(docs, name, i + 1);
        }
    }
}

/// The writer can run over every indexed document handed in: each one's
/// positions fit inside its events, whose offsets fit the position fields.
pub open spec fn docs_fit(docs: Seq<(String, DocumentData)>) -> bool {
    forall|i: int| 0 <= i < docs.len() ==> controls_fit(
        control_views((#[trigger] docs[i]).1.control_positions@),
        docs[i].1.events@.len() as int,
    ) && docs[i].1.events@.len() <= i32::MAX as int
}

/// The bytes one part maps to: a part with an indexed document is rewritten
/// from its events and positions, any other part is untouched.
pub open spec fn mapped_part_bytes(
    name: Seq<char>,
    bytes: Seq<u8>,
    docs: Seq<(String, DocumentData)>,
    m: Seq<(Seq<char>, Seq<char>)>,
    rm: Seq<(Seq<char>, Seq<Seq<(Seq<char>, Seq<char>)>>)>,
) -> Seq<u8> {
    match doc_lookup(docs, name) {
        Some(doc) => encode_utf8(
            map_part_chars(
                event_views(doc.events@),
                control_views(doc.control_positions@),
                mapping_frags(m),
                repeat_frags(rm),
                missing_frag(),
            ),
        ),
        None => bytes,
    }
}

/// Rewrites every part that was indexed: each content control's body is
/// replaced under the mappings, with the sentinel standing in for unknown
/// tags; parts without an indexed document pass through unchanged.
/// Succeeds exactly when the reader accepts every replacement value: the
/// values are all scanned up front, so a malformed value is reported even
/// when no control carries its tag.
pub fn map_content_controls(
    data: &ZipData,
    controlled: &Vec<(String, DocumentData)>,
    mappings: &Mapping,
    repeat_mappings: &RepeatMapping,
) -> (r: Result<ZipData, DocxError>)
    requires
        docs_fit(controlled@),
    ensures
        match r {
            Ok(out) => {
                &&& mapping_scan_ok(mapping_view(mappings@))
                &&& repeat_scan_ok(repeat_mapping_view(repeat_mappings@))
                &&& out@.len() == data@.len()
                &&& forall|i: int| 0 <= i < data@.len() ==> (#[trigger] out@[i]).0@ == data@[i].0@
                    && out@[i].1@ == mapped_part_bytes(
                    data@[i].0@,
                    data@[i].1@,
                    controlled@,
                    mapping_view(mappings@),
                    repeat_mapping_view(repeat_mappings@),
                )
            },
            Err(e) => !mapping_scan_ok(mapping_view(mappings@)) || !repeat_scan_ok(
                repeat_mapping_view(repeat_mappings@),
            ),
        },
{
    let pm = match parse_mapping(mappings) {
        Ok(pm) => pm,
        Err((part, position)) => {
            return Err(DocxError::Parse { part, position });
        },
    };
    let prm = match parse_repeat_mapping(repeat_mappings) {
        Ok(prm) => prm,
        Err((part, position)) => {
            return Err(DocxError::Parse { part, position });
        },
    };
    let missing = missing_fragment();
    let mut out: ZipData = Vec::new();
    let mut i: usize = 0;
    while i < data.len()
        invariant
            docs_fit(controlled@),
            frag_map_view(pm@) == mapping_frags(mapping_view(mappings@)),
            repeat_map_view(prm@) == repeat_frags(repeat_mapping_view(repeat_mappings@)),
            event_views(missing@) == missing_frag(),
            i <= data@.len(),
            out@.len() == i,
            forall|k: int| 0 <= k < i ==> (#[trigger] out@[k]).0@ == data@[k].0@ && out@[k].1@
                == mapped_part_bytes(
                data@[k].0@,
                data@[k].1@,
                controlled@,
                mapping_view(mappings@),
                repeat_mapping_view(repeat_mappings@),
            ),
        decreases data@.len() - i,
    {
        let name = &data[i].0;
        match lookup_doc(controlled, name) {
            Some(doc) => {
                proof {
                    lemma_doc_lookup_found(controlled@, name@, 0);
                }
                let text = map_part(&doc.events, &doc.control_positions, &pm, &prm, &missing);
                out.push((name.clone(), string_into_bytes(text)));
            },
            None => {
                out.push((name.clone(), slice_to_vec(data[i].1.as_slice())));
            },
        }
        i = i + 1;
    }
    Ok(out)
}

/// The bytes one part strips to: a part carrying the marker of a structured
/// document tag loses all control framing and parameters, any other part is
/// untouched.
pub open spec fn stripped_part_bytes(bytes: Seq<u8>) -> Seq<u8> {
    if contains_sdt(bytes) {
        encode_utf8(strip_part_chars(part_events(decode_utf8(bytes))))
    } else {
        bytes
    }
}

/// A part the stripper can rewrite: its bytes are UTF-8, accepted by the
/// reader, and its offsets fit.
pub open spec fn part_strippable(bytes: Seq<u8>) -> bool {
    valid_utf8(bytes) && scan_ok(decode_utf8(bytes)) && part_small(decode_utf8(bytes))
}

/// Removes all content controls while retaining their bodies: in every part
/// that carries the marker of a structured document tag, the control
/// framing and parameter blocks are erased and everything else survives in
/// order; other parts pass through byte for byte. Succeeds exactly when
/// every marker-bearing part is UTF-8 the reader accepts.
pub fn remove_content_controls(data: &ZipData) -> (r: Result<ZipData, DocxError>)
    ensures
        match r {
            Ok(out) => {
                &&& forall|i: int| 0 <= i < data@.len() && contains_sdt((#[trigger] data@[i]).1@)
                    ==> part_strippable(data@[i].1@)
                &&& out@.len() == data@.len()
                &&& forall|i: int| 0 <= i < data@.len() ==> (#[trigger] out@[i]).0@ == data@[i].0@
                    && out@[i].1@ == stripped_part_bytes(data@[i].1@)
            },
            Err(e) => exists|i: int| 0 <= i < data@.len() && contains_sdt((#[trigger] data@[i]).1@)
                && !part_strippable(data@[i].1@) && match e {
                DocxError::Encoding { part } => part@ == data@[i].0@ && !valid_utf8(data@[i].1@),
                DocxError::Parse { part, position } => part@ == data@[i].0@ && valid_utf8(
                    data@[i].1@,
                ) && !scan_ok(decode_utf8(data@[i].1@)),
                DocxError::Structure { part } => part@ == data@[i].0@ && valid_utf8(data@[i].1@)
                    && scan_ok(decode_utf8(data@[i].1@)) && !part_small(decode_utf8(data@[i].1@)),
                _ => false,
            },
        },
{
    let mut out: ZipData = Vec::new();
    let mut i: usize = 0;
    while i < data.len()
        invariant
            i <= data@.len(),
            out@.len() == i,
            forall|k: int| 0 <= k < i && contains_sdt((#[trigger] data@[k]).1@)
                ==> part_strippable(data@[k].1@),
            forall|k: int| 0 <= k < i ==> (#[trigger] out@[k]).0@ == data@[k].0@ && out@[k].1@
                == stripped_part_bytes(data@[k].1@),
        decreases data@.len() - i,
    {
        let name = &data[i].0;
        let bytes = &data[i].1;
        if has_content_control(bytes.as_slice()) {
            let text = match crate::index::bytes_as_str(bytes.as_slice()) {
                Some(t) => t,
                None => {
                    return Err(DocxError::Encoding { part: name.clone() });
                },
            };
            proof {
                encode_utf8_decode_utf8(text@);
                assert(decode_utf8(bytes@) == text@);
            }
            match strip_part(text) {
                Ok(stripped) => {
                    out.push((name.clone(), string_into_bytes(stripped)));
                },
                Err(PartError::Parse { position }) => {
                    return Err(DocxError::Parse { part: name.clone(), position });
                },
                Err(PartError::Structure {  }) => {
                    return Err(DocxError::Structure { part: name.clone() });
                },
            }
        } else {
            out.push((name.clone(), slice_to_vec(bytes.as_slice())));
        }
        i = i + 1;
    }
    Ok(out)
}

} // verus!
