use vstd::prelude::*;
use std::io::Cursor;
use zip::read::ZipArchive;
use zip::write::ZipWriter;
use crate::engine::{
    docs_fit, map_content_controls, mapped_part_bytes, mapping_scan_ok, mapping_view,
    part_strippable, remove_content_controls, repeat_mapping_view, repeat_scan_ok,
    stripped_part_bytes, Mapping, RepeatMapping, ZipData,
};
use crate::errors::DocxError;
use crate::index::{get_content_controls, part_indexable, spec_controlled_parts, doc_matches, DocumentData};
use crate::writer::{controls_fit, control_fits};
use crate::detect::contains_sdt;
use vstd::utf8::decode_utf8;
use crate::controls::control_views;

verus! {

#[verifier::external_type_specification]
#[verifier::external_body]
#[verifier::reject_recursive_types(T)]
pub struct ExCursor<T>(Cursor<T>);

#[verifier::external_type_specification]
#[verifier::external_body]
#[verifier::reject_recursive_types(R)]
pub struct ExZipArchive<R>(ZipArchive<R>);

/// Holds the archive writer. The writer type's own bounds lie outside what
/// the verifier accepts, so this holder is opaque and is spoken of only
/// through `writer_entries`.
#[verifier::external_body]
pub struct ArchiveWriter {
    inner: ZipWriter<Cursor<Vec<u8>>>,
}

/// The views of a list of parts.
pub open spec fn part_views(parts: Seq<(String, Vec<u8>)>) -> Seq<(Seq<char>, Seq<u8>)> {
    Seq::new(parts.len(), |i: int| (parts[i].0@, parts[i].1@))
}

/// The named entries an archive's bytes decode to, in stored order, or
/// nothing when the container is rejected.
pub uninterp spec fn zip_entries_of(bytes: Seq<u8>) -> Option<Seq<(Seq<char>, Seq<u8>)>>;

/// The entries an opened archive holds.
pub uninterp spec fn archive_entries(a: ZipArchive<Cursor<&[u8]>>) -> Seq<(Seq<char>, Seq<u8>)>;

/// The bytes an opened archive was read from.
pub uninterp spec fn archive_source(a: ZipArchive<Cursor<&[u8]>>) -> Seq<u8>;

/// Whether the entry at `i` of the container's bytes can be read back:
/// its local header, compressed data and checksum are intact. A function
/// of the bytes alone.
pub uninterp spec fn zip_entry_readable(bytes: Seq<u8>, i: int) -> bool;

/// Whether the writer accepts one entry of this name and these bytes: a
/// well-formed name, data within the format's limits. A function of the
/// entry alone; a name written twice is refused separately.
pub uninterp spec fn zip_entry_writable(name: Seq<char>, data: Seq<u8>) -> bool;

/// Whether the writer can close a container holding exactly these entries.
pub uninterp spec fn zip_closeable(entries: Seq<(Seq<char>, Seq<u8>)>) -> bool;

/// The entries written to an archive writer so far.
pub uninterp spec fn writer_entries(w: ArchiveWriter) -> Seq<(Seq<char>, Seq<u8>)>;

/// The archive bytes that writing these entries produces, under the fixed
/// entry options the writer uses.
pub uninterp spec fn zip_encode(entries: Seq<(Seq<char>, Seq<u8>)>) -> Seq<u8>;

/// Whether some entry already carries this name.
pub open spec fn entries_have_name(entries: Seq<(Seq<char>, Seq<u8>)>, name: Seq<char>) -> bool {
    exists|k: int| 0 <= k < entries.len() && (#[trigger] entries[k]).0 == name
}

/// The entries carry pairwise distinct names.
pub open spec fn entry_names_unique(entries: Seq<(Seq<char>, Seq<u8>)>) -> bool {
    forall|i: int, j: int| 0 <= i < j < entries.len() ==> (#[trigger] entries[i]).0 != (
    #[trigger] entries[j]).0
}

/// Relies on zip::ZipArchive::new: opens the container over the bytes and
/// holds its entries; for given bytes the outcome is always the same.
#[verifier::external_body]
fn zip_open(bytes: &[u8]) -> (r: Option<ZipArchive<Cursor<&[u8]>>>)
    ensures
        match r {
            Some(a) => zip_entries_of(bytes@) == Some(archive_entries(a)) && archive_source(a)
                == bytes@,
            None => zip_entries_of(bytes@) == None::<Seq<(Seq<char>, Seq<u8>)>>,
        },
{
    ZipArchive::new(Cursor::new(bytes)).ok()
}

/// Relies on zip::ZipArchive::len: how many entries the archive holds.
#[verifier::external_body]
fn zip_len(a: &ZipArchive<Cursor<&[u8]>>) -> (r: usize)
    ensures
        r == archive_entries(*a).len(),
{
    a.len()
}

/// Relies on zip::ZipArchive::by_index and its entry reader: reads one
/// entry's name and bytes. An entry is refused exactly when it is damaged
/// in the container's bytes, and reading leaves the archive as it was.
#[verifier::external_body]
fn zip_entry(a: &mut ZipArchive<Cursor<&[u8]>>, i: usize) -> (r: Option<(String, Vec<u8>)>)
    requires
        i < archive_entries(*old(a)).len(),
    ensures
        archive_entries(*final(a)) == archive_entries(*old(a)),
        archive_source(*final(a)) == archive_source(*old(a)),
        (r is Some) == zip_entry_readable(archive_source(*old(a)), i as int),
        match r {
            Some(e) => (e.0@, e.1@) == archive_entries(*old(a))[i as int],
            None => true,
        },
{
    match a.by_index(i) {
        Ok(mut f) => {
            let name = f.name().to_string();
            let mut buf = Vec::new();
            match std::io::Read::read_to_end(&mut f, &mut buf) {
                Ok(_) => Some((name, buf)),
                Err(_) => None,
            }
        },
        Err(_) => None,
    }
}

/// Relies on zip::ZipWriter::new: a writer with nothing written yet.
#[verifier::external_body]
fn zip_writer_new() -> (w: ArchiveWriter)
    ensures
        writer_entries(w) == Seq::<(Seq<char>, Seq<u8>)>::empty(),
{
    ArchiveWriter { inner: ZipWriter::new(Cursor::new(Vec::new())) }
}

/// Relies on zip::ZipWriter::start_file and std::io::Write::write_all:
/// appends one entry, stored with deflate compression and permission bits
/// of seven-five-five, as every entry this library writes is. The writer
/// accepts the entry exactly when it is acceptable on its own and its name
/// was not written before; writing into the in-memory buffer itself cannot
/// fail.
#[verifier::external_body]
fn zip_write_entry(w: &mut ArchiveWriter, name: &str, data: &[u8]) -> (r: bool)
    ensures
        r == (zip_entry_writable(name@, data@) && !entries_have_name(
            writer_entries(*old(w)),
            name@,
        )),
        r ==> writer_entries(*final(w)) == writer_entries(*old(w)).push((name@, data@)),
{
    let options = zip::write::SimpleFileOptions::default().compression_method(
        zip::CompressionMethod::Deflated,
    ).unix_permissions(0o755);
    match w.inner.start_file(name, options) {
        Ok(_) => std::io::Write::write_all(&mut w.inner, data).is_ok(),
        Err(_) => false,
    }
}

/// Relies on zip::ZipWriter::finish: closes the container and hands its
/// bytes out. For the same written entries the bytes are always the same,
/// closing succeeds or fails by the written entries alone, and a container
/// of distinctly named entries opens again to exactly those entries, each
/// readable.
#[verifier::external_body]
fn zip_finish(w: ArchiveWriter) -> (r: Option<Vec<u8>>)
    ensures
        match r {
            Some(b) => b@ == zip_encode(writer_entries(w)) && zip_closeable(writer_entries(w)) && (
            entry_names_unique(writer_entries(w)) ==> zip_entries_of(b@) == Some(writer_entries(w))
                && forall|i: int| 0 <= i < writer_entries(w).len() ==> zip_entry_readable(b@, i)),
            None => !zip_closeable(writer_entries(w)),
        },
{
    match w.inner.finish() {
        Ok(c) => Some(c.into_inner()),
        Err(_) => None,
    }
}

/// Reads an archive into its named parts. Succeeds exactly when the
/// container opens and every entry is intact; the parts are then the
/// container's entries in stored order.
pub fn list_zip_contents(bytes: &[u8]) -> (r: Result<ZipData, DocxError>)
    ensures
        match r {
            Ok(parts) => zip_entries_of(bytes@) == Some(part_views(parts@)) && forall|i: int|
                0 <= i < parts@.len() ==> #[trigger] zip_entry_readable(bytes@, i),
            Err(e) => e is Archive && (zip_entries_of(bytes@) is None || exists|i: int|
                0 <= i < zip_entries_of(bytes@)->Some_0.len() && !(#[trigger] zip_entry_readable(
                    bytes@,
                    i,
                ))),
        },
{
    let mut archive = match zip_open(bytes) {
        Some(a) => a,
        None => {
            return Err(DocxError::Archive);
        },
    };
    let n = zip_len(&archive);
    let mut parts: ZipData = Vec::new();
    let mut i: usize = 0;
    while i < n
        invariant
            zip_entries_of(bytes@) == Some(archive_entries(archive)),
            archive_source(archive) == bytes@,
            n == archive_entries(archive).len(),
            i <= n,
            parts@.len() == i,
            forall|k: int| 0 <= k < i ==> (#[trigger] part_views(parts@)[k]) == archive_entries(
                archive,
            )[k],
            forall|k: int| 0 <= k < i ==> #[trigger] zip_entry_readable(bytes@, k),
        decreases n - i,
    {
        let ghost before = parts@;
        match zip_entry(&mut archive, i) {
            Some(e) => {
                parts.push(e);
                proof {
                    assert forall|k: int| 0 <= k < i + 1 implies (#[trigger] part_views(parts@)[k])
                        == archive_entries(archive)[k] by {
                        if k < i as int {
                            assert(parts@[k] == before[k]);
                            assert(part_views(before)[k] == archive_entries(archive)[k]);
                        } else {
                            assert(parts@[k] == parts@.last());
                        }
                    }
                }
            },
            None => {
                proof {
                    assert(!zip_entry_readable(bytes@, i as int));
                }
                return Err(DocxError::Archive);
            },
        }
        i = i + 1;
    }
    proof {
        assert(part_views(parts@) =~= archive_entries(archive));
    }
    Ok(parts)
}

/// Writes named parts as a fresh archive. Succeeds exactly when every
/// entry is acceptable, the names are pairwise distinct, and the container
/// closes; the bytes are then the container holding exactly these parts in
/// order, and they open again to the same parts.
pub fn zip_dir(data: &ZipData) -> (r: Result<Vec<u8>, DocxError>)
    ensures
        match r {
            Ok(b) => {
                &&& b@ == zip_encode(part_views(data@))
                &&& entry_names_unique(part_views(data@))
                &&& zip_closeable(part_views(data@))
                &&& forall|i: int| 0 <= i < data@.len() ==> zip_entry_writable(
                    (#[trigger] data@[i]).0@,
                    data@[i].1@,
                )
                &&& zip_entries_of(b@) == Some(part_views(data@))
                &&& forall|i: int| 0 <= i < data@.len() ==> #[trigger] zip_entry_readable(b@, i)
            },
            Err(e) => e is Archive && {
                ||| exists|i: int| 0 <= i < data@.len() && !zip_entry_writable(
                    (#[trigger] data@[i]).0@,
                    data@[i].1@,
                )
                ||| !entry_names_unique(part_views(data@))
                ||| !zip_closeable(part_views(data@))
            },
        },
{
    let mut w = zip_writer_new();
    let mut i: usize = 0;
    while i < data.len()
        invariant
            i <= data@.len(),
            writer_entries(w) == part_views(data@).take(i as int),
            entry_names_unique(part_views(data@).take(i as int)),
            forall|k: int| 0 <= k < i ==> zip_entry_writable(
                (#[trigger] data@[k]).0@,
                data@[k].1@,
            ),
        decreases data@.len() - i,
    {
        if !zip_write_entry(&mut w, data[i].0.as_str(), data[i].1.as_slice()) {
            proof {
                if zip_entry_writable(data@[i as int].0@, data@[i as int].1@) {
                    let k = choose|k: int| 0 <= k < part_views(data@).take(i as int).len() && (
                    #[trigger] part_views(data@).take(i as int)[k]).0 == data@[i as int].0@;
                    assert(part_views(data@)[k].0 == part_views(data@)[i as int].0);
                    assert(!entry_names_unique(part_views(data@)));
                }
            }
            return Err(DocxError::Archive);
        }
        proof {
            assert(writer_entries(w) =~= part_views(data@).take(i + 1));
            assert forall|a: int, b: int| 0 <= a < b < part_views(data@).take(i + 1).len()
                implies (#[trigger] part_views(data@).take(i + 1)[a]).0 != (
            #[trigger] part_views(data@).take(i + 1)[b]).0 by {
                if b < i as int {
                    assert(part_views(data@).take(i as int)[a].0 != part_views(data@).take(
                        i as int,
                    )[b].0);
                } else {
                    assert(!entries_have_name(part_views(data@).take(i as int), data@[i as int].0@));
                    assert(part_views(data@).take(i as int)[a] == part_views(data@).take(i + 1)[a]);
                }
            }
        }
        i = i + 1;
    }
    proof {
        assert(part_views(data@).take(data@.len() as int) =~= part_views(data@));
    }
    match zip_finish(w) {
        Some(b) => Ok(b),
        None => Err(DocxError::Archive),
    }
}

/// The indexed documents `docs` are exactly what indexing the marker-bearing
/// parts of `parts` yields.
pub open spec fn indexed_docs_ok(parts: Seq<(String, Vec<u8>)>, docs: Seq<(String, DocumentData)>) -> bool {
    &&& forall|i: int| 0 <= i < parts.len() && contains_sdt((#[trigger] parts[i]).1@)
        ==> part_indexable(parts[i].1@)
    &&& docs.len() == spec_controlled_parts(parts).len()
    &&& forall|k: int| 0 <= k < docs.len() ==> (#[trigger] docs[k]).0@ == spec_controlled_parts(
        parts,
    )[k].0 && doc_matches(docs[k].1, decode_utf8(spec_controlled_parts(parts)[k].1))
}

/// The parts one mapping pass produces, given the indexed documents.
pub open spec fn mapped_views(
    parts: Seq<(String, Vec<u8>)>,
    docs: Seq<(String, DocumentData)>,
    m: Seq<(Seq<char>, Seq<char>)>,
    rm: Seq<(Seq<char>, Seq<Seq<(Seq<char>, Seq<char>)>>)>,
) -> Seq<(Seq<char>, Seq<u8>)> {
    Seq::new(parts.len(), |i: int| (parts[i].0@, mapped_part_bytes(parts[i].0@, parts[i].1@, docs, m, rm)))
}

/// Every position of every indexed document fits inside its events, so the
/// substitution writer's demands are met by whatever indexing produced.
pub proof fn lemma_indexed_docs_fit(parts: Seq<(String, Vec<u8>)>, docs: Seq<(String, DocumentData)>)
    requires
        indexed_docs_ok(parts, docs),
    ensures
        docs_fit(docs),
{
    assert forall|i: int| 0 <= i < docs.len() implies controls_fit(
        control_views((#[trigger] docs[i]).1.control_positions@),
        docs[i].1.events@.len() as int,
    ) && docs[i].1.events@.len() <= i32::MAX as int by {
        let text = decode_utf8(spec_controlled_parts(parts)[i].1);
        assert(doc_matches(docs[i].1, text));
        let cs = control_views(docs[i].1.control_positions@);
        let n = docs[i].1.events@.len() as int;
        assert forall|k: int| 0 <= k < cs.len() implies control_fits(#[trigger] cs[k], n) by {
            assert(crate::index::control_valid(cs[k], n));
        }
    }
}

/// The parts a strip pass produces from the container's entries.
pub open spec fn stripped_views(entries: Seq<(Seq<char>, Seq<u8>)>) -> Seq<(Seq<char>, Seq<u8>)> {
    Seq::new(entries.len(), |i: int| (entries[i].0, stripped_part_bytes(entries[i].1)))
}

/// Fills a whole archive: reads its parts, indexes every marker-bearing
/// part, replaces each content control's body under the mappings, and
/// writes the result as a fresh archive. Failure comes only from a
/// container that does not open or holds a damaged entry, a marker-bearing
/// part that cannot be indexed, a replacement value the reader rejects, or
/// a result the writer refuses.
pub fn map_archive(bytes: &[u8], mappings: &Mapping, repeat_mappings: &RepeatMapping) -> (r:
    Result<Vec<u8>, DocxError>)
    ensures
        match r {
            Ok(out) => {
                &&& zip_entries_of(bytes@) is Some
                &&& mapping_scan_ok(mapping_view(mappings@))
                &&& repeat_scan_ok(repeat_mapping_view(repeat_mappings@))
                &&& exists|parts: ZipData, docs: Vec<(String, DocumentData)>|
                    #[trigger] indexed_docs_ok(parts@, docs@) && zip_entries_of(bytes@) == Some(
                        part_views(parts@),
                    ) && {
                        let mapped = mapped_views(
                            parts@,
                            docs@,
                            mapping_view(mappings@),
                            repeat_mapping_view(repeat_mappings@),
                        );
                        out@ == zip_encode(mapped) && zip_entries_of(out@) == Some(mapped)
                    }
            },
            Err(e) => {
                ||| zip_entries_of(bytes@) is None
                ||| exists|i: int| 0 <= i < zip_entries_of(bytes@)->Some_0.len() && !(
                #[trigger] zip_entry_readable(bytes@, i))
                ||| (zip_entries_of(bytes@) matches Some(entries) && exists|i: int| 0 <= i
                    < entries.len() && contains_sdt((#[trigger] entries[i]).1) && !part_indexable(
                    entries[i].1,
                ))
                ||| !mapping_scan_ok(mapping_view(mappings@))
                ||| !repeat_scan_ok(repeat_mapping_view(repeat_mappings@))
                ||| exists|parts: ZipData, docs: Vec<(String, DocumentData)>|
                    #[trigger] indexed_docs_ok(parts@, docs@) && zip_entries_of(bytes@) == Some(
                        part_views(parts@),
                    ) && {
                        let mapped = mapped_views(
                            parts@,
                            docs@,
                            mapping_view(mappings@),
                            repeat_mapping_view(repeat_mappings@),
                        );
                        (exists|i: int| 0 <= i < mapped.len() && !zip_entry_writable(
                            (#[trigger] mapped[i]).0,
                            mapped[i].1,
                        )) || !entry_names_unique(mapped) || !zip_closeable(mapped)
                    }
            },
        },
{
    let parts = list_zip_contents(bytes)?;
    let docs = match get_content_controls(&parts) {
        Ok(d) => d,
        Err(e) => {
            proof {
                let i = choose|i: int| 0 <= i < parts@.len() && contains_sdt(
                    (#[trigger] parts@[i]).1@,
                ) && !part_indexable(parts@[i].1@);
                let entries = zip_entries_of(bytes@)->Some_0;
                assert(entries[i] == part_views(parts@)[i]);
                assert(contains_sdt(entries[i].1) && !part_indexable(entries[i].1));
            }
            return Err(e);
        },
    };
    proof {
        lemma_indexed_docs_fit(parts@, docs@);
    }
    let mapped = map_content_controls(&parts, &docs, mappings, repeat_mappings)?;
    let ghost mapped_model = mapped_views(
        parts@,
        docs@,
        mapping_view(mappings@),
        repeat_mapping_view(repeat_mappings@),
    );
    proof {
        assert(part_views(mapped@) =~= mapped_model);
    }
    match zip_dir(&mapped) {
        Ok(out) => {
            proof {
                assert(indexed_docs_ok(parts@, docs@) && zip_entries_of(bytes@) == Some(
                    part_views(parts@),
                ) && out@ == zip_encode(mapped_model) && zip_entries_of(out@) == Some(
                    mapped_model,
                ));
            }
            Ok(out)
        },
        Err(e) => {
            proof {
                if exists|i: int| 0 <= i < mapped@.len() && !zip_entry_writable(
                    (#[trigger] mapped@[i]).0@,
                    mapped@[i].1@,
                ) {
                    let i = choose|i: int| 0 <= i < mapped@.len() && !zip_entry_writable(
                        (#[trigger] mapped@[i]).0@,
                        mapped@[i].1@,
                    );
                    assert(mapped_model[i] == part_views(mapped@)[i]);
                    assert(!zip_entry_writable(mapped_model[i].0, mapped_model[i].1));
                }
                assert(indexed_docs_ok(parts@, docs@));
            }
            Err(e)
        },
    }
}

/// Clears a whole archive: reads its parts, strips every marker-bearing
/// part of its content-control framing, and writes the result as a fresh
/// archive. Failure comes only from a container that does not open or
/// holds a damaged entry, a marker-bearing part that cannot be stripped,
/// or a result the writer refuses.
pub fn strip_archive(bytes: &[u8]) -> (r: Result<Vec<u8>, DocxError>)
    ensures
        match r {
            Ok(out) => zip_entries_of(bytes@) matches Some(entries) && (forall|i: int|
                0 <= i < entries.len() && contains_sdt((#[trigger] entries[i]).1)
                    ==> part_strippable(entries[i].1)) && out@ == zip_encode(
                stripped_views(entries),
            ) && zip_entries_of(out@) == Some(stripped_views(entries)),
            Err(e) => {
                ||| zip_entries_of(bytes@) is None
                ||| exists|i: int| 0 <= i < zip_entries_of(bytes@)->Some_0.len() && !(
                #[trigger] zip_entry_readable(bytes@, i))
                ||| (zip_entries_of(bytes@) matches Some(entries) && exists|i: int| 0 <= i
                    < entries.len() && contains_sdt((#[trigger] entries[i]).1) && !part_strippable(
                    entries[i].1,
                ))
                ||| (zip_entries_of(bytes@) matches Some(entries) && ((exists|i: int| 0 <= i
                    < stripped_views(entries).len() && !zip_entry_writable(
                    (#[trigger] stripped_views(entries)[i]).0,
                    stripped_views(entries)[i].1,
                )) || !entry_names_unique(stripped_views(entries)) || !zip_closeable(
                    stripped_views(entries),
                )))
            },
        },
{
    let parts = list_zip_contents(bytes)?;
    let ghost entries = zip_entries_of(bytes@)->Some_0;
    let stripped = match remove_content_controls(&parts) {
        Ok(s) => s,
        Err(e) => {
            proof {
                let i = choose|i: int| 0 <= i < parts@.len() && contains_sdt(
                    (#[trigger] parts@[i]).1@,
                ) && !part_strippable(parts@[i].1@);
                assert(entries[i] == part_views(parts@)[i]);
                assert(contains_sdt(entries[i].1) && !part_strippable(entries[i].1));
            }
            return Err(e);
        },
    };
    proof {
        assert forall|i: int| 0 <= i < entries.len() && contains_sdt((#[trigger] entries[i]).1)
            implies part_strippable(entries[i].1) by {
            assert(entries[i] == part_views(parts@)[i]);
            assert(entries[i].1 == parts@[i].1@);
        }
        assert(part_views(stripped@) =~= stripped_views(entries));
    }
    match zip_dir(&stripped) {
        Ok(out) => Ok(out),
        Err(e) => {
            proof {
                if exists|i: int| 0 <= i < stripped@.len() && !zip_entry_writable(
                    (#[trigger] stripped@[i]).0@,
                    stripped@[i].1@,
                ) {
                    let i = choose|i: int| 0 <= i < stripped@.len() && !zip_entry_writable(
                        (#[trigger] stripped@[i]).0@,
                        stripped@[i].1@,
                    );
                    assert(stripped_views(entries)[i] == part_views(stripped@)[i]);
                    assert(!zip_entry_writable(
                        stripped_views(entries)[i].0,
                        stripped_views(entries)[i].1,
                    ));
                }
            }
            Err(e)
        },
    }
}

} // verus!
