use vstd::prelude::*;
use crate::controls::ControlModel;
use crate::detect::contains_sdt;
use crate::engine::{mapped_part_bytes, mapping_frags, missing_frag, repeat_frags, stripped_part_bytes, doc_lookup, doc_lookup_from};
use crate::events::{EventModel, event_chars};
use crate::index::{spec_controlled_parts, valid_positions, DocumentData};
use crate::archive::indexed_docs_ok;
use crate::writer::{
    event_declares_name, events_range_chars, first_intersecting, frag_chars, frag_for,
    frag_lookup_from, frag_has_name, map_chars_from, params_chars, wrap_tags, write_content_chars,
    write_wrap_chars,
};
use crate::controls::{spec_has_paragraph_params, spec_has_run_params};
use crate::controls::ContentControlType;

verus! {

/// Law: in an indexed part every position is internally ordered: its
/// opening event comes before its body's opening, the body's opening before
/// the body's closing, and the body's closing before the position's closing
/// event, whenever all four offsets are set. The indexer refuses any part
/// whose positions violate this.
pub proof fn lemma_position_offsets_ordered(cs: Seq<ControlModel>, n: int, i: int)
    requires
        valid_positions(cs, n),
        0 <= i < cs.len(),
        cs[i].begin != -1,
        cs[i].content_begin != -1,
        cs[i].content_end != -1,
        cs[i].end != -1,
    ensures
        cs[i].begin < cs[i].content_begin,
        cs[i].content_begin < cs[i].content_end,
        cs[i].content_end < cs[i].end,
{
}

/// Law: in an indexed part the positions are strictly ordered by their
/// opening offsets, so no two share the same opening event.
pub proof fn lemma_positions_strictly_sorted(cs: Seq<ControlModel>, n: int, i: int, j: int)
    requires
        valid_positions(cs, n),
        0 <= i < j < cs.len(),
    ensures
        cs[i].begin < cs[j].begin,
{
}

/// Law: in an indexed part any two positions' event ranges are either
/// disjoint or one contains the other.
pub proof fn lemma_positions_disjoint_or_nested(cs: Seq<ControlModel>, n: int, i: int, j: int)
    requires
        valid_positions(cs, n),
        0 <= i < cs.len(),
        0 <= j < cs.len(),
        i != j,
    ensures
        cs[i].end < cs[j].begin || cs[j].end < cs[i].begin || (cs[i].begin <= cs[j].begin
            && cs[j].end <= cs[i].end) || (cs[j].begin <= cs[i].begin && cs[i].end <= cs[j].end),
{
}

/// Law: stripping is idempotent on marker-free parts: a part of a stripped
/// document that no longer carries the marker of a structured document tag
/// passes through a second strip byte for byte.
pub proof fn lemma_strip_idempotent_on_clean(b: Seq<u8>)
    ensures
        !contains_sdt(stripped_part_bytes(b)) ==> stripped_part_bytes(stripped_part_bytes(b))
            == stripped_part_bytes(b),
{
}

/// Law: a part without the marker of a structured document tag passes
/// through a strip byte for byte.
pub proof fn lemma_marker_free_part_strips_unchanged(b: Seq<u8>)
    requires
        !contains_sdt(b),
    ensures
        stripped_part_bytes(b) == b,
{
}

/// Law: a part under no indexed document passes through a mapping pass byte
/// for byte.
pub proof fn lemma_unindexed_part_maps_unchanged(
    name: Seq<char>,
    b: Seq<u8>,
    docs: Seq<(String, DocumentData)>,
    m: Seq<(Seq<char>, Seq<char>)>,
    rm: Seq<(Seq<char>, Seq<Seq<(Seq<char>, Seq<char>)>>)>,
)
    requires
        doc_lookup(docs, name) is None,
    ensures
        mapped_part_bytes(name, b, docs, m, rm) == b,
{
}

/// Every entry of the marker-bearing selection restates one part that
/// carries the marker.
proof fn lemma_controlled_parts_elem(parts: Seq<(String, Vec<u8>)>, k: int)
    requires
        0 <= k < spec_controlled_parts(parts).len(),
    ensures
        exists|j: int| 0 <= j < parts.len() && #[trigger] spec_controlled_parts(parts)[k] == (
        parts[j].0@,
        parts[j].1@,
        ) && contains_sdt(parts[j].1@),
    decreases parts.len(),
{
    if parts.len() > 0 {
        let rest = spec_controlled_parts(parts.drop_last());
        if contains_sdt(parts.last().1@) && k == rest.len() {
            let j = parts.len() - 1;
            assert(spec_controlled_parts(parts)[k] == (parts[j].0@, parts[j].1@) && contains_sdt(
                parts[j].1@,
            ));
        } else {
            lemma_controlled_parts_elem(parts.drop_last(), k);
            let j = choose|j: int| 0 <= j < parts.drop_last().len()
                && #[trigger] spec_controlled_parts(parts.drop_last())[k] == (
            parts.drop_last()[j].0@,
            parts.drop_last()[j].1@,
            ) && contains_sdt(parts.drop_last()[j].1@);
            assert(parts.drop_last()[j] == parts[j]);
            assert(spec_controlled_parts(parts)[k] == (parts[j].0@, parts[j].1@) && contains_sdt(
                parts[j].1@,
            ));
        }
    }
}

proof fn lemma_doc_lookup_none(docs: Seq<(String, DocumentData)>, name: Seq<char>, i: int)
    requires
        0 <= i <= docs.len(),
        forall|k: int| i <= k < docs.len() ==> (#[trigger] docs[k]).0@ != name,
    ensures
        doc_lookup_from(docs, name, i) is None,
    decreases docs.len() - i,
{
    if i < docs.len() {
        lemma_doc_lookup_none(docs, name, i + 1);
    }
}

/// Law: a part whose name no marker-bearing part carries passes through a
/// mapping pass byte for byte. In particular a marker-free part does, as
/// long as no other part of the same name carries the marker.
pub proof fn lemma_marker_free_part_maps_unchanged(
    parts: Seq<(String, Vec<u8>)>,
    docs: Seq<(String, DocumentData)>,
    name: Seq<char>,
    b: Seq<u8>,
    m: Seq<(Seq<char>, Seq<char>)>,
    rm: Seq<(Seq<char>, Seq<Seq<(Seq<char>, Seq<char>)>>)>,
)
    requires
        indexed_docs_ok(parts, docs),
        forall|j: int| 0 <= j < parts.len() && (#[trigger] parts[j]).0@ == name ==> !contains_sdt(
            parts[j].1@,
        ),
    ensures
        mapped_part_bytes(name, b, docs, m, rm) == b,
{
    assert forall|k: int| 0 <= k < docs.len() implies (#[trigger] docs[k]).0@ != name by {
        lemma_controlled_parts_elem(parts, k);
        let j = choose|j: int| 0 <= j < parts.len() && #[trigger] spec_controlled_parts(parts)[k]
            == (parts[j].0@, parts[j].1@) && contains_sdt(parts[j].1@);
        assert(docs[k].0@ == spec_controlled_parts(parts)[k].0);
    }
    lemma_doc_lookup_none(docs, name, 0);
}

/// Law: an event that no position's body covers passes through a mapping
/// pass unchanged, whatever the mappings: only body events are rewritten.
pub proof fn lemma_uncovered_event_passes_through(
    events: Seq<EventModel>,
    cs: Seq<ControlModel>,
    pm: Seq<(Seq<char>, Seq<EventModel>)>,
    prm: Seq<(Seq<char>, Seq<Seq<(Seq<char>, Seq<EventModel>)>>)>,
    missing: Seq<EventModel>,
    i: int,
)
    requires
        0 <= i < events.len(),
        first_intersecting(cs, i) == None::<int>,
    ensures
        map_chars_from(events, cs, pm, prm, missing, i) == event_chars(events[i])
            + map_chars_from(events, cs, pm, prm, missing, i + 1),
{
}

/// Law: under empty mappings, every substituted control body is replaced by
/// the missing-value sentinel, wrapped as the control demands; the sentinel
/// fragment itself writes back as the literal sentinel text.
pub proof fn lemma_empty_mapping_uses_sentinel(
    events: Seq<EventModel>,
    cs: Seq<ControlModel>,
    i: int,
    j: int,
)
    requires
        0 <= i < events.len(),
        first_intersecting(cs, i) == Some(j),
        0 <= j < cs.len(),
        cs[j].content_begin == i,
        cs[j].kind != ContentControlType::RepeatingSection,
    ensures
        map_chars_from(
            events,
            cs,
            mapping_frags(Seq::empty()),
            repeat_frags(Seq::empty()),
            missing_frag(),
            i,
        ) == event_chars(events[i]) + write_content_chars(cs[j], missing_frag(), events)
            + map_chars_from(
            events,
            cs,
            mapping_frags(Seq::empty()),
            repeat_frags(Seq::empty()),
            missing_frag(),
            i + 1,
        ),
        frag_chars(missing_frag()) == "MISSING"@,
{
    assert(mapping_frags(Seq::empty()).len() == 0);
    assert(frag_lookup_from(mapping_frags(Seq::empty()), cs[j].tag, 0) is None);
    assert(frag_for(mapping_frags(Seq::empty()), cs[j].tag, missing_frag()) == missing_frag());
    assert(events_range_chars(missing_frag(), 1, 1) == Seq::<char>::empty());
    assert(frag_chars(missing_frag()) =~= "MISSING"@);
}

/// Law: a plain text value fills a paragraph-bearing control's body as
/// exactly that text inside the expected wrapping of paragraph, run and
/// text elements, so the body's visible text is the mapped value itself.
/// Recorded paragraph or run properties, when present, are replayed inside
/// the wrapping without touching the text.
pub proof fn lemma_plain_text_value_fills_body(c: ControlModel, v: Seq<char>, events: Seq<EventModel>)
    requires
        c.contains_paragraph,
        !spec_has_paragraph_params(c),
        !spec_has_run_params(c),
    ensures
        write_content_chars(c, seq![(EventModel::Text { content: v })], events) == "<"@ + "w:p"@
            + ">"@ + ("<"@ + "w:r"@ + ">"@ + ("<"@ + "w:t"@ + ">"@ + v + "</"@ + "w:t"@ + ">"@)
            + "</"@ + "w:r"@ + ">"@) + "</"@ + "w:p"@ + ">"@,
{
    let frag = seq![(EventModel::Text { content: v })];
    assert forall|k: int| 0 <= k < frag.len() implies !event_declares_name(
        #[trigger] frag[k],
        "w:p"@,
    ) by {}
    assert forall|k: int| 0 <= k < frag.len() implies !event_declares_name(
        #[trigger] frag[k],
        "w:r"@,
    ) by {}
    assert forall|k: int| 0 <= k < frag.len() implies !event_declares_name(
        #[trigger] frag[k],
        "w:t"@,
    ) by {}
    assert(!frag_has_name(frag, "w:p"@));
    assert(!frag_has_name(frag, "w:r"@));
    assert(!frag_has_name(frag, "w:t"@));
    let tags = wrap_tags(true);
    let tags_r = tags.drop_first();
    let tags_t = tags_r.drop_first();
    assert(tags_r =~= seq!["w:r"@, "w:t"@]);
    assert(tags_t =~= seq!["w:t"@]);
    assert(tags_t.drop_first() =~= Seq::<Seq<char>>::empty());
    assert(params_chars(c, tags[0], events) == Seq::<char>::empty());
    assert(params_chars(c, tags_r[0], events) == Seq::<char>::empty());
    assert(params_chars(c, tags_t[0], events) == Seq::<char>::empty());
    assert(events_range_chars(frag, 1, 1) == Seq::<char>::empty());
    assert(frag_chars(frag) =~= v);
    assert(write_wrap_chars(c, frag, tags_t.drop_first(), events) == frag_chars(frag));
    let inner_t = "<"@ + "w:t"@ + ">"@ + v + "</"@ + "w:t"@ + ">"@;
    assert(write_wrap_chars(c, frag, tags_t, events) =~= inner_t);
    let inner_r = "<"@ + "w:r"@ + ">"@ + inner_t + "</"@ + "w:r"@ + ">"@;
    assert(write_wrap_chars(c, frag, tags_r, events) =~= inner_r);
    assert(write_content_chars(c, frag, events) =~= "<"@ + "w:p"@ + ">"@ + ("<"@ + "w:r"@ + ">"@
        + ("<"@ + "w:t"@ + ">"@ + v + "</"@ + "w:t"@ + ">"@) + "</"@ + "w:r"@ + ">"@) + "</"@
        + "w:p"@ + ">"@);
}

} // verus!
