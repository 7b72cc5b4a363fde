use vstd::prelude::*;
use vstd::string::StringSliceAdditionalSpecFns;
use vstd::utf8::{decode_utf8, valid_utf8, encode_utf8_decode_utf8};
use crate::controls::{
    ContentControlPosition, ControlModel, control_views, spec_has_paragraph_params,
    spec_has_run_params,
};
use crate::detect::{contains_sdt, has_content_control};
use crate::errors::{DocxError, PartError};
use crate::events::{EventModel, RawEvent, event_views};
use crate::scanner::{first_failure_pos, scan_events, scan_items, scan_ok, scanned_events};
use crate::state::{DocumentState, run_steps, state_bounded};

verus! {

/// The events a part's text scans into, the end-of-input event included.
pub open spec fn part_events(text: Seq<char>) -> Seq<EventModel> {
    scanned_events(text).push(EventModel::Eof)
}

/// The control positions the tracker derives from a part's text.
pub open spec fn part_positions(text: Seq<char>) -> Seq<ControlModel> {
    run_steps(part_events(text)).controls
}

/// One indexed position is internally consistent for a part of `n` events:
/// the control is closed inside the part, a body opening and closing come
/// together in the order begin, body-open, body-close, end, and any
/// recorded properties range lies inside the part.
pub open spec fn control_valid(c: ControlModel, n: int) -> bool {
    &&& 0 <= c.begin
    &&& c.begin < c.end
    &&& c.end < n
    &&& (c.content_begin == -1) == (c.content_end == -1)
    &&& (c.content_begin != -1 ==> c.begin < c.content_begin && c.content_begin < c.content_end
        && c.content_end < c.end)
    &&& -1 <= c.paragraph_params_start && c.paragraph_params_start < n
    &&& -1 <= c.paragraph_params_end && c.paragraph_params_end <= n
    &&& -1 <= c.run_params_start && c.run_params_start < n
    &&& -1 <= c.run_params_end && c.run_params_end <= n
    &&& (spec_has_paragraph_params(c) ==> 0 <= c.paragraph_params_start
        && c.paragraph_params_start < c.paragraph_params_end && c.paragraph_params_end <= n)
    &&& (spec_has_run_params(c) ==> 0 <= c.run_params_start && c.run_params_start
        < c.run_params_end && c.run_params_end <= n)
}

/// The structural invariants of an indexed part: every position is
/// internally consistent, the positions are strictly ordered by `begin`,
/// and any two of their event ranges are disjoint or nested.
pub open spec fn valid_positions(cs: Seq<ControlModel>, n: int) -> bool {
    &&& forall|i: int| 0 <= i < cs.len() ==> control_valid(#[trigger] cs[i], n)
    &&& forall|i: int, j: int| 0 <= i < j < cs.len() ==> (#[trigger] cs[i]).begin < (
    #[trigger] cs[j]).begin
    &&& forall|i: int, j: int| 0 <= i < j < cs.len() ==> ((#[trigger] cs[j]).begin > (
    #[trigger] cs[i]).end || cs[j].end <= cs[i].end)
}

/// Whether `x < n` holds, comparing a position field against a length.
fn lt_n(x: i32, n: usize) -> (r: bool)
    ensures
        r == ((x as int) < (n as int)),
{
    if n > (i32::MAX as usize) {
        true
    } else {
        x < (n as i32)
    }
}

/// Whether `x <= n` holds, comparing a position field against a length.
fn le_n(x: i32, n: usize) -> (r: bool)
    ensures
        r == ((x as int) <= (n as int)),
{
    if n >= (i32::MAX as usize) {
        true
    } else {
        x <= (n as i32)
    }
}

fn check_control(c: &ContentControlPosition, n: usize) -> (r: bool)
    ensures
        r == control_valid(c@, n as int),
{
    0 <= c.begin && c.begin < c.end && lt_n(c.end, n) && ((c.content_begin == -1) == (
    c.content_end == -1)) && (c.content_begin == -1 || (c.begin < c.content_begin
        && c.content_begin < c.content_end && c.content_end < c.end)) && -1
        <= c.paragraph_params_start && lt_n(c.paragraph_params_start, n) && -1
        <= c.paragraph_params_end && le_n(c.paragraph_params_end, n) && -1 <= c.run_params_start
        && lt_n(c.run_params_start, n) && -1 <= c.run_params_end && le_n(c.run_params_end, n) && (
    !(c.paragraph_params_start >= 0 && c.paragraph_params_end >= 0) || (0
        <= c.paragraph_params_start && c.paragraph_params_start < c.paragraph_params_end && le_n(
        c.paragraph_params_end,
        n,
    ))) && (!(c.run_params_start >= 0 && c.run_params_end >= 0) || (0 <= c.run_params_start
        && c.run_params_start < c.run_params_end && le_n(c.run_params_end, n)))
}

/// Checks the structural invariants of a scanned position list.
pub fn check_positions(controls: &Vec<ContentControlPosition>, n: usize) -> (r: bool)
    ensures
        r == valid_positions(control_views(controls@), n as int),
{
    let ghost cs = control_views(controls@);
    let mut i: usize = 0;
    while i < controls.len()
        invariant
            cs == control_views(controls@),
            i <= controls@.len(),
            forall|k: int| 0 <= k < i ==> control_valid(#[trigger] cs[k], n as int),
        decreases controls@.len() - i,
    {
        if !check_control(&controls[i], n) {
            proof {
                assert(!control_valid(cs[i as int], n as int));
            }
            return false;
        }
        i = i + 1;
    }
    let mut a: usize = 0;
    while a < controls.len()
        invariant
            cs == control_views(controls@),
            a <= controls@.len(),
            forall|k: int| 0 <= k < cs.len() ==> control_valid(#[trigger] cs[k], n as int),
            forall|i2: int, j2: int| 0 <= i2 < j2 < cs.len() && i2 < a ==> (#[trigger] cs[i2]).begin
                < (#[trigger] cs[j2]).begin && (cs[j2].begin > cs[i2].end || cs[j2].end
                <= cs[i2].end),
        decreases controls@.len() - a,
    {
        let mut b: usize = a + 1;
        while b < controls.len()
            invariant
                cs == control_views(controls@),
                a < b || b == a + 1,
                a < controls@.len(),
                a + 1 <= b <= controls@.len(),
                forall|k: int| 0 <= k < cs.len() ==> control_valid(#[trigger] cs[k], n as int),
                forall|j2: int| a < j2 < b ==> (#[trigger] cs[j2]).begin > cs[a as int].begin && (
                cs[j2].begin > cs[a as int].end || cs[j2].end <= cs[a as int].end),
            decreases controls@.len() - b,
        {
            let ok = controls[a].begin < controls[b].begin && (controls[b].begin > controls[a].end
                || controls[b].end <= controls[a].end);
            if !ok {
                proof {
                    assert(!(cs[a as int].begin < cs[b as int].begin) || !(cs[b as int].begin
                        > cs[a as int].end || cs[b as int].end <= cs[a as int].end));
                }
                return false;
            }
            b = b + 1;
        }
        a = a + 1;
    }
    proof {
        assert forall|i2: int, j2: int| 0 <= i2 < j2 < cs.len() implies (#[trigger] cs[i2]).begin
            < (#[trigger] cs[j2]).begin && (cs[j2].begin > cs[i2].end || cs[j2].end
            <= cs[i2].end) by {}
    }
    true
}

/// The event counter equals how many events were consumed.
pub proof fn lemma_run_steps_counter(evs: Seq<EventModel>)
    ensures
        run_steps(evs).counter == evs.len(),
    decreases evs.len(),
{
    if evs.len() > 0 {
        lemma_run_steps_counter(evs.drop_last());
    }
}

/// A part scans into few enough events for their offsets to be stored.
pub open spec fn part_small(text: Seq<char>) -> bool {
    part_events(text).len() <= i32::MAX as int
}

/// Runs the document state tracker over a whole event sequence. Fails only
/// when the sequence is too long for its offsets to be stored.
pub fn run_tracker(events: &Vec<RawEvent>) -> (r: Option<DocumentState>)
    ensures
        match r {
            Some(st) => events@.len() <= i32::MAX as int && st@ =~~= run_steps(
                event_views(events@),
            ),
            None => events@.len() > i32::MAX as int,
        },
{
    let mut st = DocumentState::new();
    let mut i: usize = 0;
    proof {
        assert(event_views(events@).take(0) =~= Seq::<EventModel>::empty());
    }
    while i < events.len()
        invariant
            st.wf(),
            state_bounded(st@),
            i <= events@.len(),
            i <= i32::MAX as int,
            st@ =~~= run_steps(event_views(events@).take(i as int)),
        decreases events@.len() - i,
    {
        if i >= (i32::MAX as usize) {
            return None;
        }
        proof {
            lemma_run_steps_counter(event_views(events@).take(i as int));
        }
        st.consume(&events[i]);
        proof {
            assert(event_views(events@).take(i + 1).drop_last() =~= event_views(events@).take(
                i as int,
            ));
            assert(event_views(events@).take(i + 1).last() == events@[i as int]@);
            assert(st@ =~~= run_steps(event_views(events@).take(i + 1)));
        }
        i = i + 1;
    }
    proof {
        assert(event_views(events@).take(events@.len() as int) =~= event_views(events@));
    }
    Some(st)
}

/// One part's full event sequence together with its indexed control
/// positions.
pub struct DocumentData {
    pub events: Vec<RawEvent>,
    pub control_positions: Vec<ContentControlPosition>,
}

/// A part's data is exactly what indexing its text yields.
pub open spec fn doc_matches(doc: DocumentData, text: Seq<char>) -> bool {
    &&& event_views(doc.events@) == part_events(text)
    &&& control_views(doc.control_positions@) == part_positions(text)
    &&& valid_positions(part_positions(text), part_events(text).len() as int)
    &&& part_small(text)
    &&& scan_ok(text)
}

/// A part's text can be indexed: the reader accepts it, its offsets fit,
/// and the derived positions respect the structural invariants.
pub open spec fn text_indexable(text: Seq<char>) -> bool {
    &&& scan_ok(text)
    &&& part_small(text)
    &&& valid_positions(part_positions(text), part_events(text).len() as int)
}

/// Relies on str::from_utf8: succeeds exactly on valid UTF-8, and the
/// parsed text re-encodes to the input bytes.
#[verifier::external_body]
pub(crate) fn bytes_as_str(b: &[u8]) -> (r: Option<&str>)
    ensures
        match r {
            Some(s) => valid_utf8(b@) && s.spec_bytes() == b@,
            None => !valid_utf8(b@),
        },
{
    core::str::from_utf8(b).ok()
}

/// Scans one part's text and indexes its content controls, holding the
/// result to the structural invariants.
pub fn index_part(text: &str) -> (r: Result<DocumentData, PartError>)
    ensures
        match r {
            Ok(doc) => text_indexable(text@) && doc_matches(doc, text@),
            Err(e) => !text_indexable(text@) && match e {
                PartError::Parse { position } => !scan_ok(text@) && position == first_failure_pos(
                    scan_items(text@),
                ),
                PartError::Structure {  } => scan_ok(text@),
            },
        },
{
    let events = match scan_events(text) {
        Ok(evs) => evs,
        Err(position) => {
            return Err(PartError::Parse { position });
        },
    };
    let st = match run_tracker(&events) {
        Some(st) => st,
        None => {
            return Err(PartError::Structure {  });
        },
    };
    let controls = st.into_controls();
    if !check_positions(&controls, events.len()) {
        return Err(PartError::Structure {  });
    }
    Ok(DocumentData { events, control_positions: controls })
}

/// A part's bytes can be indexed: they are UTF-8 and their text can be.
pub open spec fn part_indexable(b: Seq<u8>) -> bool {
    valid_utf8(b) && text_indexable(decode_utf8(b))
}

/// The parts that carry the marker of a structured document tag, in order.
pub open spec fn spec_controlled_parts(parts: Seq<(String, Vec<u8>)>) -> Seq<(Seq<char>, Seq<u8>)>
    decreases parts.len(),
{
    if parts.len() == 0 {
        Seq::empty()
    } else {
        let rest = spec_controlled_parts(parts.drop_last());
        if contains_sdt(parts.last().1@) {
            rest.push((parts.last().0@, parts.last().1@))
        } else {
            rest
        }
    }
}

/// Scans every part that carries the marker of a structured document tag
/// and indexes its content controls. Succeeds exactly when every such part
/// is UTF-8, is accepted by the reader, and yields positions that respect
/// the structural invariants; the returned documents then carry, part for
/// marker-bearing part in order, exactly the indexed events and positions.
pub fn get_content_controls(data: &Vec<(String, Vec<u8>)>) -> (r: Result<
    Vec<(String, DocumentData)>,
    DocxError,
>)
    ensures
        match r {
            Ok(docs) => {
                &&& forall|i: int| 0 <= i < data@.len() && contains_sdt((#[trigger] data@[i]).1@)
                    ==> part_indexable(data@[i].1@)
                &&& docs@.len() == spec_controlled_parts(data@).len()
                &&& forall|k: int| 0 <= k < docs@.len() ==> (#[trigger] docs@[k]).0@
                    == spec_controlled_parts(data@)[k].0 && doc_matches(
                    docs@[k].1,
                    decode_utf8(spec_controlled_parts(data@)[k].1),
                )
            },
            Err(e) => exists|i: int| 0 <= i < data@.len() && contains_sdt((#[trigger] data@[i]).1@)
                && !part_indexable(data@[i].1@) && match e {
                DocxError::Encoding { part } => part@ == data@[i].0@ && !valid_utf8(data@[i].1@),
                DocxError::Parse { part, position } => part@ == data@[i].0@ && valid_utf8(
                    data@[i].1@,
                ) && !scan_ok(decode_utf8(data@[i].1@)),
                DocxError::Structure { part } => part@ == data@[i].0@ && valid_utf8(data@[i].1@)
                    && scan_ok(decode_utf8(data@[i].1@)),
                _ => false,
            },
        },
{
    let mut docs: Vec<(String, DocumentData)> = Vec::new();
    let mut i: usize = 0;
    proof {
        assert(spec_controlled_parts(data@.take(0)) =~= Seq::<(Seq<char>, Seq<u8>)>::empty());
    }
    while i < data.len()
        invariant
            i <= data@.len(),
            forall|k: int| 0 <= k < i && contains_sdt((#[trigger] data@[k]).1@)
                ==> part_indexable(data@[k].1@),
            docs@.len() == spec_controlled_parts(data@.take(i as int)).len(),
            forall|k: int| 0 <= k < docs@.len() ==> (#[trigger] docs@[k]).0@
                == spec_controlled_parts(data@.take(i as int))[k].0 && doc_matches(
                docs@[k].1,
                decode_utf8(spec_controlled_parts(data@.take(i as int))[k].1),
            ),
        decreases data@.len() - i,
    {
        proof {
            assert(data@.take(i + 1).drop_last() =~= data@.take(i as int));
            assert(data@.take(i + 1).last() == data@[i as int]);
        }
        let part_name = &data[i].0;
        let bytes = &data[i].1;
        if has_content_control(bytes.as_slice()) {
            let text = match bytes_as_str(bytes.as_slice()) {
                Some(t) => t,
                None => {
                    return Err(DocxError::Encoding { part: part_name.clone() });
                },
            };
            proof {
                encode_utf8_decode_utf8(text@);
                assert(decode_utf8(bytes@) == text@);
            }
            match index_part(text) {
                Ok(doc) => {
                    docs.push((part_name.clone(), doc));
                },
                Err(PartError::Parse { position }) => {
                    return Err(DocxError::Parse { part: part_name.clone(), position });
                },
                Err(PartError::Structure {  }) => {
                    return Err(DocxError::Structure { part: part_name.clone() });
                },
            }
        }
        i = i + 1;
    }
    proof {
        assert(data@.take(data@.len() as int) =~= data@);
    }
    Ok(docs)
}

} // verus!
