use vstd::prelude::*;
use vstd::string::StringExecFns;
use crate::controls::{
    ContentControlPosition, ControlModel, ContentControlType, control_views,
    spec_has_paragraph_params, spec_has_run_params, spec_intersects_content,
};
use crate::events::{EventModel, RawEvent, event_chars, event_views, push_event_text};
use crate::state::{DocumentState, StateModel, depth_of, init_state, run_steps, spec_step, state_bounded};
use crate::scanner::{first_failure_pos, scan_events, scan_items, scan_ok};
use crate::index::{part_events, part_small};
use crate::errors::PartError;

verus! {

broadcast use vstd::string::group_string_axioms;

/// The views of a sequence of tag names.
pub open spec fn tag_views(tags: Seq<String>) -> Seq<Seq<char>> {
    Seq::new(tags.len(), |i: int| tags[i]@)
}

/// Whether one control's event range lies inside another's body.
pub open spec fn spec_contained_in(c: ControlModel, parent: ControlModel) -> bool {
    c.begin >= parent.content_begin && c.end <= parent.content_end
}

/// The first control, at or after position `i`, whose body covers `idx`.
pub open spec fn first_intersecting_from(cs: Seq<ControlModel>, idx: int, i: int) -> Option<int>
    decreases cs.len() - i,
{
    if i < 0 || i >= cs.len() {
        None
    } else if spec_intersects_content(cs[i], idx) {
        Some(i)
    } else {
        first_intersecting_from(cs, idx, i + 1)
    }
}

/// The first control whose body covers `idx`.
pub open spec fn first_intersecting(cs: Seq<ControlModel>, idx: int) -> Option<int> {
    first_intersecting_from(cs, idx, 0)
}

/// The first control, at or after position `i`, that lies inside the
/// parent's body and is a repeating-section item.
pub open spec fn first_item_from(cs: Seq<ControlModel>, parent: ControlModel, i: int) -> Option<
    int,
>
    decreases cs.len() - i,
{
    if i < 0 || i >= cs.len() {
        None
    } else if spec_contained_in(cs[i], parent) && cs[i].kind
        == ContentControlType::RepeatingSectionItem {
        Some(i)
    } else {
        first_item_from(cs, parent, i + 1)
    }
}

/// The first repeating-section item inside the parent's body.
pub open spec fn first_item(cs: Seq<ControlModel>, parent: ControlModel) -> Option<int> {
    first_item_from(cs, parent, 0)
}

/// The first control, at or after position `i`, that lies inside the
/// parent's body and whose own body covers `idx`.
pub open spec fn first_contained_at_from(
    cs: Seq<ControlModel>,
    parent: ControlModel,
    idx: int,
    i: int,
) -> Option<int>
    decreases cs.len() - i,
{
    if i < 0 || i >= cs.len() {
        None
    } else if spec_contained_in(cs[i], parent) && spec_intersects_content(cs[i], idx) {
        Some(i)
    } else {
        first_contained_at_from(cs, parent, idx, i + 1)
    }
}

/// The first control inside the parent's body whose own body covers `idx`.
pub open spec fn first_contained_at(cs: Seq<ControlModel>, parent: ControlModel, idx: int) -> Option<int> {
    first_contained_at_from(cs, parent, idx, 0)
}

/// The first control whose body covers the event at `index`, if any.
pub fn get_intersecting_control_position(index: i32, controls: &Vec<ContentControlPosition>) -> (r:
    Option<usize>)
    ensures
        match r {
            Some(j) => j < controls@.len() && first_intersecting(
                control_views(controls@),
                index as int,
            ) == Some(j as int),
            None => first_intersecting(control_views(controls@), index as int) == None::<int>,
        },
{
    let ghost cs = control_views(controls@);
    let mut i: usize = 0;
    while i < controls.len()
        invariant
            cs == control_views(controls@),
            i <= controls@.len(),
            first_intersecting(cs, index as int) == first_intersecting_from(
                cs,
                index as int,
                i as int,
            ),
        decreases controls@.len() - i,
    {
        if controls[i].intersects_content(index) {
            return Some(i);
        }
        i = i + 1;
    }
    None
}

fn find_first_item(controls: &Vec<ContentControlPosition>, parent: &ContentControlPosition) -> (r:
    Option<usize>)
    ensures
        match r {
            Some(j) => j < controls@.len() && first_item(control_views(controls@), parent@)
                == Some(j as int),
            None => first_item(control_views(controls@), parent@) == None::<int>,
        },
{
    let ghost cs = control_views(controls@);
    let mut i: usize = 0;
    while i < controls.len()
        invariant
            cs == control_views(controls@),
            i <= controls@.len(),
            first_item(cs, parent@) == first_item_from(cs, parent@, i as int),
        decreases controls@.len() - i,
    {
        let contained = controls[i].begin >= parent.content_begin && controls[i].end
            <= parent.content_end;
        let is_item = match controls[i].kind {
            ContentControlType::RepeatingSectionItem => true,
            _ => false,
        };
        if contained && is_item {
            return Some(i);
        }
        i = i + 1;
    }
    None
}

/// The first control inside the parent's body whose own body covers the
/// event at `index`, if any.
pub fn get_contained_control_at(
    controls: &Vec<ContentControlPosition>,
    parent: &ContentControlPosition,
    index: i32,
) -> (r: Option<usize>)
    ensures
        match r {
            Some(j) => j < controls@.len() && first_contained_at(
                control_views(controls@),
                parent@,
                index as int,
            ) == Some(j as int),
            None => first_contained_at(control_views(controls@), parent@, index as int) == None::<
                int,
            >,
        },
{
    let ghost cs = control_views(controls@);
    let mut i: usize = 0;
    while i < controls.len()
        invariant
            cs == control_views(controls@),
            i <= controls@.len(),
            first_contained_at(cs, parent@, index as int) == first_contained_at_from(
                cs,
                parent@,
                index as int,
                i as int,
            ),
        decreases controls@.len() - i,
    {
        let contained = controls[i].begin >= parent.content_begin && controls[i].end
            <= parent.content_end;
        if contained && controls[i].intersects_content(index) {
            return Some(i);
        }
        i = i + 1;
    }
    None
}

/// The positions, in order, of the controls lying inside the parent's body.
pub open spec fn contained_indices(cs: Seq<ControlModel>, parent: ControlModel) -> Seq<int>
    decreases cs.len(),
{
    if cs.len() == 0 {
        Seq::empty()
    } else {
        let rest = contained_indices(cs.drop_last(), parent);
        if spec_contained_in(cs.last(), parent) {
            rest.push(cs.len() - 1)
        } else {
            rest
        }
    }
}

/// The controls lying inside the parent's body, as positions into the list,
/// in order.
pub fn get_contained_control(
    controls: &Vec<ContentControlPosition>,
    control: &ContentControlPosition,
) -> (r: Vec<usize>)
    ensures
        Seq::new(r@.len(), |k: int| r@[k] as int) == contained_indices(
            control_views(controls@),
            control@,
        ),
{
    let ghost cs = control_views(controls@);
    let mut out: Vec<usize> = Vec::new();
    let mut i: usize = 0;
    proof {
        assert(cs.take(0) =~= Seq::<ControlModel>::empty());
        assert(Seq::new(out@.len(), |k: int| out@[k] as int) =~= contained_indices(
            cs.take(0),
            control@,
        ));
    }
    while i < controls.len()
        invariant
            cs == control_views(controls@),
            i <= controls@.len(),
            Seq::new(out@.len(), |k: int| out@[k] as int) == contained_indices(
                cs.take(i as int),
                control@,
            ),
        decreases controls@.len() - i,
    {
        proof {
            assert(cs.take(i + 1).drop_last() =~= cs.take(i as int));
            assert(cs.take(i + 1).last() == cs[i as int]);
        }
        if controls[i].begin >= control.content_begin && controls[i].end <= control.content_end {
            out.push(i);
        }
        proof {
            assert(Seq::new(out@.len(), |k: int| out@[k] as int) =~= contained_indices(
                cs.take(i + 1),
                control@,
            ));
        }
        i = i + 1;
    }
    proof {
        assert(cs.take(cs.len() as int) =~= cs);
    }
    out
}

/// Whether the fragment declares an element of this name anywhere, by an
/// opening or an empty element event. This is deliberately lenient: a name
/// nested inside the fragment counts as present at its top level.
pub open spec fn frag_has_name(frag: Seq<EventModel>, name: Seq<char>) -> bool {
    exists|i: int| 0 <= i < frag.len() && event_declares_name(#[trigger] frag[i], name)
}

pub open spec fn event_declares_name(e: EventModel, name: Seq<char>) -> bool {
    match e {
        EventModel::Start { name: n, content } => n == name,
        EventModel::Empty { name: n, content } => n == name,
        _ => false,
    }
}

/// Whether the fragment declares an element of this name anywhere.
pub fn fragment_has_tag(frag: &Vec<RawEvent>, tag: &String) -> (r: bool)
    ensures
        r == frag_has_name(event_views(frag@), tag@),
{
    let mut i: usize = 0;
    while i < frag.len()
        invariant
            i <= frag@.len(),
            forall|k: int| 0 <= k < i ==> !event_declares_name(
                #[trigger] event_views(frag@)[k],
                tag@,
            ),
        decreases frag@.len() - i,
    {
        let found = match &frag[i] {
            RawEvent::Start { name, content: _ } => *name == *tag,
            RawEvent::Empty { name, content: _ } => *name == *tag,
            _ => false,
        };
        if found {
            proof {
                assert(event_declares_name(event_views(frag@)[i as int], tag@));
            }
            return true;
        }
        i = i + 1;
    }
    false
}

/// The text of the events from `i` up to but excluding `stop`.
pub open spec fn events_range_chars(events: Seq<EventModel>, i: int, stop: int) -> Seq<char>
    decreases stop - i,
{
    if i < 0 || i >= stop {
        Seq::empty()
    } else {
        event_chars(events[i]) + events_range_chars(events, i + 1, stop)
    }
}

/// Writes the events from `from` up to but excluding `to`.
pub fn emit_events_range(out: &mut String, events: &Vec<RawEvent>, from: usize, to: usize)
    requires
        from <= to,
        to <= events@.len(),
    ensures
        final(out)@ == old(out)@ + events_range_chars(
            event_views(events@),
            from as int,
            to as int,
        ),
{
    let ghost evs = event_views(events@);
    let ghost goal = old(out)@ + events_range_chars(evs, from as int, to as int);
    let mut k = from;
    while k < to
        invariant
            evs == event_views(events@),
            from <= k <= to,
            to <= events@.len(),
            out@ + events_range_chars(evs, k as int, to as int) == goal,
            goal == old(out)@ + events_range_chars(evs, from as int, to as int),
        decreases to - k,
    {
        let ghost before = out@;
        push_event_text(out, &events[k]);
        proof {
            assert(events_range_chars(evs, k as int, to as int) == event_chars(evs[k as int])
                + events_range_chars(evs, k + 1, to as int));
            assert(out@ + events_range_chars(evs, k + 1, to as int) =~= before
                + events_range_chars(evs, k as int, to as int));
        }
        k = k + 1;
    }
    proof {
        assert(events_range_chars(evs, to as int, to as int) == Seq::<char>::empty());
        assert(out@ + Seq::<char>::empty() =~= out@);
    }
}

/// The text a fragment is written back as, event for event.
pub open spec fn frag_chars(frag: Seq<EventModel>) -> Seq<char> {
    events_range_chars(frag, 0, frag.len() as int)
}

/// The wrapping ladder: a paragraph-bearing body is rebuilt from paragraph,
/// run and text elements, an inline body from run and text alone.
pub open spec fn wrap_tags(contains_paragraph: bool) -> Seq<Seq<char>> {
    if contains_paragraph {
        seq!["w:p"@, "w:r"@, "w:t"@]
    } else {
        seq!["w:r"@, "w:t"@]
    }
}

/// The recorded properties replayed under a ladder element: the original
/// paragraph properties under a new paragraph, the original run properties
/// under a new run, nothing otherwise.
pub open spec fn params_chars(c: ControlModel, tag: Seq<char>, events: Seq<EventModel>) -> Seq<
    char,
> {
    if tag == "w:p"@ && spec_has_paragraph_params(c) {
        events_range_chars(events, c.paragraph_params_start, c.paragraph_params_end)
    } else if tag == "w:r"@ && spec_has_run_params(c) {
        events_range_chars(events, c.run_params_start, c.run_params_end)
    } else {
        Seq::empty()
    }
}

/// The text that replaces a control's body: the ladder is peeled from the
/// outside in, and each element the fragment does not already declare is
/// emitted around it, with the control's recorded properties replayed.
pub open spec fn write_wrap_chars(
    c: ControlModel,
    frag: Seq<EventModel>,
    tags: Seq<Seq<char>>,
    events: Seq<EventModel>,
) -> Seq<char>
    decreases tags.len(),
{
    if tags.len() == 0 {
        frag_chars(frag)
    } else if frag_has_name(frag, tags[0]) {
        frag_chars(frag)
    } else {
        "<"@ + tags[0] + ">"@ + params_chars(c, tags[0], events) + write_wrap_chars(
            c,
            frag,
            tags.drop_first(),
            events,
        ) + "</"@ + tags[0] + ">"@
    }
}

/// The full replacement text for one control's body.
pub open spec fn write_content_chars(
    c: ControlModel,
    frag: Seq<EventModel>,
    events: Seq<EventModel>,
) -> Seq<char> {
    write_wrap_chars(c, frag, wrap_tags(c.contains_paragraph), events)
}

/// The ladder elements and the properties gates are pairwise distinct names.
proof fn lemma_ladder_distinct()
    ensures
        "w:p"@ != "w:r"@,
        "w:p"@ != "w:t"@,
        "w:r"@ != "w:t"@,
{
    reveal_strlit("w:p");
    reveal_strlit("w:r");
    reveal_strlit("w:t");
    assert("w:p"@.len() == 3);
    assert("w:r"@.len() == 3);
    assert("w:t"@.len() == 3);
    assert("w:p"@[2] != "w:r"@[2]);
    assert("w:p"@[2] != "w:t"@[2]);
    assert("w:r"@[2] != "w:t"@[2]);
}

/// The bounds the substitution writer needs of every position so that each
/// replayed range lies inside the part.
pub open spec fn controls_fit(cs: Seq<ControlModel>, n: int) -> bool {
    forall|i: int| 0 <= i < cs.len() ==> control_fits(#[trigger] cs[i], n)
}

pub open spec fn control_fits(c: ControlModel, n: int) -> bool {
    &&& 0 <= c.begin
    &&& c.end < n
    &&& (spec_has_paragraph_params(c) ==> 0 <= c.paragraph_params_start
        && c.paragraph_params_start <= c.paragraph_params_end && c.paragraph_params_end <= n)
    &&& (spec_has_run_params(c) ==> 0 <= c.run_params_start && c.run_params_start
        <= c.run_params_end && c.run_params_end <= n)
}

/// Writes the replacement for one control under the remaining ladder.
fn write_wrap_tags(
    out: &mut String,
    control: &ContentControlPosition,
    frag: &Vec<RawEvent>,
    tags: &Vec<String>,
    ti: usize,
    events: &Vec<RawEvent>,
)
    requires
        ti <= tags@.len(),
        control_fits(control@, events@.len() as int),
    ensures
        final(out)@ == old(out)@ + write_wrap_chars(
            control@,
            event_views(frag@),
            tag_views(tags@).skip(ti as int),
            event_views(events@),
        ),
    decreases tags@.len() - ti,
{
    let ghost rest = tag_views(tags@).skip(ti as int);
    if ti >= tags.len() {
        emit_events_range(out, frag, 0, frag.len());
        proof {
            assert(rest.len() == 0);
        }
    } else {
        proof {
            assert(rest[0] == tags@[ti as int]@);
        }
        if fragment_has_tag(frag, &tags[ti]) {
            emit_events_range(out, frag, 0, frag.len());
        } else {
            let ghost before = out@;
            out.append("<");
            out.append(tags[ti].as_str());
            out.append(">");
            proof {
                lemma_ladder_distinct();
            }
            let tag_is_p = tags[ti] == "w:p".to_owned();
            let tag_is_r = tags[ti] == "w:r".to_owned();
            if tag_is_p && control.has_paragraph_params() {
                emit_events_range(
                    out,
                    events,
                    control.paragraph_params_start as usize,
                    control.paragraph_params_end as usize,
                );
            } else if tag_is_r && control.has_run_params() {
                emit_events_range(
                    out,
                    events,
                    control.run_params_start as usize,
                    control.run_params_end as usize,
                );
            }
            proof {
                assert(out@ =~= before + "<"@ + rest[0] + ">"@ + params_chars(
                    control@,
                    rest[0],
                    event_views(events@),
                ));
            }
            write_wrap_tags(out, control, frag, tags, ti + 1, events);
            proof {
                assert(tag_views(tags@).skip(ti + 1) =~= rest.drop_first());
            }
            out.append("</");
            out.append(tags[ti].as_str());
            out.append(">");
            proof {
                assert(out@ =~= before + write_wrap_chars(
                    control@,
                    event_views(frag@),
                    rest,
                    event_views(events@),
                ));
            }
        }
    }
}

/// Writes the full replacement for one control's body: the fragment,
/// wrapped in whichever ladder elements it does not already carry.
pub fn write_content(
    out: &mut String,
    control: &ContentControlPosition,
    frag: &Vec<RawEvent>,
    events: &Vec<RawEvent>,
)
    requires
        control_fits(control@, events@.len() as int),
    ensures
        final(out)@ == old(out)@ + write_content_chars(
            control@,
            event_views(frag@),
            event_views(events@),
        ),
{
    let mut tags: Vec<String> = Vec::new();
    if control.contains_paragraph {
        tags.push("w:p".to_owned());
    }
    tags.push("w:r".to_owned());
    tags.push("w:t".to_owned());
    proof {
        assert(tag_views(tags@) =~= wrap_tags(control@.contains_paragraph));
        assert(tag_views(tags@).skip(0) =~= tag_views(tags@));
    }
    write_wrap_tags(out, control, frag, &tags, 0, events);
}


/// A flat mapping with every replacement value already scanned into its
/// event fragment.
pub type ParsedMapping = Vec<(String, Vec<RawEvent>)>;

/// A repeat mapping with every replacement value already scanned.
pub type ParsedRepeatMapping = Vec<(String, Vec<ParsedMapping>)>;

/// The view of a parsed mapping: tags paired with event fragments.
pub open spec fn frag_map_view(pm: Seq<(String, Vec<RawEvent>)>) -> Seq<(Seq<char>, Seq<EventModel>)> {
    Seq::new(pm.len(), |i: int| (pm[i].0@, event_views(pm[i].1@)))
}

/// The view of a parsed repeat mapping.
pub open spec fn repeat_map_view(prm: Seq<(String, Vec<ParsedMapping>)>) -> Seq<(Seq<char>, Seq<Seq<(Seq<char>, Seq<EventModel>)>>)> {
    Seq::new(prm.len(), |i: int| (prm[i].0@, Seq::new(prm[i].1@.len(), |k: int| frag_map_view(prm[i].1@[k]@))))
}

/// The fragment a tag resolves to, from position `i` on.
pub open spec fn frag_lookup_from(pm: Seq<(Seq<char>, Seq<EventModel>)>, tag: Seq<char>, i: int) -> Option<Seq<EventModel>>
    decreases pm.len() - i,
{
    if i < 0 || i >= pm.len() {
        None
    } else if pm[i].0 == tag {
        Some(pm[i].1)
    } else {
        frag_lookup_from(pm, tag, i + 1)
    }
}

/// The fragment a tag resolves to: the first entry with this tag, or the
/// missing-value fragment.
pub open spec fn frag_for(
    pm: Seq<(Seq<char>, Seq<EventModel>)>,
    tag: Seq<char>,
    missing: Seq<EventModel>,
) -> Seq<EventModel> {
    match frag_lookup_from(pm, tag, 0) {
        Some(f) => f,
        None => missing,
    }
}

/// The sub-mappings a repeating section's tag resolves to, from `i` on.
pub open spec fn values_lookup_from(
    prm: Seq<(Seq<char>, Seq<Seq<(Seq<char>, Seq<EventModel>)>>)>,
    tag: Seq<char>,
    i: int,
) -> Option<Seq<Seq<(Seq<char>, Seq<EventModel>)>>>
    decreases prm.len() - i,
{
    if i < 0 || i >= prm.len() {
        None
    } else if prm[i].0 == tag {
        Some(prm[i].1)
    } else {
        values_lookup_from(prm, tag, i + 1)
    }
}

/// The sub-mappings a repeating section's tag resolves to; a tag without
/// any produces no section instances.
pub open spec fn repeat_values(
    prm: Seq<(Seq<char>, Seq<Seq<(Seq<char>, Seq<EventModel>)>>)>,
    tag: Seq<char>,
) -> Seq<Seq<(Seq<char>, Seq<EventModel>)>> {
    match values_lookup_from(prm, tag, 0) {
        Some(v) => v,
        None => Seq::empty(),
    }
}

/// Looks the tag up in a parsed mapping.
fn lookup_frag<'a>(pm: &'a ParsedMapping, tag: &String) -> (r: Option<&'a Vec<RawEvent>>)
    ensures
        match r {
            Some(f) => frag_lookup_from(frag_map_view(pm@), tag@, 0) == Some(event_views(f@)),
            None => frag_lookup_from(frag_map_view(pm@), tag@, 0) == None::<Seq<EventModel>>,
        },
{
    let ghost m = frag_map_view(pm@);
    let mut i: usize = 0;
    while i < pm.len()
        invariant
            m == frag_map_view(pm@),
            i <= pm@.len(),
            frag_lookup_from(m, tag@, 0) == frag_lookup_from(m, tag@, i as int),
        decreases pm@.len() - i,
    {
        if pm[i].0 == *tag {
            return Some(&pm[i].1);
        }
        i = i + 1;
    }
    None
}

/// Looks the tag up in a parsed repeat mapping.
fn lookup_values<'a>(prm: &'a ParsedRepeatMapping, tag: &String) -> (r: Option<&'a Vec<ParsedMapping>>)
    ensures
        match r {
            Some(v) => values_lookup_from(repeat_map_view(prm@), tag@, 0) == Some(
                Seq::new(v@.len(), |k: int| frag_map_view(v@[k]@)),
            ),
            None => values_lookup_from(repeat_map_view(prm@), tag@, 0) == None::<
                Seq<Seq<(Seq<char>, Seq<EventModel>)>>,
            >,
        },
{
    let ghost m = repeat_map_view(prm@);
    let mut i: usize = 0;
    while i < prm.len()
        invariant
            m == repeat_map_view(prm@),
            i <= prm@.len(),
            values_lookup_from(m, tag@, 0) == values_lookup_from(m, tag@, i as int),
        decreases prm@.len() - i,
    {
        if prm[i].0 == *tag {
            return Some(&prm[i].1);
        }
        i = i + 1;
    }
    None
}

/// The text one repeating-section instance emits for the item template's
/// event range `i` up to `stop`: events pass through, except that each
/// nested control's body is replaced under the instance's sub-mapping.
pub open spec fn repeat_range_chars(
    cs: Seq<ControlModel>,
    item: ControlModel,
    events: Seq<EventModel>,
    v: Seq<(Seq<char>, Seq<EventModel>)>,
    missing: Seq<EventModel>,
    i: int,
    stop: int,
) -> Seq<char>
    decreases stop - i,
{
    if i < 0 || i >= stop {
        Seq::empty()
    } else {
        let here = match first_contained_at(cs, item, i) {
            Some(g) => if cs[g].content_begin == i {
                event_chars(events[i]) + write_content_chars(
                    cs[g],
                    frag_for(v, cs[g].tag, missing),
                    events,
                )
            } else {
                Seq::empty()
            },
            None => event_chars(events[i]),
        };
        here + repeat_range_chars(cs, item, events, v, missing, i + 1, stop)
    }
}

/// The text a repeating section emits: one copy of the first item
/// template's range per sub-mapping, from the `k`-th on.
pub open spec fn repeat_section_chars(
    cs: Seq<ControlModel>,
    c: ControlModel,
    events: Seq<EventModel>,
    values: Seq<Seq<(Seq<char>, Seq<EventModel>)>>,
    missing: Seq<EventModel>,
    k: int,
) -> Seq<char>
    decreases values.len() - k,
{
    if k < 0 || k >= values.len() {
        Seq::empty()
    } else {
        let here = match first_item(cs, c) {
            Some(ji) => repeat_range_chars(
                cs,
                cs[ji],
                events,
                values[k],
                missing,
                cs[ji].begin,
                cs[ji].end + 1,
            ),
            None => Seq::empty(),
        };
        here + repeat_section_chars(cs, c, events, values, missing, k + 1)
    }
}

/// The text a whole part maps to, from event `i` on: events outside any
/// control body pass through; at each body's opening event the body is
/// replaced, a repeating section by its expanded instances and any other
/// control by its wrapped fragment; all other body events are dropped.
pub open spec fn map_chars_from(
    events: Seq<EventModel>,
    cs: Seq<ControlModel>,
    pm: Seq<(Seq<char>, Seq<EventModel>)>,
    prm: Seq<(Seq<char>, Seq<Seq<(Seq<char>, Seq<EventModel>)>>)>,
    missing: Seq<EventModel>,
    i: int,
) -> Seq<char>
    decreases events.len() - i,
{
    if i < 0 || i >= events.len() {
        Seq::empty()
    } else {
        let here = match first_intersecting(cs, i) {
            Some(j) => if cs[j].content_begin == i {
                event_chars(events[i]) + (if cs[j].kind == ContentControlType::RepeatingSection {
                    repeat_section_chars(cs, cs[j], events, repeat_values(prm, cs[j].tag), missing, 0)
                } else {
                    write_content_chars(cs[j], frag_for(pm, cs[j].tag, missing), events)
                })
            } else {
                Seq::empty()
            },
            None => event_chars(events[i]),
        };
        here + map_chars_from(events, cs, pm, prm, missing, i + 1)
    }
}

/// The text a whole part maps to.
pub open spec fn map_part_chars(
    events: Seq<EventModel>,
    cs: Seq<ControlModel>,
    pm: Seq<(Seq<char>, Seq<EventModel>)>,
    prm: Seq<(Seq<char>, Seq<Seq<(Seq<char>, Seq<EventModel>)>>)>,
    missing: Seq<EventModel>,
) -> Seq<char> {
    map_chars_from(events, cs, pm, prm, missing, 0)
}

/// Writes one repeating-section instance: the item template's events with
/// each nested control's body replaced under the instance's sub-mapping.
#[verifier::loop_isolation(false)]
fn emit_repeat_range(
    out: &mut String,
    events: &Vec<RawEvent>,
    controls: &Vec<ContentControlPosition>,
    item: &ContentControlPosition,
    v: &ParsedMapping,
    missing: &Vec<RawEvent>,
)
    requires
        controls_fit(control_views(controls@), events@.len() as int),
        item@.begin >= 0,
        item@.end < events@.len(),
        events@.len() <= i32::MAX as int,
    ensures
        final(out)@ == old(out)@ + repeat_range_chars(
            control_views(controls@),
            item@,
            event_views(events@),
            frag_map_view(v@),
            event_views(missing@),
            item@.begin,
            item@.end + 1,
        ),
{
    let ghost cs = control_views(controls@);
    let ghost evs = event_views(events@);
    let ghost vm = frag_map_view(v@);
    let ghost mi = event_views(missing@);
    let ghost goal = old(out)@ + repeat_range_chars(cs, item@, evs, vm, mi, item@.begin, item@.end + 1);
    let stop: i32 = item.end;
    let mut k: i32 = item.begin;
    while k <= stop
        invariant
            cs == control_views(controls@),
            evs == event_views(events@),
            vm == frag_map_view(v@),
            mi == event_views(missing@),
            controls_fit(cs, evs.len() as int),
            item@.begin <= k as int,
            stop == item@.end < evs.len(),
            evs.len() <= i32::MAX as int,
            out@ + repeat_range_chars(cs, item@, evs, vm, mi, k as int, stop + 1) == goal,
        decreases stop + 1 - k,
    {
        let ghost before = out@;
        let ghost here = repeat_range_chars(cs, item@, evs, vm, mi, k as int, stop + 1);
        match get_contained_control_at(controls, item, k) {
            Some(g) => {
                if controls[g].content_begin == k {
                    push_event_text(out, &events[k as usize]);
                    let frag = match lookup_frag(v, &controls[g].tag) {
                        Some(f) => f,
                        None => missing,
                    };
                    proof {
                        assert(control_fits(cs[g as int], evs.len() as int));
                    }
                    write_content(out, &controls[g], frag, events);
                }
            },
            None => {
                push_event_text(out, &events[k as usize]);
            },
        }
        proof {
            assert(out@ + repeat_range_chars(cs, item@, evs, vm, mi, k + 1, stop + 1) =~= before
                + here);
        }
        k = k + 1;
    }
    proof {
        assert(repeat_range_chars(cs, item@, evs, vm, mi, k as int, stop + 1) == Seq::<
            char,
        >::empty());
        assert(out@ + Seq::<char>::empty() =~= out@);
    }
}

/// Writes a repeating section's expansion: one instance of the first item
/// template per sub-mapping, in order.
#[verifier::loop_isolation(false)]
fn emit_repeat_section(
    out: &mut String,
    events: &Vec<RawEvent>,
    controls: &Vec<ContentControlPosition>,
    control: &ContentControlPosition,
    values: &Vec<ParsedMapping>,
    missing: &Vec<RawEvent>,
)
    requires
        controls_fit(control_views(controls@), events@.len() as int),
        events@.len() <= i32::MAX as int,
    ensures
        final(out)@ == old(out)@ + repeat_section_chars(
            control_views(controls@),
            control@,
            event_views(events@),
            Seq::new(values@.len(), |k: int| frag_map_view(values@[k]@)),
            event_views(missing@),
            0,
        ),
{
    let ghost cs = control_views(controls@);
    let ghost evs = event_views(events@);
    let ghost vs = Seq::new(values@.len(), |k: int| frag_map_view(values@[k]@));
    let ghost mi = event_views(missing@);
    let ghost goal = old(out)@ + repeat_section_chars(cs, control@, evs, vs, mi, 0);
    let mut k: usize = 0;
    while k < values.len()
        invariant
            cs == control_views(controls@),
            evs == event_views(events@),
            vs == Seq::new(values@.len(), |k2: int| frag_map_view(values@[k2]@)),
            mi == event_views(missing@),
            controls_fit(cs, evs.len() as int),
            evs.len() <= i32::MAX as int,
            k <= values@.len(),
            out@ + repeat_section_chars(cs, control@, evs, vs, mi, k as int) == goal,
        decreases values@.len() - k,
    {
        let ghost before = out@;
        let ghost here = repeat_section_chars(cs, control@, evs, vs, mi, k as int);
        match find_first_item(controls, control) {
            Some(ji) => {
                proof {
                    assert(control_fits(cs[ji as int], evs.len() as int));
                }
                emit_repeat_range(out, events, controls, &controls[ji], &values[k], missing);
            },
            None => {},
        }
        proof {
            assert(out@ + repeat_section_chars(cs, control@, evs, vs, mi, k + 1) =~= before + here);
        }
        k = k + 1;
    }
    proof {
        assert(repeat_section_chars(cs, control@, evs, vs, mi, k as int) == Seq::<char>::empty());
        assert(out@ + Seq::<char>::empty() =~= out@);
    }
}

/// Rewrites one part's events: every control body is replaced by its
/// mapped, wrapped fragment, a repeating section by its expanded
/// instances, and everything outside control bodies passes through.
#[verifier::loop_isolation(false)]
pub fn map_part(
    events: &Vec<RawEvent>,
    controls: &Vec<ContentControlPosition>,
    pm: &ParsedMapping,
    prm: &ParsedRepeatMapping,
    missing: &Vec<RawEvent>,
) -> (out: String)
    requires
        controls_fit(control_views(controls@), events@.len() as int),
        events@.len() <= i32::MAX as int,
    ensures
        out@ == map_part_chars(
            event_views(events@),
            control_views(controls@),
            frag_map_view(pm@),
            repeat_map_view(prm@),
            event_views(missing@),
        ),
{
    let ghost cs = control_views(controls@);
    let ghost evs = event_views(events@);
    let ghost pmv = frag_map_view(pm@);
    let ghost prmv = repeat_map_view(prm@);
    let ghost mi = event_views(missing@);
    let ghost goal = map_part_chars(evs, cs, pmv, prmv, mi);
    let mut out = String::new();
    let mut i: usize = 0;
    while i < events.len()
        invariant
            cs == control_views(controls@),
            evs == event_views(events@),
            pmv == frag_map_view(pm@),
            prmv == repeat_map_view(prm@),
            mi == event_views(missing@),
            controls_fit(cs, evs.len() as int),
            evs.len() <= i32::MAX as int,
            i <= events@.len(),
            out@ + map_chars_from(evs, cs, pmv, prmv, mi, i as int) == goal,
        decreases events@.len() - i,
    {
        let ghost before = out@;
        let ghost here = map_chars_from(evs, cs, pmv, prmv, mi, i as int);
        match get_intersecting_control_position(i as i32, controls) {
            Some(j) => {
                if controls[j].content_begin == (i as i32) {
                    push_event_text(&mut out, &events[i]);
                    let is_repeat = match controls[j].kind {
                        ContentControlType::RepeatingSection => true,
                        _ => false,
                    };
                    if is_repeat {
                        match lookup_values(prm, &controls[j].tag) {
                            Some(values) => {
                                emit_repeat_section(
                                    &mut out,
                                    events,
                                    controls,
                                    &controls[j],
                                    values,
                                    missing,
                                );
                            },
                            None => {
                                proof {
                                    assert(repeat_values(prmv, cs[j as int].tag) =~= Seq::<
                                        Seq<(Seq<char>, Seq<EventModel>)>,
                                    >::empty());
                                    assert(repeat_section_chars(
                                        cs,
                                        cs[j as int],
                                        evs,
                                        repeat_values(prmv, cs[j as int].tag),
                                        mi,
                                        0,
                                    ) == Seq::<char>::empty());
                                }
                            },
                        }
                    } else {
                        let frag = match lookup_frag(pm, &controls[j].tag) {
                            Some(f) => f,
                            None => missing,
                        };
                        write_content(&mut out, &controls[j], frag, events);
                    }
                }
            },
            None => {
                push_event_text(&mut out, &events[i]);
            },
        }
        proof {
            assert(out@ + map_chars_from(evs, cs, pmv, prmv, mi, i + 1) =~= before + here);
        }
        i = i + 1;
    }
    proof {
        assert(map_chars_from(evs, cs, pmv, prmv, mi, i as int) == Seq::<char>::empty());
        assert(out@ + Seq::<char>::empty() =~= out@);
        assert(out@ =~= goal);
    }
    out
}

/// Whether the scan stands inside the named element, or the event just
/// consumed closed it.
pub open spec fn is_at_spec(s: StateModel, k: Seq<char>) -> bool {
    depth_of(s.depths, k) > 0 || s.last_seen_closed == k
}

/// Whether the stripper keeps an event, judged with the state after the
/// event: the framing of a structured document tag and everything at its
/// parameters block are dropped, the rest passes through.
pub open spec fn strip_keep(s2: StateModel, ev: EventModel) -> bool {
    match ev {
        EventModel::Start { name, content } => name != "w:sdtContent"@ && name != "w:sdt"@
            && !is_at_spec(s2, "w:sdtPr"@),
        EventModel::End { name } => name != "w:sdtContent"@ && name != "w:sdt"@ && !is_at_spec(
            s2,
            "w:sdtPr"@,
        ),
        _ => !is_at_spec(s2, "w:sdtPr"@),
    }
}

/// The text stripping emits from event `i` on, the tracker standing at `s`.
pub open spec fn strip_chars_from(events: Seq<EventModel>, s: StateModel, i: int) -> Seq<char>
    decreases events.len() - i,
{
    if i < 0 || i >= events.len() {
        Seq::empty()
    } else {
        let s2 = spec_step(s, events[i]);
        (if strip_keep(s2, events[i]) {
            event_chars(events[i])
        } else {
            Seq::empty()
        }) + strip_chars_from(events, s2, i + 1)
    }
}

/// The text a whole part strips to.
pub open spec fn strip_part_chars(events: Seq<EventModel>) -> Seq<char> {
    strip_chars_from(events, init_state(), 0)
}

/// Strips one part's text: content-control framing and parameters are
/// erased, everything else passes through in order.
#[verifier::loop_isolation(false)]
pub fn strip_part(text: &str) -> (r: Result<String, PartError>)
    ensures
        match r {
            Ok(out) => scan_ok(text@) && part_small(text@) && out@ == strip_part_chars(
                part_events(text@),
            ),
            Err(e) => match e {
                PartError::Parse { position } => !scan_ok(text@) && position == first_failure_pos(
                    scan_items(text@),
                ),
                PartError::Structure {  } => scan_ok(text@) && !part_small(text@),
            },
        },
{
    let events = match scan_events(text) {
        Ok(evs) => evs,
        Err(position) => {
            return Err(PartError::Parse { position });
        },
    };
    let ghost evs = event_views(events@);
    let mut st = DocumentState::new();
    let mut out = String::new();
    let mut i: usize = 0;
    let ghost goal = strip_part_chars(evs);
    proof {
        assert(evs.take(0) =~= Seq::<EventModel>::empty());
        assert(st@ =~~= run_steps(evs.take(0)));
    }
    while i < events.len()
        invariant
            evs == event_views(events@),
            st.wf(),
            state_bounded(st@),
            i <= events@.len(),
            i <= i32::MAX as usize,
            st@ =~~= run_steps(evs.take(i as int)),
            out@ + strip_chars_from(evs, st@, i as int) == goal,
            goal == strip_part_chars(evs),
        decreases events@.len() - i,
    {
        if i >= (i32::MAX as usize) {
            return Err(PartError::Structure {  });
        }
        proof {
            crate::index::lemma_run_steps_counter(evs.take(i as int));
        }
        let ghost s_pre = st@;
        let ghost before = out@;
        let ghost here = strip_chars_from(evs, s_pre, i as int);
        st.consume(&events[i]);
        let keep = match &events[i] {
            RawEvent::Start { name, content: _ } => !(*name == "w:sdtContent".to_owned()) && !(
            *name == "w:sdt".to_owned()) && !st.is_at("w:sdtPr"),
            RawEvent::End { name } => !(*name == "w:sdtContent".to_owned()) && !(*name
                == "w:sdt".to_owned()) && !st.is_at("w:sdtPr"),
            _ => !st.is_at("w:sdtPr"),
        };
        if keep {
            push_event_text(&mut out, &events[i]);
        }
        proof {
            assert(evs.take(i + 1).drop_last() =~= evs.take(i as int));
            assert(evs.take(i + 1).last() == evs[i as int]);
            assert(st@ =~~= run_steps(evs.take(i + 1)));
            assert(out@ + strip_chars_from(evs, st@, i + 1) =~= before + here);
        }
        i = i + 1;
    }
    proof {
        assert(strip_chars_from(evs, st@, i as int) == Seq::<char>::empty());
        assert(out@ + Seq::<char>::empty() =~= out@);
        assert(evs.len() == events@.len());
    }
    Ok(out)
}

} // verus!
