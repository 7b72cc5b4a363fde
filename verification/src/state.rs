use vstd::prelude::*;
use crate::controls::{ContentControlPosition, ControlModel, ContentControlType, control_views, spec_content_opened, spec_closed, spec_content_closed, spec_intersects_header, spec_parse_kind, empty_control};
use crate::events::{EventModel, RawEvent};
use crate::scanner::{attrs_of, parse_attributes, attr_views, Attr};
use vstd::utf8::{encode_utf8, is_char_boundary};
use vstd::string::StringSliceAdditionalSpecFns;
use vstd::string::StringExecFns;

verus! {

broadcast use vstd::string::group_string_axioms;

/// The element names the tracker distinguishes are pairwise distinct.
proof fn lemma_names_distinct()
    ensures
        "w:sdt"@ != "w:sdtContent"@,
        "w:sdt"@ != "w:p"@,
        "w:sdt"@ != "w:rPr"@,
        "w:sdt"@ != "w:pPr"@,
        "w:sdtContent"@ != "w:p"@,
        "w:sdtContent"@ != "w:rPr"@,
        "w:sdtContent"@ != "w:pPr"@,
        "w:p"@ != "w:rPr"@,
        "w:p"@ != "w:pPr"@,
        "w:rPr"@ != "w:pPr"@,
{
    reveal_strlit("w:sdt");
    reveal_strlit("w:sdtContent");
    reveal_strlit("w:p");
    reveal_strlit("w:rPr");
    reveal_strlit("w:pPr");
    assert("w:sdt"@.len() == 5);
    assert("w:sdtContent"@.len() == 12);
    assert("w:p"@.len() == 3);
    assert("w:rPr"@.len() == 5);
    assert("w:pPr"@.len() == 5);
    assert("w:sdt"@[2] != "w:rPr"@[2]);
    assert("w:sdt"@[2] != "w:pPr"@[2]);
    assert("w:rPr"@[2] != "w:pPr"@[2]);
}

/// Reads a map of name counters, treating missing names as zero.
pub open spec fn depth_of(m: Map<Seq<char>, int>, k: Seq<char>) -> int {
    if m.dom().contains(k) {
        m[k]
    } else {
        0
    }
}

/// The map an association list stands for: later entries win.
pub open spec fn map_of_entries(entries: Seq<(String, i32)>) -> Map<Seq<char>, int>
    decreases entries.len(),
{
    if entries.len() == 0 {
        Map::empty()
    } else {
        map_of_entries(entries.drop_last()).insert(entries.last().0@, entries.last().1 as int)
    }
}

/// Entries carry pairwise distinct keys.
pub open spec fn entries_unique(entries: Seq<(String, i32)>) -> bool {
    forall|i: int, j: int| 0 <= i < j < entries.len() ==> (#[trigger] entries[i]).0@ != (
    #[trigger] entries[j]).0@
}

proof fn lemma_map_of_entries_absent(entries: Seq<(String, i32)>, k: Seq<char>)
    requires
        forall|i: int| 0 <= i < entries.len() ==> (#[trigger] entries[i]).0@ != k,
    ensures
        !map_of_entries(entries).dom().contains(k),
    decreases entries.len(),
{
    if entries.len() > 0 {
        assert(entries.last() == entries[entries.len() - 1]);
        assert forall|i: int| 0 <= i < entries.drop_last().len() implies (#[trigger] entries.drop_last()[i]).0@
            != k by {
            assert(entries.drop_last()[i] == entries[i]);
        }
        lemma_map_of_entries_absent(entries.drop_last(), k);
    }
}

proof fn lemma_map_of_entries_at(entries: Seq<(String, i32)>, i: int)
    requires
        entries_unique(entries),
        0 <= i < entries.len(),
    ensures
        map_of_entries(entries).dom().contains(entries[i].0@),
        map_of_entries(entries)[entries[i].0@] == entries[i].1 as int,
    decreases entries.len(),
{
    if i == entries.len() - 1 {
        assert(entries.last() == entries[i]);
    } else {
        assert forall|a: int, b: int| 0 <= a < b < entries.drop_last().len() implies (
        #[trigger] entries.drop_last()[a]).0@ != (#[trigger] entries.drop_last()[b]).0@ by {
            assert(entries.drop_last()[a] == entries[a]);
            assert(entries.drop_last()[b] == entries[b]);
        }
        lemma_map_of_entries_at(entries.drop_last(), i);
        assert(entries.drop_last()[i] == entries[i]);
        assert(entries[i].0@ != entries[entries.len() - 1].0@);
        assert(entries.last() == entries[entries.len() - 1]);
    }
}

/// A counter per element name. An association list stands in for a hash
/// map so that the verifier can see its contents.
pub struct CounterMap {
    entries: Vec<(String, i32)>,
}

impl CounterMap {
    /// The entries carry pairwise distinct keys.
    pub closed spec fn wf(&self) -> bool {
        entries_unique(self.entries@)
    }

    /// The map this list stands for.
    pub closed spec fn as_map(&self) -> Map<Seq<char>, int> {
        map_of_entries(self.entries@)
    }

    pub fn new() -> (r: Self)
        ensures
            r.wf(),
            r.as_map() == Map::<Seq<char>, int>::empty(),
    {
        CounterMap { entries: Vec::new() }
    }

    /// The counter stored for `k`, zero when `k` has none.
    pub fn get(&self, k: &str) -> (r: i32)
        requires
            self.wf(),
        ensures
            r as int == depth_of(self.as_map(), k@),
    {
        let key = k.to_owned();
        let mut i: usize = 0;
        while i < self.entries.len()
            invariant
                self.wf(),
                key@ == k@,
                i <= self.entries@.len(),
                forall|j: int| 0 <= j < i ==> (#[trigger] self.entries@[j]).0@ != k@,
            decreases self.entries@.len() - i,
        {
            if self.entries[i].0 == key {
                proof {
                    lemma_map_of_entries_at(self.entries@, i as int);
                }
                return self.entries[i].1;
            }
            i = i + 1;
        }
        proof {
            lemma_map_of_entries_absent(self.entries@, k@);
        }
        0
    }

    /// Stores counter `v` for `k`.
    pub fn set(&mut self, k: &str, v: i32)
        requires
            old(self).wf(),
        ensures
            final(self).wf(),
            final(self).as_map() == old(self).as_map().insert(k@, v as int),
    {
        let key = k.to_owned();
        let mut i: usize = 0;
        while i < self.entries.len()
            invariant
                self.wf(),
                self.entries@ == old(self).entries@,
                key@ == k@,
                i <= self.entries@.len(),
                forall|j: int| 0 <= j < i ==> (#[trigger] self.entries@[j]).0@ != k@,
            decreases self.entries@.len() - i,
        {
            if self.entries[i].0 == key {
                let ghost before = self.entries@;
                let _ = self.entries.remove(i);
                self.entries.insert(i, (key, v));
                proof {
                    let entry = self.entries@[i as int];
                    assert(self.entries@ =~= before.update(i as int, entry));
                    lemma_map_of_update(before, i as int, entry.0, v);
                    assert(self.as_map() =~= old(self).as_map().insert(k@, v as int));
                }
                return ;
            }
            i = i + 1;
        }
        proof {
            lemma_map_of_entries_absent(self.entries@, k@);
        }
        self.entries.push((key, v));
        proof {
            assert(self.entries@.drop_last() =~= old(self).entries@);
            assert forall|a: int, b: int| 0 <= a < b < self.entries@.len() implies (
            #[trigger] self.entries@[a]).0@ != (#[trigger] self.entries@[b]).0@ by {
                assert(self.entries@[a] == old(self).entries@[a]);
                if b < self.entries@.len() - 1 {
                    assert(self.entries@[b] == old(self).entries@[b]);
                }
            }
            assert(self.as_map() =~= old(self).as_map().insert(k@, v as int));
        }
    }
}

proof fn lemma_map_of_update(entries: Seq<(String, i32)>, i: int, key: String, v: i32)
    requires
        entries_unique(entries),
        0 <= i < entries.len(),
        key@ == entries[i].0@,
    ensures
        map_of_entries(entries.update(i, (key, v))) == map_of_entries(entries).insert(key@, v as int),
        entries_unique(entries.update(i, (key, v))),
    decreases entries.len(),
{
    let updated = entries.update(i, (key, v));
    assert forall|a: int, b: int| 0 <= a < b < updated.len() implies (#[trigger] updated[a]).0@
        != (#[trigger] updated[b]).0@ by {
        assert(updated[a].0@ == entries[a].0@);
        assert(updated[b].0@ == entries[b].0@);
    }
    if i == entries.len() - 1 {
        assert(updated.drop_last() =~= entries.drop_last());
        assert(updated.last() == (key, v));
        assert(map_of_entries(updated) =~= map_of_entries(entries).insert(key@, v as int));
    } else {
        assert(updated.drop_last() =~= entries.drop_last().update(i, (key, v)));
        assert forall|a: int, b: int| 0 <= a < b < entries.drop_last().len() implies (
        #[trigger] entries.drop_last()[a]).0@ != (#[trigger] entries.drop_last()[b]).0@ by {
            assert(entries.drop_last()[a] == entries[a]);
            assert(entries.drop_last()[b] == entries[b]);
        }
        assert(entries.drop_last()[i] == entries[i]);
        lemma_map_of_update(entries.drop_last(), i, key, v);
        assert(updated.last() == entries.last());
        assert(entries.last().0@ != key@);
        assert(map_of_entries(updated) =~= map_of_entries(entries).insert(key@, v as int));
    }
}


/// The last control whose body has not opened yet, if any.
pub open spec fn last_content_unopened(cs: Seq<ControlModel>) -> Option<int>
    decreases cs.len(),
{
    if cs.len() == 0 {
        None
    } else if !spec_content_opened(cs.last()) {
        Some(cs.len() - 1)
    } else {
        last_content_unopened(cs.drop_last())
    }
}

/// The last control not closed yet, if any.
pub open spec fn last_unclosed(cs: Seq<ControlModel>) -> Option<int>
    decreases cs.len(),
{
    if cs.len() == 0 {
        None
    } else if !spec_closed(cs.last()) {
        Some(cs.len() - 1)
    } else {
        last_unclosed(cs.drop_last())
    }
}

/// The last control whose body has not closed yet, if any.
pub open spec fn last_content_unclosed(cs: Seq<ControlModel>) -> Option<int>
    decreases cs.len(),
{
    if cs.len() == 0 {
        None
    } else if !spec_content_closed(cs.last()) {
        Some(cs.len() - 1)
    } else {
        last_content_unclosed(cs.drop_last())
    }
}

/// The last control whose header the event at `index` falls into, if any.
pub open spec fn last_header_open(cs: Seq<ControlModel>, index: int) -> Option<int>
    decreases cs.len(),
{
    if cs.len() == 0 {
        None
    } else if spec_intersects_header(cs.last(), index) {
        Some(cs.len() - 1)
    } else {
        last_header_open(cs.drop_last(), index)
    }
}

proof fn lemma_last_content_unopened_at(cs: Seq<ControlModel>, j: int)
    requires
        0 <= j < cs.len(),
        !spec_content_opened(cs[j]),
        forall|k: int| j < k < cs.len() ==> spec_content_opened(#[trigger] cs[k]),
    ensures
        last_content_unopened(cs) == Some(j),
    decreases cs.len(),
{
    if j < cs.len() - 1 {
        assert(spec_content_opened(cs.last()));
        assert(cs.drop_last()[j] == cs[j]);
        assert forall|k: int| j < k < cs.drop_last().len() implies spec_content_opened(
            #[trigger] cs.drop_last()[k],
        ) by {
            assert(cs.drop_last()[k] == cs[k]);
        }
        lemma_last_content_unopened_at(cs.drop_last(), j);
    }
}

proof fn lemma_last_content_unopened_none(cs: Seq<ControlModel>)
    requires
        forall|k: int| 0 <= k < cs.len() ==> spec_content_opened(#[trigger] cs[k]),
    ensures
        last_content_unopened(cs) == None::<int>,
    decreases cs.len(),
{
    if cs.len() > 0 {
        assert forall|k: int| 0 <= k < cs.drop_last().len() implies spec_content_opened(
            #[trigger] cs.drop_last()[k],
        ) by {
            assert(cs.drop_last()[k] == cs[k]);
        }
        lemma_last_content_unopened_none(cs.drop_last());
    }
}

proof fn lemma_last_unclosed_at(cs: Seq<ControlModel>, j: int)
    requires
        0 <= j < cs.len(),
        !spec_closed(cs[j]),
        forall|k: int| j < k < cs.len() ==> spec_closed(#[trigger] cs[k]),
    ensures
        last_unclosed(cs) == Some(j),
    decreases cs.len(),
{
    if j < cs.len() - 1 {
        assert(spec_closed(cs.last()));
        assert(cs.drop_last()[j] == cs[j]);
        assert forall|k: int| j < k < cs.drop_last().len() implies spec_closed(
            #[trigger] cs.drop_last()[k],
        ) by {
            assert(cs.drop_last()[k] == cs[k]);
        }
        lemma_last_unclosed_at(cs.drop_last(), j);
    }
}

proof fn lemma_last_unclosed_none(cs: Seq<ControlModel>)
    requires
        forall|k: int| 0 <= k < cs.len() ==> spec_closed(#[trigger] cs[k]),
    ensures
        last_unclosed(cs) == None::<int>,
    decreases cs.len(),
{
    if cs.len() > 0 {
        assert forall|k: int| 0 <= k < cs.drop_last().len() implies spec_closed(
            #[trigger] cs.drop_last()[k],
        ) by {
            assert(cs.drop_last()[k] == cs[k]);
        }
        lemma_last_unclosed_none(cs.drop_last());
    }
}

proof fn lemma_last_content_unclosed_at(cs: Seq<ControlModel>, j: int)
    requires
        0 <= j < cs.len(),
        !spec_content_closed(cs[j]),
        forall|k: int| j < k < cs.len() ==> spec_content_closed(#[trigger] cs[k]),
    ensures
        last_content_unclosed(cs) == Some(j),
    decreases cs.len(),
{
    if j < cs.len() - 1 {
        assert(spec_content_closed(cs.last()));
        assert(cs.drop_last()[j] == cs[j]);
        assert forall|k: int| j < k < cs.drop_last().len() implies spec_content_closed(
            #[trigger] cs.drop_last()[k],
        ) by {
            assert(cs.drop_last()[k] == cs[k]);
        }
        lemma_last_content_unclosed_at(cs.drop_last(), j);
    }
}

proof fn lemma_last_content_unclosed_none(cs: Seq<ControlModel>)
    requires
        forall|k: int| 0 <= k < cs.len() ==> spec_content_closed(#[trigger] cs[k]),
    ensures
        last_content_unclosed(cs) == None::<int>,
    decreases cs.len(),
{
    if cs.len() > 0 {
        assert forall|k: int| 0 <= k < cs.drop_last().len() implies spec_content_closed(
            #[trigger] cs.drop_last()[k],
        ) by {
            assert(cs.drop_last()[k] == cs[k]);
        }
        lemma_last_content_unclosed_none(cs.drop_last());
    }
}

proof fn lemma_last_header_open_at(cs: Seq<ControlModel>, index: int, j: int)
    requires
        0 <= j < cs.len(),
        spec_intersects_header(cs[j], index),
        forall|k: int| j < k < cs.len() ==> !spec_intersects_header(#[trigger] cs[k], index),
    ensures
        last_header_open(cs, index) == Some(j),
    decreases cs.len(),
{
    if j < cs.len() - 1 {
        assert(!spec_intersects_header(cs.last(), index));
        assert(cs.drop_last()[j] == cs[j]);
        assert forall|k: int| j < k < cs.drop_last().len() implies !spec_intersects_header(
            #[trigger] cs.drop_last()[k],
            index,
        ) by {
            assert(cs.drop_last()[k] == cs[k]);
        }
        lemma_last_header_open_at(cs.drop_last(), index, j);
    }
}

proof fn lemma_last_header_open_none(cs: Seq<ControlModel>, index: int)
    requires
        forall|k: int| 0 <= k < cs.len() ==> !spec_intersects_header(#[trigger] cs[k], index),
    ensures
        last_header_open(cs, index) == None::<int>,
    decreases cs.len(),
{
    if cs.len() > 0 {
        assert forall|k: int| 0 <= k < cs.drop_last().len() implies !spec_intersects_header(
            #[trigger] cs.drop_last()[k],
            index,
        ) by {
            assert(cs.drop_last()[k] == cs[k]);
        }
        lemma_last_header_open_none(cs.drop_last(), index);
    }
}

fn find_last_content_unopened(controls: &Vec<ContentControlPosition>) -> (r: Option<usize>)
    ensures
        match r {
            Some(j) => j < controls@.len() && last_content_unopened(control_views(controls@))
                == Some(j as int),
            None => last_content_unopened(control_views(controls@)) == None::<int>,
        },
{
    let mut j = controls.len();
    while j > 0
        invariant
            j <= controls@.len(),
            forall|k: int| j <= k < controls@.len() ==> spec_content_opened(
                #[trigger] controls@[k]@,
            ),
        decreases j,
    {
        j = j - 1;
        if !controls[j].content_opened() {
            proof {
                assert forall|k: int| j < k < control_views(controls@).len()
                    implies spec_content_opened(#[trigger] control_views(controls@)[k]) by {
                    assert(control_views(controls@)[k] == controls@[k]@);
                }
                lemma_last_content_unopened_at(control_views(controls@), j as int);
            }
            return Some(j);
        }
    }
    proof {
        assert forall|k: int| 0 <= k < control_views(controls@).len() implies spec_content_opened(
            #[trigger] control_views(controls@)[k],
        ) by {
            assert(control_views(controls@)[k] == controls@[k]@);
        }
        lemma_last_content_unopened_none(control_views(controls@));
    }
    None
}

fn find_last_unclosed(controls: &Vec<ContentControlPosition>) -> (r: Option<usize>)
    ensures
        match r {
            Some(j) => j < controls@.len() && last_unclosed(control_views(controls@)) == Some(
                j as int,
            ),
            None => last_unclosed(control_views(controls@)) == None::<int>,
        },
{
    let mut j = controls.len();
    while j > 0
        invariant
            j <= controls@.len(),
            forall|k: int| j <= k < controls@.len() ==> spec_closed(#[trigger] controls@[k]@),
        decreases j,
    {
        j = j - 1;
        if !controls[j].closed() {
            proof {
                assert forall|k: int| j < k < control_views(controls@).len() implies spec_closed(
                    #[trigger] control_views(controls@)[k],
                ) by {
                    assert(control_views(controls@)[k] == controls@[k]@);
                }
                lemma_last_unclosed_at(control_views(controls@), j as int);
            }
            return Some(j);
        }
    }
    proof {
        assert forall|k: int| 0 <= k < control_views(controls@).len() implies spec_closed(
            #[trigger] control_views(controls@)[k],
        ) by {
            assert(control_views(controls@)[k] == controls@[k]@);
        }
        lemma_last_unclosed_none(control_views(controls@));
    }
    None
}

fn find_last_content_unclosed(controls: &Vec<ContentControlPosition>) -> (r: Option<usize>)
    ensures
        match r {
            Some(j) => j < controls@.len() && last_content_unclosed(control_views(controls@))
                == Some(j as int),
            None => last_content_unclosed(control_views(controls@)) == None::<int>,
        },
{
    let mut j = controls.len();
    while j > 0
        invariant
            j <= controls@.len(),
            forall|k: int| j <= k < controls@.len() ==> spec_content_closed(
                #[trigger] controls@[k]@,
            ),
        decreases j,
    {
        j = j - 1;
        if !controls[j].content_closed() {
            proof {
                assert forall|k: int| j < k < control_views(controls@).len()
                    implies spec_content_closed(#[trigger] control_views(controls@)[k]) by {
                    assert(control_views(controls@)[k] == controls@[k]@);
                }
                lemma_last_content_unclosed_at(control_views(controls@), j as int);
            }
            return Some(j);
        }
    }
    proof {
        assert forall|k: int| 0 <= k < control_views(controls@).len() implies spec_content_closed(
            #[trigger] control_views(controls@)[k],
        ) by {
            assert(control_views(controls@)[k] == controls@[k]@);
        }
        lemma_last_content_unclosed_none(control_views(controls@));
    }
    None
}

fn find_last_header_open(controls: &Vec<ContentControlPosition>, index: i32) -> (r: Option<usize>)
    ensures
        match r {
            Some(j) => j < controls@.len() && last_header_open(
                control_views(controls@),
                index as int,
            ) == Some(j as int),
            None => last_header_open(control_views(controls@), index as int) == None::<int>,
        },
{
    let mut j = controls.len();
    while j > 0
        invariant
            j <= controls@.len(),
            forall|k: int| j <= k < controls@.len() ==> !spec_intersects_header(
                #[trigger] controls@[k]@,
                index as int,
            ),
        decreases j,
    {
        j = j - 1;
        if controls[j].intersects_header(index) {
            proof {
                assert forall|k: int| j < k < control_views(controls@).len()
                    implies !spec_intersects_header(
                    #[trigger] control_views(controls@)[k],
                    index as int,
                ) by {
                    assert(control_views(controls@)[k] == controls@[k]@);
                }
                lemma_last_header_open_at(control_views(controls@), index as int, j as int);
            }
            return Some(j);
        }
    }
    proof {
        assert forall|k: int| 0 <= k < control_views(controls@).len()
            implies !spec_intersects_header(
            #[trigger] control_views(controls@)[k],
            index as int,
        ) by {
            assert(control_views(controls@)[k] == controls@[k]@);
        }
        lemma_last_header_open_none(control_views(controls@), index as int);
    }
    None
}


/// The mathematical shape of a `DocumentState`.
#[verifier::ext_equal]
pub struct StateModel {
    pub depths: Map<Seq<char>, int>,
    pub positions: Map<Seq<char>, int>,
    pub controls: Seq<ControlModel>,
    pub is_eof: bool,
    pub last_seen_closed: Seq<char>,
    pub counter: int,
}

/// The state before any event has been consumed.
pub open spec fn init_state() -> StateModel {
    StateModel {
        depths: Map::empty(),
        positions: Map::empty(),
        controls: Seq::empty(),
        is_eof: false,
        last_seen_closed: Seq::empty(),
        counter: 0,
    }
}

/// Every stored depth counter is bounded by how many events were consumed.
pub open spec fn state_bounded(s: StateModel) -> bool {
    s.counter >= 0 && forall|k: Seq<char>| s.depths.dom().contains(k) ==> -s.counter <= (
    #[trigger] s.depths[k]) <= s.counter
}

/// The attributes carried by an empty element event, as the reader parses
/// them from its content after the name. An element whose name does not
/// end on a character boundary inside its content carries none.
pub open spec fn spec_event_attrs(name: Seq<char>, content: Seq<char>) -> Seq<(Seq<char>, Seq<char>)> {
    let name_len = encode_utf8(name).len() as usize;
    let content_len = encode_utf8(content).len() as usize;
    if name_len <= content_len && is_char_boundary(encode_utf8(content), name_len as int) {
        attrs_of(content, name_len as int)
    } else {
        Seq::empty()
    }
}

/// The tag after every `w:val` attribute has been applied in order: the
/// last one wins, and without any the tag stays as it was.
pub open spec fn spec_tag_from_attrs(tag: Seq<char>, attrs: Seq<(Seq<char>, Seq<char>)>) -> Seq<
    char,
>
    decreases attrs.len(),
{
    if attrs.len() == 0 {
        tag
    } else if attrs.last().0 == "w:val"@ {
        attrs.last().1
    } else {
        spec_tag_from_attrs(tag, attrs.drop_last())
    }
}

/// Opens the body of the last control that has none yet.
pub open spec fn ctrls_open_content(cs: Seq<ControlModel>, counter: int) -> Seq<ControlModel> {
    match last_content_unopened(cs) {
        Some(j) => cs.update(j, ControlModel { content_begin: counter, ..cs[j] }),
        None => cs,
    }
}

/// Marks the most recent control as holding a paragraph.
pub open spec fn ctrls_mark_paragraph(cs: Seq<ControlModel>) -> Seq<ControlModel> {
    if cs.len() > 0 {
        cs.update(cs.len() - 1, ControlModel { contains_paragraph: true, ..cs.last() })
    } else {
        cs
    }
}

/// Records where the most recent control's run properties start, once.
pub open spec fn ctrls_set_run_params_start(cs: Seq<ControlModel>, counter: int) -> Seq<
    ControlModel,
> {
    if cs.len() > 0 && cs.last().run_params_start < 0 {
        cs.update(cs.len() - 1, ControlModel { run_params_start: counter, ..cs.last() })
    } else {
        cs
    }
}

/// Records where the most recent control's paragraph properties start, once.
pub open spec fn ctrls_set_paragraph_params_start(cs: Seq<ControlModel>, counter: int) -> Seq<
    ControlModel,
> {
    if cs.len() > 0 && cs.last().paragraph_params_start < 0 {
        cs.update(cs.len() - 1, ControlModel { paragraph_params_start: counter, ..cs.last() })
    } else {
        cs
    }
}

/// Closes the last control still open, defaulting its kind to rich text.
pub open spec fn ctrls_close_sdt(cs: Seq<ControlModel>, counter: int) -> Seq<ControlModel> {
    match last_unclosed(cs) {
        Some(j) => cs.update(
            j,
            ControlModel {
                end: counter,
                kind: if cs[j].kind == ContentControlType::Unsupported {
                    ContentControlType::RichText
                } else {
                    cs[j].kind
                },
                ..cs[j]
            },
        ),
        None => cs,
    }
}

/// Closes the body of the last control whose body is still open.
pub open spec fn ctrls_close_content(cs: Seq<ControlModel>, counter: int) -> Seq<ControlModel> {
    match last_content_unclosed(cs) {
        Some(j) => cs.update(j, ControlModel { content_end: counter, ..cs[j] }),
        None => cs,
    }
}

/// Records where the most recent control's run properties end, once; the
/// stored offset is one past the closing event, so replaying the range
/// includes it.
pub open spec fn ctrls_set_run_params_end(cs: Seq<ControlModel>, counter: int) -> Seq<
    ControlModel,
> {
    if cs.len() > 0 && cs.last().run_params_end < 0 {
        cs.update(cs.len() - 1, ControlModel { run_params_end: counter + 1, ..cs.last() })
    } else {
        cs
    }
}

/// Records where the most recent control's paragraph properties end, once.
pub open spec fn ctrls_set_paragraph_params_end(cs: Seq<ControlModel>, counter: int) -> Seq<
    ControlModel,
> {
    if cs.len() > 0 && cs.last().paragraph_params_end < 0 {
        cs.update(cs.len() - 1, ControlModel { paragraph_params_end: counter + 1, ..cs.last() })
    } else {
        cs
    }
}

/// Declares the kind of the control whose header the current event falls
/// into.
pub open spec fn ctrls_set_kind(cs: Seq<ControlModel>, counter: int, t: ContentControlType) -> Seq<
    ControlModel,
> {
    match last_header_open(cs, counter) {
        Some(j) => cs.update(j, ControlModel { kind: t, ..cs[j] }),
        None => cs,
    }
}

/// Sets the most recent control's tag from a tag element's attributes.
pub open spec fn ctrls_set_tag(cs: Seq<ControlModel>, name: Seq<char>, content: Seq<char>) -> Seq<
    ControlModel,
> {
    if cs.len() > 0 {
        let j = cs.len() - 1;
        cs.update(
            j,
            ControlModel {
                tag: spec_tag_from_attrs(cs[j].tag, spec_event_attrs(name, content)),
                ..cs[j]
            },
        )
    } else {
        cs
    }
}

/// How an opening tag changes the state: its depth rises, its position is
/// noted, and the control list is updated as the name demands.
pub open spec fn step_start(s: StateModel, name: Seq<char>) -> StateModel {
    let d = StateModel {
        depths: s.depths.insert(name, depth_of(s.depths, name) + 1),
        positions: s.positions.insert(name, s.counter),
        ..s
    };
    let cs = if name == "w:sdt"@ {
        d.controls.push(ControlModel { begin: s.counter, ..empty_control() })
    } else if name == "w:sdtContent"@ {
        ctrls_open_content(d.controls, s.counter)
    } else if name == "w:p"@ && depth_of(d.depths, "w:sdtContent"@) > 0 {
        ctrls_mark_paragraph(d.controls)
    } else if name == "w:rPr"@ && depth_of(d.depths, "w:sdtContent"@) > 0 && depth_of(
        d.depths,
        "w:r"@,
    ) > 0 {
        ctrls_set_run_params_start(d.controls, s.counter)
    } else if name == "w:pPr"@ && depth_of(d.depths, "w:sdtContent"@) > 0 && depth_of(
        d.depths,
        "w:p"@,
    ) > 0 {
        ctrls_set_paragraph_params_start(d.controls, s.counter)
    } else {
        d.controls
    };
    StateModel { controls: cs, ..d }
}

/// How a closing tag changes the state: it is noted as last closed, the
/// control list is updated while its depth still counts the element, and
/// only then the depth falls.
pub open spec fn step_end(s: StateModel, name: Seq<char>) -> StateModel {
    let cs = if name == "w:sdt"@ {
        ctrls_close_sdt(s.controls, s.counter)
    } else if name == "w:sdtContent"@ {
        ctrls_close_content(s.controls, s.counter)
    } else if name == "w:rPr"@ && depth_of(s.depths, "w:sdtContent"@) > 0 && depth_of(
        s.depths,
        "w:r"@,
    ) > 0 {
        ctrls_set_run_params_end(s.controls, s.counter)
    } else if name == "w:pPr"@ && depth_of(s.depths, "w:sdtContent"@) > 0 && depth_of(
        s.depths,
        "w:p"@,
    ) > 0 {
        ctrls_set_paragraph_params_end(s.controls, s.counter)
    } else {
        s.controls
    };
    StateModel {
        depths: s.depths.insert(name, depth_of(s.depths, name) - 1),
        controls: cs,
        last_seen_closed: name,
        ..s
    }
}

/// How an empty element changes the state: inside a parameters block it
/// either declares the kind of the control whose header is open, or sets
/// the tag of the most recent control.
pub open spec fn step_empty(s: StateModel, name: Seq<char>, content: Seq<char>) -> StateModel {
    if depth_of(s.depths, "w:sdtPr"@) > 0 {
        match spec_parse_kind(name) {
            Some(t) => StateModel { controls: ctrls_set_kind(s.controls, s.counter, t), ..s },
            None => if name == "w:tag"@ {
                StateModel { controls: ctrls_set_tag(s.controls, name, content), ..s }
            } else {
                s
            },
        }
    } else {
        s
    }
}

/// How one event moves the document state forward. The last-closed marker
/// is cleared first, so it covers exactly the closing event itself; the
/// event counter always moves by one, the end-of-input event included.
pub open spec fn spec_step(s: StateModel, ev: EventModel) -> StateModel {
    let s0 = StateModel { last_seen_closed: Seq::empty(), ..s };
    let s1 = match ev {
        EventModel::Start { name, content } => step_start(s0, name),
        EventModel::End { name } => step_end(s0, name),
        EventModel::Empty { name, content } => step_empty(s0, name, content),
        EventModel::Eof => StateModel { is_eof: true, ..s0 },
        _ => s0,
    };
    StateModel { counter: s.counter + 1, ..s1 }
}

/// The state after a whole event sequence.
pub open spec fn run_steps(evs: Seq<EventModel>) -> StateModel
    decreases evs.len(),
{
    if evs.len() == 0 {
        init_state()
    } else {
        spec_step(run_steps(evs.drop_last()), evs.last())
    }
}

/// Step keeps the depth counters bounded by the event counter.
pub proof fn lemma_step_bounded(s: StateModel, ev: EventModel)
    requires
        state_bounded(s),
    ensures
        state_bounded(spec_step(s, ev)),
{
    let s2 = spec_step(s, ev);
    assert forall|k: Seq<char>| s2.depths.dom().contains(k) implies -s2.counter <= (
    #[trigger] s2.depths[k]) <= s2.counter by {
        if s.depths.dom().contains(k) {
            assert(-s.counter <= s.depths[k] <= s.counter);
        }
    }
}

/// Builds a copy of a control position, field for field.
fn copy_control(c: &ContentControlPosition) -> (r: ContentControlPosition)
    ensures
        r@ == c@,
{
    ContentControlPosition {
        kind: c.kind,
        tag: c.tag.clone(),
        begin: c.begin,
        end: c.end,
        content_begin: c.content_begin,
        content_end: c.content_end,
        paragraph_params_start: c.paragraph_params_start,
        paragraph_params_end: c.paragraph_params_end,
        contains_paragraph: c.contains_paragraph,
        run_params_start: c.run_params_start,
        run_params_end: c.run_params_end,
    }
}

/// Replaces the control at `j`.
fn put_control_at(controls: &mut Vec<ContentControlPosition>, j: usize, c: ContentControlPosition)
    requires
        j < old(controls)@.len(),
    ensures
        control_views(final(controls)@) == control_views(old(controls)@).update(j as int, c@),
{
    let _ = controls.remove(j);
    controls.insert(j, c);
    proof {
        assert(controls@ =~= old(controls)@.update(j as int, c));
        assert(control_views(controls@) =~= control_views(old(controls)@).update(j as int, c@));
    }
}

fn exec_open_content(controls: &mut Vec<ContentControlPosition>, counter: i32)
    ensures
        control_views(final(controls)@) == ctrls_open_content(
            control_views(old(controls)@),
            counter as int,
        ),
{
    match find_last_content_unopened(controls) {
        Some(j) => {
            let mut c = copy_control(&controls[j]);
            c.content_begin = counter;
            put_control_at(controls, j, c);
        },
        None => {},
    }
}

fn exec_mark_paragraph(controls: &mut Vec<ContentControlPosition>)
    ensures
        control_views(final(controls)@) == ctrls_mark_paragraph(control_views(old(controls)@)),
{
    if controls.len() > 0 {
        let j = controls.len() - 1;
        let mut c = copy_control(&controls[j]);
        c.contains_paragraph = true;
        put_control_at(controls, j, c);
    }
}

fn exec_set_run_params_start(controls: &mut Vec<ContentControlPosition>, counter: i32)
    ensures
        control_views(final(controls)@) == ctrls_set_run_params_start(
            control_views(old(controls)@),
            counter as int,
        ),
{
    if controls.len() > 0 {
        let j = controls.len() - 1;
        if controls[j].run_params_start < 0 {
            let mut c = copy_control(&controls[j]);
            c.run_params_start = counter;
            put_control_at(controls, j, c);
        }
    }
}

fn exec_set_paragraph_params_start(controls: &mut Vec<ContentControlPosition>, counter: i32)
    ensures
        control_views(final(controls)@) == ctrls_set_paragraph_params_start(
            control_views(old(controls)@),
            counter as int,
        ),
{
    if controls.len() > 0 {
        let j = controls.len() - 1;
        if controls[j].paragraph_params_start < 0 {
            let mut c = copy_control(&controls[j]);
            c.paragraph_params_start = counter;
            put_control_at(controls, j, c);
        }
    }
}

fn exec_close_sdt(controls: &mut Vec<ContentControlPosition>, counter: i32)
    ensures
        control_views(final(controls)@) == ctrls_close_sdt(
            control_views(old(controls)@),
            counter as int,
        ),
{
    match find_last_unclosed(controls) {
        Some(j) => {
            let mut c = copy_control(&controls[j]);
            c.end = counter;
            if c.kind == ContentControlType::Unsupported {
                c.kind = ContentControlType::RichText;
            }
            put_control_at(controls, j, c);
        },
        None => {},
    }
}

fn exec_close_content(controls: &mut Vec<ContentControlPosition>, counter: i32)
    ensures
        control_views(final(controls)@) == ctrls_close_content(
            control_views(old(controls)@),
            counter as int,
        ),
{
    match find_last_content_unclosed(controls) {
        Some(j) => {
            let mut c = copy_control(&controls[j]);
            c.content_end = counter;
            put_control_at(controls, j, c);
        },
        None => {},
    }
}

fn exec_set_run_params_end(controls: &mut Vec<ContentControlPosition>, counter: i32)
    requires
        counter < i32::MAX,
    ensures
        control_views(final(controls)@) == ctrls_set_run_params_end(
            control_views(old(controls)@),
            counter as int,
        ),
{
    if controls.len() > 0 {
        let j = controls.len() - 1;
        if controls[j].run_params_end < 0 {
            let mut c = copy_control(&controls[j]);
            c.run_params_end = counter + 1;
            put_control_at(controls, j, c);
        }
    }
}

fn exec_set_paragraph_params_end(controls: &mut Vec<ContentControlPosition>, counter: i32)
    requires
        counter < i32::MAX,
    ensures
        control_views(final(controls)@) == ctrls_set_paragraph_params_end(
            control_views(old(controls)@),
            counter as int,
        ),
{
    if controls.len() > 0 {
        let j = controls.len() - 1;
        if controls[j].paragraph_params_end < 0 {
            let mut c = copy_control(&controls[j]);
            c.paragraph_params_end = counter + 1;
            put_control_at(controls, j, c);
        }
    }
}

fn exec_set_kind(controls: &mut Vec<ContentControlPosition>, counter: i32, t: ContentControlType)
    ensures
        control_views(final(controls)@) == ctrls_set_kind(
            control_views(old(controls)@),
            counter as int,
            t,
        ),
{
    match find_last_header_open(controls, counter) {
        Some(j) => {
            let mut c = copy_control(&controls[j]);
            c.kind = t;
            put_control_at(controls, j, c);
        },
        None => {},
    }
}

fn exec_set_tag(controls: &mut Vec<ContentControlPosition>, name: &String, content: &String)
    ensures
        control_views(final(controls)@) == ctrls_set_tag(
            control_views(old(controls)@),
            name@,
            content@,
        ),
{
    if controls.len() > 0 {
        let attrs: Vec<Attr> = if name.as_str().len() <= content.as_str().len()
            && content.as_str().is_char_boundary(name.as_str().len()) {
            parse_attributes(content.as_str(), name.as_str().len())
        } else {
            Vec::new()
        };
        proof {
            assert(attr_views(attrs@) =~= spec_event_attrs(name@, content@));
        }
        let j = controls.len() - 1;
        let mut c = copy_control(&controls[j]);
        let ghost c0: ControlModel = c@;
        let mut idx: usize = 0;
        while idx < attrs.len()
            invariant
                idx <= attrs@.len(),
                c@ =~~= (ControlModel {
                    tag: spec_tag_from_attrs(c0.tag, attr_views(attrs@).take(idx as int)),
                    ..c0
                }),
            decreases attrs@.len() - idx,
        {
            proof {
                assert(attr_views(attrs@).take(idx + 1).drop_last() =~= attr_views(attrs@).take(
                    idx as int,
                ));
                let cur = attrs@[idx as int];
                assert(attr_views(attrs@).take(idx + 1).last() == cur@);
            }
            if attrs[idx].key == "w:val".to_owned() {
                c.tag = attrs[idx].value.clone();
            }
            idx = idx + 1;
        }
        proof {
            assert(attr_views(attrs@).take(attrs@.len() as int) =~= attr_views(attrs@));
        }
        put_control_at(controls, j, c);
    }
}

/// The document state tracker: a depth counter per element name, the last
/// position each name opened at, the control positions grown so far, the
/// most recently closed name, and the running event index.
pub struct DocumentState {
    states: CounterMap,
    positions: CounterMap,
    controls: Vec<ContentControlPosition>,
    is_eof: bool,
    last_seen_closed: String,
    counter: i32,
}

impl View for DocumentState {
    type V = StateModel;

    closed spec fn view(&self) -> StateModel {
        StateModel {
            depths: self.states.as_map(),
            positions: self.positions.as_map(),
            controls: control_views(self.controls@),
            is_eof: self.is_eof,
            last_seen_closed: self.last_seen_closed@,
            counter: self.counter as int,
        }
    }
}

impl DocumentState {
    /// Both name maps keep their keys unique.
    pub closed spec fn wf(&self) -> bool {
        self.states.wf() && self.positions.wf()
    }

    pub fn new() -> (r: DocumentState)
        ensures
            r.wf(),
            r@ =~~= init_state(),
    {
        let r = DocumentState {
            states: CounterMap::new(),
            positions: CounterMap::new(),
            controls: Vec::new(),
            is_eof: false,
            last_seen_closed: String::new(),
            counter: 0,
        };
        proof {
            assert(control_views(r.controls@) =~= Seq::<ControlModel>::empty());
        }
        r
    }

    /// Whether the scan currently stands inside an element of this name.
    pub fn is_in(&self, key: &str) -> (r: bool)
        requires
            self.wf(),
        ensures
            r == (depth_of(self@.depths, key@) > 0),
    {
        self.states.get(key) > 0
    }

    /// Whether the scan stands inside an element of this name, or the event
    /// just consumed closed one.
    pub fn is_at(&self, key: &str) -> (r: bool)
        requires
            self.wf(),
        ensures
            r == (depth_of(self@.depths, key@) > 0 || key@ == self@.last_seen_closed),
    {
        self.is_in(key) || key.to_owned() == self.last_seen_closed
    }

    /// Whether the end of the part has been consumed.
    pub fn eof(&self) -> (r: bool)
        ensures
            r == self@.is_eof,
    {
        self.is_eof
    }

    /// Hands the grown control positions out.
    pub fn into_controls(self) -> (r: Vec<ContentControlPosition>)
        ensures
            control_views(r@) == self@.controls,
    {
        self.controls
    }

    /// Consumes one opening tag.
    #[verifier::spinoff_prover]
    fn consume_start(&mut self, name: &String)
        requires
            old(self).wf(),
            state_bounded(old(self)@),
            old(self)@.counter < i32::MAX as int,
        ensures
            final(self).wf(),
            final(self)@ =~~= step_start(old(self)@, name@),
    {
        let ghost s0: StateModel = self@;
        let current = self.states.get(name.as_str());
        proof {
            if s0.depths.dom().contains(name@) {
                assert(-s0.counter <= s0.depths[name@] <= s0.counter);
            }
        }
        self.states.set(name.as_str(), current + 1);
        self.positions.set(name.as_str(), self.counter);
        let counter = self.counter;
        if *name == "w:sdt".to_owned() {
            let mut c = ContentControlPosition::new();
            c.begin = counter;
            self.controls.push(c);
            proof {
                assert(control_views(self.controls@) =~= s0.controls.push(c@));
            }
        } else if *name == "w:sdtContent".to_owned() {
            exec_open_content(&mut self.controls, counter);
        } else if *name == "w:p".to_owned() {
            if self.is_in("w:sdtContent") {
                exec_mark_paragraph(&mut self.controls);
            }
        } else if *name == "w:rPr".to_owned() {
            if self.is_in("w:sdtContent") && self.is_in("w:r") {
                exec_set_run_params_start(&mut self.controls, counter);
            }
        } else if *name == "w:pPr".to_owned() {
            if self.is_in("w:sdtContent") && self.is_in("w:p") {
                exec_set_paragraph_params_start(&mut self.controls, counter);
            }
        }
        proof {
            lemma_names_distinct();
            assert(self@ =~~= step_start(s0, name@));
        }
    }

    /// Consumes one closing tag.
    #[verifier::spinoff_prover]
    fn consume_end(&mut self, name: &String)
        requires
            old(self).wf(),
            state_bounded(old(self)@),
            old(self)@.counter < i32::MAX as int,
        ensures
            final(self).wf(),
            final(self)@ =~~= step_end(old(self)@, name@),
    {
        let ghost s0: StateModel = self@;
        let current = self.states.get(name.as_str());
        proof {
            if s0.depths.dom().contains(name@) {
                assert(-s0.counter <= s0.depths[name@] <= s0.counter);
            }
        }
        self.last_seen_closed = name.clone();
        let counter = self.counter;
        if *name == "w:sdt".to_owned() {
            exec_close_sdt(&mut self.controls, counter);
        } else if *name == "w:sdtContent".to_owned() {
            exec_close_content(&mut self.controls, counter);
        } else if *name == "w:rPr".to_owned() {
            if self.is_in("w:sdtContent") && self.is_in("w:r") {
                exec_set_run_params_end(&mut self.controls, counter);
            }
        } else if *name == "w:pPr".to_owned() {
            if self.is_in("w:sdtContent") && self.is_in("w:p") {
                exec_set_paragraph_params_end(&mut self.controls, counter);
            }
        }
        self.states.set(name.as_str(), current - 1);
        proof {
            lemma_names_distinct();
            assert(self@ =~~= step_end(s0, name@));
        }
    }

    /// Consumes one empty element.
    #[verifier::spinoff_prover]
    fn consume_empty(&mut self, name: &String, content: &String)
        requires
            old(self).wf(),
        ensures
            final(self).wf(),
            final(self)@ =~~= step_empty(old(self)@, name@, content@),
    {
        let ghost s0: StateModel = self@;
        if self.is_in("w:sdtPr") {
            match ContentControlType::parse_string(name.as_str()) {
                Some(t) => {
                    exec_set_kind(&mut self.controls, self.counter, t);
                },
                None => {
                    if *name == "w:tag".to_owned() {
                        exec_set_tag(&mut self.controls, name, content);
                    }
                },
            }
        }
        proof {
            assert(self@ =~~= step_empty(s0, name@, content@));
        }
    }

    /// Consumes one event: mirrors `spec_step`, the functional transition.
    pub fn consume(&mut self, event: &RawEvent)
        requires
            old(self).wf(),
            state_bounded(old(self)@),
            old(self)@.counter < i32::MAX as int,
        ensures
            final(self).wf(),
            final(self)@ =~~= spec_step(old(self)@, event@),
            state_bounded(final(self)@),
    {
        let ghost s_in: StateModel = self@;
        self.last_seen_closed = String::new();
        let ghost s0: StateModel = StateModel { last_seen_closed: Seq::empty(), ..s_in };
        proof {
            assert(self@ =~~= s0);
        }
        match event {
            RawEvent::Start { name, content: _ } => {
                self.consume_start(name);
            },
            RawEvent::End { name } => {
                self.consume_end(name);
            },
            RawEvent::Empty { name, content } => {
                self.consume_empty(name, content);
            },
            RawEvent::Eof => {
                self.is_eof = true;
            },
            _ => {},
        }
        self.counter = self.counter + 1;
        proof {
            assert(self@ =~~= spec_step(s_in, event@));
            lemma_step_bounded(s_in, event@);
        }
    }
}


/// The controls' opening offsets are set, below the counter, and strictly
/// increasing along the list.
pub open spec fn begins_ordered(s: StateModel) -> bool {
    &&& forall|i: int| 0 <= i < s.controls.len() ==> 0 <= (#[trigger] s.controls[i]).begin
        < s.counter
    &&& forall|i: int, j: int| 0 <= i < j < s.controls.len() ==> (#[trigger] s.controls[i]).begin
        < (#[trigger] s.controls[j]).begin
}

proof fn lemma_finders_in_range(cs: Seq<ControlModel>)
    ensures
        match last_content_unopened(cs) {
            Some(j) => 0 <= j < cs.len(),
            None => true,
        },
        match last_unclosed(cs) {
            Some(j) => 0 <= j < cs.len(),
            None => true,
        },
        match last_content_unclosed(cs) {
            Some(j) => 0 <= j < cs.len(),
            None => true,
        },
    decreases cs.len(),
{
    if cs.len() > 0 {
        lemma_finders_in_range(cs.drop_last());
    }
}

proof fn lemma_header_open_in_range(cs: Seq<ControlModel>, index: int)
    ensures
        match last_header_open(cs, index) {
            Some(j) => 0 <= j < cs.len(),
            None => true,
        },
    decreases cs.len(),
{
    if cs.len() > 0 {
        lemma_header_open_in_range(cs.drop_last(), index);
    }
}

/// One step keeps the controls' opening offsets ordered: a new control
/// opens at the current counter, above every earlier opening, and no step
/// moves an opening.
pub proof fn lemma_step_begins_ordered(s: StateModel, ev: EventModel)
    requires
        begins_ordered(s),
        s.counter >= 0,
    ensures
        begins_ordered(spec_step(s, ev)),
{
    lemma_finders_in_range(s.controls);
    lemma_header_open_in_range(s.controls, s.counter);
    let s2 = spec_step(s, ev);
    assert forall|i: int| 0 <= i < s2.controls.len() implies 0 <= (#[trigger] s2.controls[i]).begin
        < s2.counter by {
        if i < s.controls.len() {
            assert(0 <= s.controls[i].begin < s.counter);
        }
    }
    assert forall|i: int, j: int| 0 <= i < j < s2.controls.len() implies (
    #[trigger] s2.controls[i]).begin < (#[trigger] s2.controls[j]).begin by {
        if j < s.controls.len() {
            assert(s.controls[i].begin < s.controls[j].begin);
        } else {
            assert(0 <= s.controls[i].begin < s.counter);
        }
    }
}

/// The tracker's positions are always ordered by their opening offsets,
/// whatever events it consumes: no two positions share an opening event.
pub proof fn lemma_run_steps_begins_ordered(evs: Seq<EventModel>)
    ensures
        begins_ordered(run_steps(evs)),
    decreases evs.len(),
{
    if evs.len() == 0 {
    } else {
        lemma_run_steps_begins_ordered(evs.drop_last());
        crate::index::lemma_run_steps_counter(evs.drop_last());
        lemma_step_begins_ordered(run_steps(evs.drop_last()), evs.last());
    }
}

} // verus!
