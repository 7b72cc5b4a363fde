use vstd::prelude::*;
use crate::controls::{
    ContentControlPosition, ControlModel, control_views, spec_kind_name,
};
use crate::index::DocumentData;
use crate::writer::{contained_indices, get_contained_control, spec_contained_in};

verus! {

/// What is known of one tag across a whole container: every kind it was
/// seen with, and the tags of the controls nested inside its bodies.
#[derive(Debug)]
pub struct ContentControlMetadata {
    pub types: Vec<String>,
    pub children_tags: Vec<String>,
}

/// The mathematical shape of one tag's metadata.
#[verifier::ext_equal]
pub struct MetaModel {
    pub types: Seq<Seq<char>>,
    pub children_tags: Seq<Seq<char>>,
}

/// The views of a sequence of strings.
pub open spec fn string_views(s: Seq<String>) -> Seq<Seq<char>> {
    Seq::new(s.len(), |i: int| s[i]@)
}

impl View for ContentControlMetadata {
    type V = MetaModel;

    open spec fn view(&self) -> MetaModel {
        MetaModel { types: string_views(self.types@), children_tags: string_views(self.children_tags@) }
    }
}

/// The views of a metadata listing.
pub open spec fn meta_views(entries: Seq<(String, ContentControlMetadata)>) -> Seq<(Seq<char>, MetaModel)> {
    Seq::new(entries.len(), |i: int| (entries[i].0@, entries[i].1@))
}

/// The first metadata entry stored under this tag, from `i` on.
pub open spec fn meta_index_from(acc: Seq<(Seq<char>, MetaModel)>, tag: Seq<char>, i: int) -> Option<int>
    decreases acc.len() - i,
{
    if i < 0 || i >= acc.len() {
        None
    } else if acc[i].0 == tag {
        Some(i)
    } else {
        meta_index_from(acc, tag, i + 1)
    }
}

/// The tags of the controls lying inside the parent's body, in order.
pub open spec fn contained_tags(cs: Seq<ControlModel>, parent: ControlModel) -> Seq<Seq<char>> {
    Seq::new(
        contained_indices(cs, parent).len(),
        |k: int| cs[contained_indices(cs, parent)[k]].tag,
    )
}

/// One control folded into the listing: its kind joins its tag's kinds and
/// its nested tags join its tag's children, under the first entry with the
/// tag, or under a fresh entry at the end.
pub open spec fn spec_add_control(
    acc: Seq<(Seq<char>, MetaModel)>,
    tag: Seq<char>,
    kind: Seq<char>,
    children: Seq<Seq<char>>,
) -> Seq<(Seq<char>, MetaModel)> {
    match meta_index_from(acc, tag, 0) {
        Some(j) => acc.update(
            j,
            (
                acc[j].0,
                MetaModel {
                    types: acc[j].1.types.push(kind),
                    children_tags: acc[j].1.children_tags + children,
                },
            ),
        ),
        None => acc.push((tag, MetaModel { types: seq![kind], children_tags: children })),
    }
}

/// One part's controls folded into the listing, from position `i` on.
pub open spec fn spec_describe_controls(
    cs: Seq<ControlModel>,
    acc: Seq<(Seq<char>, MetaModel)>,
    i: int,
) -> Seq<(Seq<char>, MetaModel)>
    decreases cs.len() - i,
{
    if i < 0 || i >= cs.len() {
        acc
    } else {
        spec_describe_controls(
            cs,
            spec_add_control(acc, cs[i].tag, spec_kind_name(cs[i].kind), contained_tags(cs, cs[i])),
            i + 1,
        )
    }
}

/// A whole container's controls folded into the listing, part by part.
pub open spec fn spec_describe_docs(
    docs: Seq<(String, DocumentData)>,
    acc: Seq<(Seq<char>, MetaModel)>,
    d: int,
) -> Seq<(Seq<char>, MetaModel)>
    decreases docs.len() - d,
{
    if d < 0 || d >= docs.len() {
        acc
    } else {
        spec_describe_docs(
            docs,
            spec_describe_controls(control_views(docs[d].1.control_positions@), acc, 0),
            d + 1,
        )
    }
}

proof fn lemma_contained_indices_range(cs: Seq<ControlModel>, parent: ControlModel, k: int)
    requires
        0 <= k < contained_indices(cs, parent).len(),
    ensures
        0 <= contained_indices(cs, parent)[k] < cs.len(),
    decreases cs.len(),
{
    if cs.len() > 0 {
        let rest = contained_indices(cs.drop_last(), parent);
        if spec_contained_in(cs.last(), parent) && k == rest.len() {
        } else {
            lemma_contained_indices_range(cs.drop_last(), parent, k);
        }
    }
}

fn find_meta_index(acc: &Vec<(String, ContentControlMetadata)>, tag: &String) -> (r: Option<usize>)
    ensures
        match r {
            Some(j) => j < acc@.len() && meta_index_from(meta_views(acc@), tag@, 0) == Some(
                j as int,
            ),
            None => meta_index_from(meta_views(acc@), tag@, 0) == None::<int>,
        },
{
    let ghost m = meta_views(acc@);
    let mut i: usize = 0;
    while i < acc.len()
        invariant
            m == meta_views(acc@),
            i <= acc@.len(),
            meta_index_from(m, tag@, 0) == meta_index_from(m, tag@, i as int),
        decreases acc@.len() - i,
    {
        if acc[i].0 == *tag {
            return Some(i);
        }
        i = i + 1;
    }
    None
}

/// The tags of the controls lying inside the parent's body.
fn collect_contained_tags(
    controls: &Vec<ContentControlPosition>,
    parent: &ContentControlPosition,
) -> (r: Vec<String>)
    ensures
        string_views(r@) == contained_tags(control_views(controls@), parent@),
{
    let ghost cs = control_views(controls@);
    let idxs = get_contained_control(controls, parent);
    let ghost ci = contained_indices(cs, parent@);
    let mut out: Vec<String> = Vec::new();
    let mut k: usize = 0;
    while k < idxs.len()
        invariant
            cs == control_views(controls@),
            ci == contained_indices(cs, parent@),
            Seq::new(idxs@.len(), |k2: int| idxs@[k2] as int) == ci,
            k <= idxs@.len(),
            out@.len() == k,
            forall|k2: int| 0 <= k2 < k ==> (#[trigger] out@[k2])@ == cs[ci[k2]].tag,
        decreases idxs@.len() - k,
    {
        proof {
            assert(idxs@[k as int] as int == ci[k as int]);
            lemma_contained_indices_range(cs, parent@, k as int);
        }
        let j = idxs[k];
        out.push(controls[j].tag.clone());
        k = k + 1;
    }
    proof {
        assert(string_views(out@) =~= contained_tags(cs, parent@));
    }
    out
}

/// Folds one control into the listing.
fn add_control(
    acc: &mut Vec<(String, ContentControlMetadata)>,
    tag: &String,
    kind: String,
    mut children: Vec<String>,
)
    ensures
        meta_views(final(acc)@) == spec_add_control(
            meta_views(old(acc)@),
            tag@,
            kind@,
            string_views(children@),
        ),
{
    let ghost acc0 = meta_views(acc@);
    let ghost kids = string_views(children@);
    match find_meta_index(acc, tag) {
        Some(j) => {
            let ghost before = acc@;
            let (key, mut meta) = acc.remove(j);
            meta.types.push(kind);
            let ghost mid = string_views(meta.children_tags@);
            let mut c: usize = 0;
            while c < children.len()
                invariant
                    c <= children@.len(),
                    kids == string_views(children@),
                    string_views(meta.children_tags@) =~= mid + kids.take(c as int),
                    meta@ =~~= (MetaModel {
                        children_tags: string_views(meta.children_tags@),
                        ..meta@
                    }),
                    meta@.types == acc0[j as int].1.types.push(kind@),
                decreases children@.len() - c,
            {
                let ghost tagsbefore = string_views(meta.children_tags@);
                meta.children_tags.push(children[c].clone());
                proof {
                    assert(string_views(meta.children_tags@) =~= tagsbefore.push(
                        kids[c as int],
                    ));
                    assert(tagsbefore.push(kids[c as int]) =~= mid + kids.take(c + 1));
                }
                c = c + 1;
            }
            proof {
                assert(kids.take(kids.len() as int) =~= kids);
            }
            acc.insert(j, (key, meta));
            proof {
                assert(acc@ =~= before.update(j as int, acc@[j as int]));
                assert(meta_views(acc@) =~= acc0.update(
                    j as int,
                    (
                        acc0[j as int].0,
                        MetaModel {
                            types: acc0[j as int].1.types.push(kind@),
                            children_tags: acc0[j as int].1.children_tags + kids,
                        },
                    ),
                ));
            }
        },
        None => {
            acc.push((tag.clone(), ContentControlMetadata { types: vec![kind], children_tags: children }));
            proof {
                assert(string_views(acc@.last().1.types@) =~= seq![kind@]);
                assert(meta_views(acc@) =~= acc0.push(
                    (tag@, (MetaModel { types: seq![kind@], children_tags: kids })),
                ));
            }
        },
    }
}

/// Describes a container's content controls: for every tag, the kinds it
/// was seen with and the tags nested inside its bodies, gathered over all
/// indexed parts in order.
pub fn describe_content_controls(docs: &Vec<(String, DocumentData)>) -> (r: Vec<
    (String, ContentControlMetadata),
>)
    ensures
        meta_views(r@) == spec_describe_docs(docs@, Seq::empty(), 0),
{
    let ghost goal_all = spec_describe_docs(docs@, Seq::empty(), 0);
    let mut acc: Vec<(String, ContentControlMetadata)> = Vec::new();
    let mut d: usize = 0;
    proof {
        assert(meta_views(acc@) =~= Seq::<(Seq<char>, MetaModel)>::empty());
    }
    while d < docs.len()
        invariant
            goal_all == spec_describe_docs(docs@, Seq::empty(), 0),
            d <= docs@.len(),
            spec_describe_docs(docs@, meta_views(acc@), d as int) == goal_all,
        decreases docs@.len() - d,
    {
        let controls = &docs[d].1.control_positions;
        let ghost cs = control_views(controls@);
        let mut i: usize = 0;
        while i < controls.len()
            invariant
                goal_all == spec_describe_docs(docs@, Seq::empty(), 0),
                d < docs@.len(),
                cs == control_views(docs@[d as int].1.control_positions@),
                controls == &docs[d as int].1.control_positions,
                i <= controls@.len(),
                spec_describe_docs(
                    docs@,
                    spec_describe_controls(cs, meta_views(acc@), i as int),
                    d + 1,
                ) == goal_all,
            decreases controls@.len() - i,
        {
            let ghost before = meta_views(acc@);
            let kind = controls[i].get_type().name_string();
            let children = collect_contained_tags(controls, &controls[i]);
            let tag = controls[i].tag.clone();
            add_control(&mut acc, &tag, kind, children);
            proof {
                assert(spec_describe_controls(cs, before, i as int) == spec_describe_controls(
                    cs,
                    meta_views(acc@),
                    i + 1,
                ));
            }
            i = i + 1;
        }
        d = d + 1;
    }
    proof {
        assert(spec_describe_docs(docs@, meta_views(acc@), docs@.len() as int) == meta_views(
            acc@,
        ));
    }
    acc
}

} // verus!