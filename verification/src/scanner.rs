use vstd::prelude::*;
use vstd::string::StringSliceAdditionalSpecFns;
use crate::events::{EventModel, RawEvent, event_views};
use quick_xml::events::Event;

verus! {

#[verifier::external_type_specification]
#[verifier::external_body]
#[verifier::reject_recursive_types(R)]
pub struct ExReader<R>(quick_xml::reader::Reader<R>);

#[verifier::external_type_specification]
#[verifier::external_body]
pub struct ExEvent<'i>(Event<'i>);

/// One outcome of the XML reader: an event, or a rejection of the input
/// with the reader's byte position.
pub enum ScanItem {
    Parsed(EventModel),
    Failure(u64),
}

/// The outcomes the XML reader delivers for the given input text, in order,
/// up to but not including the end-of-input marker. For ill-formed input the
/// sequence ends with a `Failure`; items after a `Failure` are never reached.
pub uninterp spec fn scan_items(input: Seq<char>) -> Seq<ScanItem>;

/// The outcomes a reader still has to deliver.
pub uninterp spec fn reader_pending(r: quick_xml::reader::Reader<&[u8]>) -> Seq<ScanItem>;

/// Non-empty text that contains neither markup (`<`) nor references (`&`)
/// and sticks to printable ASCII. The reader delivers such text as a single
/// text event.
pub open spec fn plain_text(s: Seq<char>) -> bool {
    s.len() > 0 && forall|i: int| 0 <= i < s.len()
        ==> 0x20 <= (#[trigger] s[i]) as u32 <= 0x7e && s[i] != '<' && s[i] != '&'
}

/// Relies on quick_xml::Reader::from_str: the reader will deliver the XML
/// events of the input in source order, and for a given input it always
/// delivers the same outcomes. Text without markup or references is
/// delivered as one text event.
#[verifier::external_body]
fn new_reader<'a>(input: &'a str) -> (r: quick_xml::reader::Reader<&'a [u8]>)
    ensures
        reader_pending(r) == scan_items(input@),
        plain_text(input@) ==> reader_pending(r)
            =~= seq![ScanItem::Parsed((EventModel::Text { content: input@ }))],
{
    quick_xml::reader::Reader::from_str(input)
}

/// The mathematical shape of an XML reader event.
pub uninterp spec fn event_model(ev: Event<'_>) -> EventModel;

/// Relies on quick_xml::Reader::read_event: delivers the reader's next
/// pending outcome as an owned event, or the end-of-input event once the
/// stream is exhausted; a rejection is reported with the reader's byte
/// position.
#[verifier::external_body]
fn read_event_owned<'a>(r: &mut quick_xml::reader::Reader<&'a [u8]>) -> (res: Result<Event<'static>, u64>)
    ensures
        match res {
            Ok(e) => if reader_pending(*old(r)).len() == 0 {
                event_model(e) == EventModel::Eof && reader_pending(*final(r)) == reader_pending(
                    *old(r),
                )
            } else {
                reader_pending(*old(r))[0] matches ScanItem::Parsed(m) && event_model(e) == m && !(
                m is Eof) && reader_pending(*final(r)) == reader_pending(*old(r)).drop_first()
            },
            Err(p) => reader_pending(*old(r)).len() > 0 && reader_pending(*old(r))[0]
                == ScanItem::Failure(p),
        },
{
    match r.read_event() {
        Ok(e) => Ok(e.into_owned()),
        Err(_) => Err(r.buffer_position()),
    }
}

/// Relies on quick_xml's event kinds: tells the eleven kinds apart.
#[verifier::external_body]
fn event_kind(ev: &Event<'static>) -> (k: u8)
    ensures
        match event_model(*ev) {
            EventModel::Start { name, content } => k == 0,
            EventModel::End { name } => k == 1,
            EventModel::Empty { name, content } => k == 2,
            EventModel::Text { content } => k == 3,
            EventModel::CData { content } => k == 4,
            EventModel::Comment { content } => k == 5,
            EventModel::Decl { content } => k == 6,
            EventModel::PI { content } => k == 7,
            EventModel::DocType { content } => k == 8,
            EventModel::GeneralRef { content } => k == 9,
            EventModel::Eof => k == 10,
        },
{
    match ev {
        Event::Start(_) => 0,
        Event::End(_) => 1,
        Event::Empty(_) => 2,
        Event::Text(_) => 3,
        Event::CData(_) => 4,
        Event::Comment(_) => 5,
        Event::Decl(_) => 6,
        Event::PI(_) => 7,
        Event::DocType(_) => 8,
        Event::GeneralRef(_) => 9,
        Event::Eof => 10,
    }
}

/// Relies on quick_xml's event accessors (`BytesStart::name` and the end
/// tag's text): the element name of a tag event.
#[verifier::external_body]
fn event_name(ev: &Event<'static>) -> (s: String)
    ensures
        match event_model(*ev) {
            EventModel::Start { name, content } => s@ == name,
            EventModel::Empty { name, content } => s@ == name,
            EventModel::End { name } => s@ == name,
            _ => true,
        },
{
    match ev {
        Event::Start(e) | Event::Empty(e) => e.name().0.to_string(),
        Event::End(e) => (**e).to_string(),
        _ => String::new(),
    }
}

/// Relies on quick_xml's event payloads: the exact source text between the
/// event's delimiters.
#[verifier::external_body]
fn event_content(ev: &Event<'static>) -> (s: String)
    ensures
        match event_model(*ev) {
            EventModel::Start { name, content } => s@ == content,
            EventModel::Empty { name, content } => s@ == content,
            EventModel::Text { content } => s@ == content,
            EventModel::CData { content } => s@ == content,
            EventModel::Comment { content } => s@ == content,
            EventModel::Decl { content } => s@ == content,
            EventModel::PI { content } => s@ == content,
            EventModel::DocType { content } => s@ == content,
            EventModel::GeneralRef { content } => s@ == content,
            _ => true,
        },
{
    match ev {
        Event::Start(e) | Event::Empty(e) => (**e).to_string(),
        Event::Text(e) | Event::Comment(e) | Event::DocType(e) => (**e).to_string(),
        Event::CData(e) => (**e).to_string(),
        Event::Decl(e) => (**e).to_string(),
        Event::PI(e) => (**e).to_string(),
        Event::GeneralRef(e) => (**e).to_string(),
        Event::End(e) => (**e).to_string(),
        Event::Eof => String::new(),
    }
}

/// Rebuilds an owned event of the library's own shape.
fn assemble_raw_event(ev: &Event<'static>) -> (r: RawEvent)
    ensures
        r@ == event_model(*ev),
{
    let k = event_kind(ev);
    if k == 0 {
        RawEvent::Start { name: event_name(ev), content: event_content(ev) }
    } else if k == 1 {
        RawEvent::End { name: event_name(ev) }
    } else if k == 2 {
        RawEvent::Empty { name: event_name(ev), content: event_content(ev) }
    } else if k == 3 {
        RawEvent::Text { content: event_content(ev) }
    } else if k == 4 {
        RawEvent::CData { content: event_content(ev) }
    } else if k == 5 {
        RawEvent::Comment { content: event_content(ev) }
    } else if k == 6 {
        RawEvent::Decl { content: event_content(ev) }
    } else if k == 7 {
        RawEvent::PI { content: event_content(ev) }
    } else if k == 8 {
        RawEvent::DocType { content: event_content(ev) }
    } else if k == 9 {
        RawEvent::GeneralRef { content: event_content(ev) }
    } else {
        RawEvent::Eof
    }
}

/// Whether the reader accepts the whole input.
pub open spec fn scan_ok(input: Seq<char>) -> bool {
    forall|i: int| 0 <= i < scan_items(input).len() ==> #[trigger] scan_items(input)[i] is Parsed
}

/// The events the reader delivers for accepted input, without the final
/// end-of-input event.
pub open spec fn scanned_events(input: Seq<char>) -> Seq<EventModel> {
    Seq::new(scan_items(input).len(), |i: int| scan_items(input)[i]->Parsed_0)
}

/// The position reported for the first rejected token.
pub open spec fn first_failure_pos(items: Seq<ScanItem>) -> u64
    decreases items.len(),
{
    if items.len() == 0 {
        0
    } else {
        match items[0] {
            ScanItem::Failure(p) => p,
            ScanItem::Parsed(_) => first_failure_pos(items.drop_first()),
        }
    }
}

proof fn lemma_first_failure_skip(items: Seq<ScanItem>, k: int)
    requires
        0 <= k < items.len(),
        forall|i: int| 0 <= i < k ==> #[trigger] items[i] is Parsed,
    ensures
        first_failure_pos(items) == first_failure_pos(items.skip(k)),
    decreases k,
{
    if k > 0 {
        assert(items[0] is Parsed);
        assert forall|i: int| 0 <= i < k - 1 implies #[trigger] items.drop_first()[i] is Parsed by {
            assert(items.drop_first()[i] == items[i + 1]);
        }
        lemma_first_failure_skip(items.drop_first(), k - 1);
        assert(items.drop_first().skip(k - 1) =~= items.skip(k));
    } else {
        assert(items.skip(0) =~= items);
    }
}

/// Scans a whole text into its event sequence. On success the returned
/// events are exactly the reader's events for this text, closed by the
/// end-of-input event; on failure the reported byte position is that of the
/// first rejected token.
#[verifier::loop_isolation(false)]
pub fn scan_events(input: &str) -> (r: Result<Vec<RawEvent>, u64>)
    ensures
        match r {
            Ok(evs) => scan_ok(input@) && event_views(evs@) == scanned_events(input@).push(
                EventModel::Eof,
            ),
            Err(pos) => !scan_ok(input@) && pos == first_failure_pos(scan_items(input@)),
        },
        plain_text(input@) ==> scan_items(input@) == seq![
            ScanItem::Parsed((EventModel::Text { content: input@ })),
        ],
{
    let ghost total: Seq<ScanItem> = scan_items(input@);
    let mut reader = new_reader(input);
    proof {
        if plain_text(input@) {
            assert(scan_items(input@) =~= seq![
                ScanItem::Parsed((EventModel::Text { content: input@ })),
            ]);
        }
    }
    let mut events: Vec<RawEvent> = Vec::new();
    loop
        invariant
            events@.len() <= total.len(),
            reader_pending(reader) == total.skip(events@.len() as int),
            forall|i: int| 0 <= i < events@.len() ==> #[trigger] total[i] is Parsed
                && events@[i]@ == total[i]->Parsed_0,
            total == scan_items(input@),
        decreases total.len() - events@.len(),
    {
        let ghost k = events@.len() as int;
        let next = read_event_owned(&mut reader);
        match next {
            Err(pos) => {
                proof {
                    assert(total.skip(k)[0] == total[k]);
                    lemma_first_failure_skip(total, k);
                }
                return Err(pos);
            }
            Ok(owned) => {
                let ev = assemble_raw_event(&owned);
                let got_eof = matches!(ev, RawEvent::Eof);
                if got_eof {
                    proof {
                        if k < total.len() {
                            assert(total.skip(k)[0] == total[k]);
                            assert(total[k] is Parsed);
                        }
                        assert(k == total.len());
                    }
                    events.push(ev);
                    proof {
                        assert(event_views(events@) =~= scanned_events(input@).push(
                            EventModel::Eof,
                        ));
                    }
                    return Ok(events);
                } else {
                    proof {
                        assert(total.skip(k)[0] == total[k]);
                        assert(total.skip(k).drop_first() =~= total.skip(k + 1));
                    }
                    events.push(ev);
                }
            }
        }
    }
}

/// One attribute of an element: its key and its raw (still escaped) value.
#[derive(Debug, Clone)]
pub struct Attr {
    pub key: String,
    pub value: String,
}

impl View for Attr {
    type V = (Seq<char>, Seq<char>);

    open spec fn view(&self) -> (Seq<char>, Seq<char>) {
        (self.key@, self.value@)
    }
}

/// The views of a sequence of attributes.
pub open spec fn attr_views(s: Seq<Attr>) -> Seq<(Seq<char>, Seq<char>)> {
    Seq::new(s.len(), |i: int| s[i]@)
}

/// The well-formed attributes the XML reader finds in an element's content
/// after the first `name_len` bytes, in source order, keys and raw values
/// as written.
pub uninterp spec fn attrs_of(content: Seq<char>, name_len: int) -> Seq<(Seq<char>, Seq<char>)>;

/// Relies on quick_xml's attribute parser (`BytesStart::attributes`):
/// yields the element's well-formed attributes in source order, skipping
/// malformed ones; for given content the result is always the same. The
/// parser scans and slices the content from byte `name_len` on, so that
/// position must lie inside the text and on a character boundary.
#[verifier::external_body]
pub(crate) fn parse_attributes(content: &str, name_len: usize) -> (r: Vec<Attr>)
    requires
        name_len <= content.spec_bytes().len() as usize,
        vstd::utf8::is_char_boundary(content.spec_bytes(), name_len as int),
    ensures
        attr_views(r@) == attrs_of(content@, name_len as int),
{
    let e = quick_xml::events::BytesStart::from_content(content, name_len);
    e.attributes().flatten().map(
        |a: quick_xml::events::attributes::Attribute| Attr { key: a.key.0.to_string(), value: a.value.to_string() },
    ).collect()
}

} // verus!
