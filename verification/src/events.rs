use vstd::prelude::*;
use vstd::string::StringExecFns;

verus! {

/// One XML event, materialized into owned text so that it can be replayed
/// long after the scanner has moved on.
///
/// `content` always holds the exact source text between the event's
/// delimiters (for a start tag, everything between `<` and `>`), so a
/// stream of events can be written back without loss. `name` is the
/// element name alone.
#[derive(Debug, Clone)]
pub enum RawEvent {
    Start { name: String, content: String },
    End { name: String },
    Empty { name: String, content: String },
    Text { content: String },
    CData { content: String },
    Comment { content: String },
    Decl { content: String },
    PI { content: String },
    DocType { content: String },
    GeneralRef { content: String },
    Eof,
}

/// The mathematical shape of a `RawEvent`.
pub enum EventModel {
    Start { name: Seq<char>, content: Seq<char> },
    End { name: Seq<char> },
    Empty { name: Seq<char>, content: Seq<char> },
    Text { content: Seq<char> },
    CData { content: Seq<char> },
    Comment { content: Seq<char> },
    Decl { content: Seq<char> },
    PI { content: Seq<char> },
    DocType { content: Seq<char> },
    GeneralRef { content: Seq<char> },
    Eof,
}

impl View for RawEvent {
    type V = EventModel;

    open spec fn view(&self) -> EventModel {
        match self {
            RawEvent::Start { name, content } => EventModel::Start { name: name@, content: content@ },
            RawEvent::End { name } => EventModel::End { name: name@ },
            RawEvent::Empty { name, content } => EventModel::Empty { name: name@, content: content@ },
            RawEvent::Text { content } => EventModel::Text { content: content@ },
            RawEvent::CData { content } => EventModel::CData { content: content@ },
            RawEvent::Comment { content } => EventModel::Comment { content: content@ },
            RawEvent::Decl { content } => EventModel::Decl { content: content@ },
            RawEvent::PI { content } => EventModel::PI { content: content@ },
            RawEvent::DocType { content } => EventModel::DocType { content: content@ },
            RawEvent::GeneralRef { content } => EventModel::GeneralRef { content: content@ },
            RawEvent::Eof => EventModel::Eof,
        }
    }
}

/// The views of a sequence of events.
pub open spec fn event_views(evs: Seq<RawEvent>) -> Seq<EventModel> {
    Seq::new(evs.len(), |i: int| evs[i]@)
}

/// The text an event is written back as. This mirrors, delimiter for
/// delimiter, how the XML writer frames each event kind.
pub open spec fn event_chars(e: EventModel) -> Seq<char> {
    match e {
        EventModel::Start { name, content } => "<"@ + content + ">"@,
        EventModel::End { name } => "</"@ + name + ">"@,
        EventModel::Empty { name, content } => "<"@ + content + "/>"@,
        EventModel::Text { content } => content,
        EventModel::CData { content } => "<![CDATA["@ + content + "]]>"@,
        EventModel::Comment { content } => "<!--"@ + content + "-->"@,
        EventModel::Decl { content } => "<?"@ + content + "?>"@,
        EventModel::PI { content } => "<?"@ + content + "?>"@,
        EventModel::DocType { content } => "<!DOCTYPE "@ + content + ">"@,
        EventModel::GeneralRef { content } => "&"@ + content + ";"@,
        EventModel::Eof => Seq::empty(),
    }
}

/// Appends `before`, then `mid`, then `after` to `out`.
fn push_wrapped(out: &mut String, before: &str, mid: &str, after: &str)
    ensures
        final(out)@ == old(out)@ + before@ + mid@ + after@,
{
    out.append(before);
    out.append(mid);
    out.append(after);
}

/// Writes one event back as text, appending to `out`.
pub fn push_event_text(out: &mut String, ev: &RawEvent)
    ensures
        final(out)@ == old(out)@ + event_chars(ev@),
{
    match ev {
        RawEvent::Start { name: _, content } => {
            push_wrapped(out, "<", content.as_str(), ">");
        }
        RawEvent::End { name } => {
            push_wrapped(out, "</", name.as_str(), ">");
        }
        RawEvent::Empty { name: _, content } => {
            push_wrapped(out, "<", content.as_str(), "/>");
        }
        RawEvent::Text { content } => {
            out.append(content.as_str());
        }
        RawEvent::CData { content } => {
            push_wrapped(out, "<![CDATA[", content.as_str(), "]]>");
        }
        RawEvent::Comment { content } => {
            push_wrapped(out, "<!--", content.as_str(), "-->");
        }
        RawEvent::Decl { content } => {
            push_wrapped(out, "<?", content.as_str(), "?>");
        }
        RawEvent::PI { content } => {
            push_wrapped(out, "<?", content.as_str(), "?>");
        }
        RawEvent::DocType { content } => {
            push_wrapped(out, "<!DOCTYPE ", content.as_str(), ">");
        }
        RawEvent::GeneralRef { content } => {
            push_wrapped(out, "&", content.as_str(), ";");
        }
        RawEvent::Eof => {
        }
    }
    proof {
        assert(out@ =~= old(out)@ + event_chars(ev@));
    }
}

} // verus!
