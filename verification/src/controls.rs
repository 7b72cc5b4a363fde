use vstd::prelude::*;

verus! {

/// The kind of a content control, as declared in its parameters block.
#[derive(Debug, Clone, Copy, PartialEq, Eq, Structural)]
pub enum ContentControlType {
    Unsupported,
    RichText,
    Text,
    ComboBox,
    DropdownList,
    Date,
    RepeatingSection,
    RepeatingSectionItem,
}

/// The kind declared by a parameter element of this name, if any.
pub open spec fn spec_parse_kind(s: Seq<char>) -> Option<ContentControlType> {
    if s == "w:richText"@ {
        Some(ContentControlType::RichText)
    } else if s == "w:text"@ {
        Some(ContentControlType::Text)
    } else if s == "w:comboBox"@ {
        Some(ContentControlType::ComboBox)
    } else if s == "w:dropDownList"@ {
        Some(ContentControlType::DropdownList)
    } else if s == "w:date"@ {
        Some(ContentControlType::Date)
    } else if s == "w15:repeatingSection"@ {
        Some(ContentControlType::RepeatingSection)
    } else if s == "w15:repeatingSectionItem"@ {
        Some(ContentControlType::RepeatingSectionItem)
    } else {
        None
    }
}

/// The name a kind is reported under.
pub open spec fn spec_kind_name(k: ContentControlType) -> Seq<char> {
    match k {
        ContentControlType::RichText => "w:richText"@,
        ContentControlType::Text => "w:text"@,
        ContentControlType::ComboBox => "w:comboBox"@,
        ContentControlType::DropdownList => "w:dropDownList"@,
        ContentControlType::Date => "w:date"@,
        ContentControlType::RepeatingSection => "w15:repeatingSection"@,
        ContentControlType::RepeatingSectionItem => "w15:repeatingSectionItem"@,
        ContentControlType::Unsupported => "unsupported"@,
    }
}

impl ContentControlType {
    /// Parses a parameter element name into the kind it declares.
    pub fn parse_string(value: &str) -> (r: Option<ContentControlType>)
        ensures
            r == spec_parse_kind(value@),
    {
        let v = value.to_owned();
        if v == "w:richText".to_owned() {
            Some(ContentControlType::RichText)
        } else if v == "w:text".to_owned() {
            Some(ContentControlType::Text)
        } else if v == "w:comboBox".to_owned() {
            Some(ContentControlType::ComboBox)
        } else if v == "w:dropDownList".to_owned() {
            Some(ContentControlType::DropdownList)
        } else if v == "w:date".to_owned() {
            Some(ContentControlType::Date)
        } else if v == "w15:repeatingSection".to_owned() {
            Some(ContentControlType::RepeatingSection)
        } else if v == "w15:repeatingSectionItem".to_owned() {
            Some(ContentControlType::RepeatingSectionItem)
        } else {
            None
        }
    }

    /// The name this kind is reported under.
    pub fn name_string(&self) -> (r: String)
        ensures
            r@ == spec_kind_name(*self),
    {
        match self {
            ContentControlType::RichText => "w:richText".to_owned(),
            ContentControlType::Text => "w:text".to_owned(),
            ContentControlType::ComboBox => "w:comboBox".to_owned(),
            ContentControlType::DropdownList => "w:dropDownList".to_owned(),
            ContentControlType::Date => "w:date".to_owned(),
            ContentControlType::RepeatingSection => "w15:repeatingSection".to_owned(),
            ContentControlType::RepeatingSectionItem => "w15:repeatingSectionItem".to_owned(),
            ContentControlType::Unsupported => "unsupported".to_owned(),
        }
    }
}

/// The mathematical shape of a `ContentControlPosition`: every event offset
/// as an unbounded integer, `-1` standing for "not set".
#[verifier::ext_equal]
pub struct ControlModel {
    pub kind: ContentControlType,
    pub tag: Seq<char>,
    pub begin: int,
    pub end: int,
    pub content_begin: int,
    pub content_end: int,
    pub paragraph_params_start: int,
    pub paragraph_params_end: int,
    pub contains_paragraph: bool,
    pub run_params_start: int,
    pub run_params_end: int,
}

/// Where one content control sits in a part's event sequence: the offsets of
/// its framing events, of its body, and of the first paragraph- and
/// run-properties blocks inside the body. `-1` means "not seen".
#[derive(Debug, Clone)]
pub struct ContentControlPosition {
    pub kind: ContentControlType,
    pub tag: String,
    pub begin: i32,
    pub end: i32,
    pub content_begin: i32,
    pub content_end: i32,
    pub paragraph_params_start: i32,
    pub paragraph_params_end: i32,
    pub contains_paragraph: bool,
    pub run_params_start: i32,
    pub run_params_end: i32,
}

impl View for ContentControlPosition {
    type V = ControlModel;

    open spec fn view(&self) -> ControlModel {
        ControlModel {
            kind: self.kind,
            tag: self.tag@,
            begin: self.begin as int,
            end: self.end as int,
            content_begin: self.content_begin as int,
            content_end: self.content_end as int,
            paragraph_params_start: self.paragraph_params_start as int,
            paragraph_params_end: self.paragraph_params_end as int,
            contains_paragraph: self.contains_paragraph,
            run_params_start: self.run_params_start as int,
            run_params_end: self.run_params_end as int,
        }
    }
}

/// A control position with nothing seen yet.
pub open spec fn empty_control() -> ControlModel {
    ControlModel {
        kind: ContentControlType::Unsupported,
        tag: Seq::empty(),
        begin: -1,
        end: -1,
        content_begin: -1,
        content_end: -1,
        paragraph_params_start: -1,
        paragraph_params_end: -1,
        contains_paragraph: false,
        run_params_start: -1,
        run_params_end: -1,
    }
}

/// Whether the event at `index` falls inside the control's header: the
/// control has opened but neither its body nor its close has been seen.
pub open spec fn spec_intersects_header(c: ControlModel, index: int) -> bool {
    c.begin != -1 && index > c.begin && c.content_begin == -1 && c.end == -1
}

/// Whether the event at `index` falls inside the control's body, the
/// opening body event included and the closing one excluded.
pub open spec fn spec_intersects_content(c: ControlModel, index: int) -> bool {
    index >= c.content_begin && index < c.content_end
}

pub open spec fn spec_content_opened(c: ControlModel) -> bool {
    c.content_begin != -1
}

pub open spec fn spec_closed(c: ControlModel) -> bool {
    c.end != -1
}

pub open spec fn spec_content_closed(c: ControlModel) -> bool {
    c.content_end != -1
}

pub open spec fn spec_has_paragraph_params(c: ControlModel) -> bool {
    c.paragraph_params_start >= 0 && c.paragraph_params_end >= 0
}

pub open spec fn spec_has_run_params(c: ControlModel) -> bool {
    c.run_params_start >= 0 && c.run_params_end >= 0
}

impl ContentControlPosition {
    /// A position with nothing seen yet.
    pub fn new() -> (r: Self)
        ensures
            r@ == empty_control(),
    {
        ContentControlPosition {
            kind: ContentControlType::Unsupported,
            tag: String::new(),
            begin: -1,
            end: -1,
            content_begin: -1,
            content_end: -1,
            paragraph_params_start: -1,
            paragraph_params_end: -1,
            contains_paragraph: false,
            run_params_start: -1,
            run_params_end: -1,
        }
    }

    pub fn intersects_header(&self, index: i32) -> (r: bool)
        ensures
            r == spec_intersects_header(self@, index as int),
    {
        self.begin != -1 && index > self.begin && self.content_begin == -1 && self.end == -1
    }

    pub fn intersects_content(&self, index: i32) -> (r: bool)
        ensures
            r == spec_intersects_content(self@, index as int),
    {
        index >= self.content_begin && index < self.content_end
    }

    pub fn content_opened(&self) -> (r: bool)
        ensures
            r == spec_content_opened(self@),
    {
        self.content_begin != -1
    }

    pub fn closed(&self) -> (r: bool)
        ensures
            r == spec_closed(self@),
    {
        self.end != -1
    }

    pub fn content_closed(&self) -> (r: bool)
        ensures
            r == spec_content_closed(self@),
    {
        self.content_end != -1
    }

    pub fn has_paragraph_params(&self) -> (r: bool)
        ensures
            r == spec_has_paragraph_params(self@),
    {
        self.paragraph_params_start >= 0 && self.paragraph_params_end >= 0
    }

    pub fn has_run_params(&self) -> (r: bool)
        ensures
            r == spec_has_run_params(self@),
    {
        self.run_params_start >= 0 && self.run_params_end >= 0
    }

    /// The control's tag identifier; empty when the document gave none.
    pub fn get_tag(&self) -> (r: &String)
        ensures
            r@ == self@.tag,
    {
        &self.tag
    }

    /// The control's kind.
    pub fn get_type(&self) -> (r: &ContentControlType)
        ensures
            *r == self@.kind,
    {
        &self.kind
    }
}

impl Default for ContentControlPosition {
    fn default() -> (r: Self)
        ensures
            r@ == empty_control(),
    {
        Self::new()
    }
}

/// The views of a sequence of control positions.
pub open spec fn control_views(s: Seq<ContentControlPosition>) -> Seq<ControlModel> {
    Seq::new(s.len(), |i: int| s[i]@)
}

} // verus!
