//! The sidecar parser: a single forward pass over the structural events of an
//! XMP document. One flag tracks whether the pass is inside the
//! hierarchical-tag block; a rating attribute seen later always wins over one
//! seen earlier; text nodes inside the block are collected, trimmed, and
//! dropped when empty. A document whose rating never appears, or whose rating
//! does not read as an integer, is rejected.

use vstd::prelude::*;
use crate::text::{spec_trim, trim_str, spec_parse_i32, parse_i32_str, str_eq};

verus! {

/// One attribute of an element-start event.
#[derive(Debug)]
pub struct Attr {
    pub key: String,
    pub value: String,
}

pub struct AttrView {
    pub key: Seq<char>,
    pub value: Seq<char>,
}

impl View for Attr {
    type V = AttrView;

    open spec fn view(&self) -> AttrView {
        AttrView { key: self.key@, value: self.value@ }
    }
}

impl DeepView for Attr {
    type V = AttrView;

    open spec fn deep_view(&self) -> AttrView {
        self@
    }
}

/// One structural event of the document, as the pass sees it. Events the
/// grammar does not care about arrive as `Other`.
#[derive(Debug)]
pub enum SidecarEvent {
    Start { name: String, attrs: Vec<Attr> },
    End { name: String },
    Text { content: String },
    Other,
}

pub enum EventView {
    Start { name: Seq<char>, attrs: Seq<AttrView> },
    End { name: Seq<char> },
    Text { content: Seq<char> },
    Other,
}

impl View for SidecarEvent {
    type V = EventView;

    open spec fn view(&self) -> EventView {
        match self {
            SidecarEvent::Start { name, attrs } => EventView::Start {
                name: name@,
                attrs: attrs.deep_view(),
            },
            SidecarEvent::End { name } => EventView::End { name: name@ },
            SidecarEvent::Text { content } => EventView::Text { content: content@ },
            SidecarEvent::Other => EventView::Other,
        }
    }
}

impl DeepView for SidecarEvent {
    type V = EventView;

    open spec fn deep_view(&self) -> EventView {
        self@
    }
}

/// The element whose attributes may carry the rating.
pub open spec fn description_name() -> Seq<char> {
    "rdf:Description"@
}

/// The element that brackets the hierarchical-tag block.
pub open spec fn subject_name() -> Seq<char> {
    "lr:hierarchicalSubject"@
}

/// The attribute key that carries the rating.
pub open spec fn rating_key() -> Seq<char> {
    "xmp:Rating"@
}

/// The state of the pass: the rating text seen last, the raw text nodes
/// collected inside the tag block, and whether the pass is inside it.
pub struct ScanState {
    pub rating: Option<Seq<char>>,
    pub texts: Seq<Seq<char>>,
    pub in_block: bool,
}

pub open spec fn scan_init() -> ScanState {
    ScanState { rating: Option::None, texts: Seq::empty(), in_block: false }
}

/// The value of the last rating attribute in one element's attribute list.
pub open spec fn last_rating_attr(attrs: Seq<AttrView>) -> Option<Seq<char>>
    decreases attrs.len(),
{
    if attrs.len() == 0 {
        Option::None
    } else if attrs.last().key == rating_key() {
        Option::Some(attrs.last().value)
    } else {
        last_rating_attr(attrs.drop_last())
    }
}

/// How one event changes the state.
pub open spec fn scan_step(st: ScanState, ev: EventView) -> ScanState {
    match ev {
        EventView::Start { name, attrs } => {
            if name == description_name() {
                match last_rating_attr(attrs) {
                    Option::Some(v) => ScanState { rating: Option::Some(v), ..st },
                    Option::None => st,
                }
            } else if name == subject_name() {
                ScanState { in_block: true, ..st }
            } else {
                st
            }
        },
        EventView::End { name } => {
            if name == subject_name() {
                ScanState { in_block: false, ..st }
            } else {
                st
            }
        },
        EventView::Text { content } => {
            if st.in_block {
                ScanState { texts: st.texts.push(content), ..st }
            } else {
                st
            }
        },
        EventView::Other => st,
    }
}

/// The state after the whole pass.
pub open spec fn scan_events(evs: Seq<EventView>) -> ScanState
    decreases evs.len(),
{
    if evs.len() == 0 {
        scan_init()
    } else {
        scan_step(scan_events(evs.drop_last()), evs.last())
    }
}

/// The raw tag paths a pass yields: each collected text trimmed, the empty
/// ones dropped, order kept.
pub open spec fn clean_tag_paths(texts: Seq<Seq<char>>) -> Seq<Seq<char>>
    decreases texts.len(),
{
    if texts.len() == 0 {
        Seq::empty()
    } else {
        let rest = clean_tag_paths(texts.drop_last());
        let t = spec_trim(texts.last());
        if t.len() > 0 {
            rest.push(t)
        } else {
            rest
        }
    }
}

/// What parsing a sidecar yields: the rating and the raw tag paths.
#[derive(Debug)]
pub struct ParsedMetadata {
    pub rating: i32,
    pub raw_tag_paths: Vec<String>,
}

pub struct MetadataView {
    pub rating: int,
    pub raw_tag_paths: Seq<Seq<char>>,
}

impl View for ParsedMetadata {
    type V = MetadataView;

    open spec fn view(&self) -> MetadataView {
        MetadataView { rating: self.rating as int, raw_tag_paths: self.raw_tag_paths.deep_view() }
    }
}

/// Why a sidecar was rejected.
#[derive(Clone, Copy, PartialEq, Eq, Structural, Debug)]
pub enum SidecarError {
    /// No rating attribute anywhere in the document.
    MissingRating,
    /// The rating text does not read as an integer.
    InvalidRating,
    /// The document's own structure could not be read.
    Malformed,
}

/// The parse a finished pass denotes.
pub open spec fn spec_parse_outcome(evs: Seq<EventView>) -> Result<MetadataView, SidecarError> {
    let st = scan_events(evs);
    match st.rating {
        Option::None => Result::Err(SidecarError::MissingRating),
        Option::Some(v) => match spec_parse_i32(v) {
            Option::None => Result::Err(SidecarError::InvalidRating),
            Option::Some(n) => Result::Ok(
                MetadataView { rating: n as int, raw_tag_paths: clean_tag_paths(st.texts) },
            ),
        },
    }
}

/// Scan one element's attributes for the rating, from the back; the first
/// hit from the back is the last in the list.
fn last_rating_in(attrs: &Vec<Attr>) -> (r: Option<String>)
    ensures
        r.deep_view() == last_rating_attr(attrs.deep_view()),
{
    let mut j: usize = attrs.len();
    proof {
        assert(attrs.deep_view().take(j as int) =~= attrs.deep_view());
    }
    while j > 0
        invariant
            j <= attrs.len(),
            last_rating_attr(attrs.deep_view()) == last_rating_attr(
                attrs.deep_view().take(j as int),
            ),
        decreases j,
    {
        proof {
            let pre = attrs.deep_view().take(j as int);
            assert(pre.drop_last() =~= attrs.deep_view().take(j - 1));
            assert(pre.last() == attrs.deep_view()[j - 1]);
        }
        if str_eq(attrs[j - 1].key.as_str(), "xmp:Rating") {
            let r = Some(attrs[j - 1].value.clone());
            return r;
        }
        j = j - 1;
    }
    proof {
        assert(attrs.deep_view().take(0) =~= Seq::<AttrView>::empty());
    }
    None
}

/// Run the pass over a finished event sequence and read off the result.
pub fn parse_events(events: &Vec<SidecarEvent>) -> (r: Result<ParsedMetadata, SidecarError>)
    ensures
        ({
            let outcome = spec_parse_outcome(events.deep_view());
            match outcome {
                Result::Err(e) => r == Result::<ParsedMetadata, SidecarError>::Err(e),
                Result::Ok(m) => r is Ok && r->Ok_0@ == m,
            }
        }),
{
    let mut rating_text: Option<String> = None;
    let mut tags: Vec<String> = Vec::new();
    let mut in_block = false;
    let mut i: usize = 0;
    while i < events.len()
        invariant
            i <= events.len(),
            ({
                let st = scan_events(events.deep_view().take(i as int));
                &&& rating_text.deep_view() == st.rating
                &&& tags.deep_view() == clean_tag_paths(st.texts)
                &&& in_block == st.in_block
            }),
        decreases events.len() - i,
    {
        proof {
            let dv = events.deep_view();
            assert(dv.take(i + 1).drop_last() =~= dv.take(i as int));
            assert(dv.take(i + 1).last() == dv[i as int]);
        }
        let ev = &events[i];
        match ev {
            SidecarEvent::Start { name, attrs } => {
                if str_eq(name.as_str(), "rdf:Description") {
                    match last_rating_in(attrs) {
                        Some(v) => {
                            rating_text = Some(v);
                        },
                        None => {},
                    }
                } else if str_eq(name.as_str(), "lr:hierarchicalSubject") {
                    in_block = true;
                }
            },
            SidecarEvent::End { name } => {
                if str_eq(name.as_str(), "lr:hierarchicalSubject") {
                    in_block = false;
                }
            },
            SidecarEvent::Text { content } => {
                if in_block {
                    let ghost old_texts = scan_events(events.deep_view().take(i as int)).texts;
                    let trimmed = trim_str(content.as_str());
                    proof {
                        assert(old_texts.push(content@).drop_last() =~= old_texts);
                        assert(old_texts.push(content@).last() == content@);
                    }
                    if trimmed.as_str().unicode_len() > 0 {
                        tags.push(trimmed);
                        proof {
                            assert(tags.deep_view() =~= clean_tag_paths(old_texts.push(content@)));
                        }
                    }
                }
            },
            SidecarEvent::Other => {},
        }
        i = i + 1;
    }
    proof {
        assert(events.deep_view().take(events.len() as int) =~= events.deep_view());
    }
    match rating_text {
        None => Err(SidecarError::MissingRating),
        Some(v) => {
            match parse_i32_str(v.as_str()) {
                None => Err(SidecarError::InvalidRating),
                Some(n) => Ok(ParsedMetadata { rating: n, raw_tag_paths: tags }),
            }
        },
    }
}

} // verus!
