//! Access to the structural events of an XML document. The tokenizing itself
//! is done by the quick-xml crate behind the trusted items below; what it
//! yields depends on the document text alone, so the whole event sequence
//! carries the name `spec_tokenize`, and everything the pipeline decides
//! about those events is verified here and in `sidecar`.
//!
//! The tokenizer hands a text node in pieces around entity and character
//! references; each reference is resolved to the text it stands for, and
//! `merge_text_events` reassembles every run of consecutive text pieces into
//! the one node the document held.

use vstd::prelude::*;
use crate::sidecar::{
    Attr, ParsedMetadata, SidecarError, SidecarEvent, EventView, spec_parse_outcome,
    clean_tag_paths, parse_events,
};

verus! {

#[verifier::external_type_specification]
#[verifier::external_body]
pub struct ExEvent<'i>(quick_xml::events::Event<'i>);

#[verifier::external_type_specification]
#[verifier::external_body]
pub struct ExAttributes<'a>(quick_xml::events::attributes::Attributes<'a>);

#[verifier::external_type_specification]
#[verifier::external_body]
pub struct ExAttribute<'a>(quick_xml::events::attributes::Attribute<'a>);

#[verifier::external_type_specification]
#[verifier::external_body]
pub struct ExAttrError(quick_xml::events::attributes::AttrError);

/// Which shape a pulled event has.
pub enum EventKind {
    KindStart,
    KindEnd,
    KindText,
    KindRef,
    KindEof,
    KindOther,
}

/// One step of walking an element's attribute list.
pub enum AttrStep {
    Found(Attr),
    Done,
    Fault,
}

/// One converted tokenizer event: an event of the pass, the end of the
/// document, or a malformed stretch.
pub enum EventStep {
    Item(SidecarEvent),
    Done,
    Fault,
}

/// What quick-xml's tokenizer yields for a document: the whole event
/// sequence in order, already converted to the pass's shape, or nothing
/// when the document is malformed. The tokenizer reads the document text
/// alone, so its outcome is a function of it.
pub uninterp spec fn spec_tokenize(doc: Seq<char>) -> Option<Seq<EventView>>;

/// Tells the variants of quick_xml::events::Event apart; nothing is read out
/// of the event here.
#[verifier::external_body]
fn event_kind(ev: &quick_xml::events::Event<'_>) -> EventKind {
    match ev {
        quick_xml::events::Event::Start(_) => EventKind::KindStart,
        quick_xml::events::Event::End(_) => EventKind::KindEnd,
        quick_xml::events::Event::Text(_) => EventKind::KindText,
        quick_xml::events::Event::GeneralRef(_) => EventKind::KindRef,
        quick_xml::events::Event::Eof => EventKind::KindEof,
        _ => EventKind::KindOther,
    }
}

/// Relies on quick_xml::events::BytesStart::name: the raw element name of a
/// start event.
#[verifier::external_body]
fn start_name(ev: &quick_xml::events::Event<'_>) -> Option<String> {
    match ev {
        quick_xml::events::Event::Start(e) => Some(e.name().as_ref().to_string()),
        _ => None,
    }
}

/// Relies on quick_xml::events::BytesEnd::name: the raw element name of an
/// end event.
#[verifier::external_body]
fn end_name(ev: &quick_xml::events::Event<'_>) -> Option<String> {
    match ev {
        quick_xml::events::Event::End(e) => Some(e.name().as_ref().to_string()),
        _ => None,
    }
}

/// Relies on quick_xml::events::BytesText::xml10_content: the text of a text
/// event, with end-of-line normalization applied.
#[verifier::external_body]
fn text_content(ev: &quick_xml::events::Event<'_>) -> Option<String> {
    match ev {
        quick_xml::events::Event::Text(e) => Some(e.xml10_content().into_owned()),
        _ => None,
    }
}

/// Relies on quick_xml::events::BytesRef::resolve_char_ref and
/// quick_xml::escape::resolve_predefined_entity: the text a character or
/// predefined entity reference stands for; nothing for a reference the
/// document cannot use.
#[verifier::external_body]
fn ref_text(ev: &quick_xml::events::Event<'_>) -> Option<String> {
    match ev {
        quick_xml::events::Event::GeneralRef(r) => match r.resolve_char_ref() {
            Ok(Some(c)) => Some(c.to_string()),
            Ok(None) => quick_xml::escape::resolve_predefined_entity(&r.borrow().into_inner())
                .map(|s| s.to_string()),
            Err(_) => None,
        },
        _ => None,
    }
}

/// Relies on quick_xml::events::BytesStart::attributes: the attribute walk of
/// a start event.
#[verifier::external_body]
fn start_attrs<'e>(ev: &'e quick_xml::events::Event<'_>) -> Option<
    quick_xml::events::attributes::Attributes<'e>,
> {
    match ev {
        quick_xml::events::Event::Start(e) => Some(e.attributes()),
        _ => None,
    }
}

/// Relies on quick_xml::events::attributes::Attributes::next and
/// Attribute::normalized_value: the next attribute as a key and its
/// normalized value, the end of the list, or a malformed attribute.
#[verifier::external_body]
fn next_attr<'a>(it: &mut quick_xml::events::attributes::Attributes<'a>) -> (r: AttrStep) {
    match it.next() {
        None => AttrStep::Done,
        Some(Err(_)) => AttrStep::Fault,
        Some(Ok(a)) => match a.normalized_value(quick_xml::XmlVersion::Implicit1_0) {
            Err(_) => AttrStep::Fault,
            Ok(v) => AttrStep::Found(
                Attr { key: a.key.as_ref().to_string(), value: v.into_owned() },
            ),
        },
    }
}

/// Convert one tokenizer event to the pass's shape: element names,
/// normalized attributes, text content; a reference becomes the text it
/// stands for; self-closing elements and everything else the grammar does
/// not care about become `Other`. `fuel` bounds the attribute walk; running
/// out reads as a malformed document.
fn convert_event(ev: &quick_xml::events::Event<'_>, fuel: usize) -> EventStep {
    match event_kind(ev) {
        EventKind::KindEof => EventStep::Done,
        EventKind::KindStart => {
            let name = match start_name(ev) {
                Some(n) => n,
                None => {
                    return EventStep::Fault;
                },
            };
            let mut it = match start_attrs(ev) {
                Some(it) => it,
                None => {
                    return EventStep::Fault;
                },
            };
            let mut attrs: Vec<Attr> = Vec::new();
            let mut f = fuel;
            loop
                decreases f,
            {
                if f == 0 {
                    return EventStep::Fault;
                }
                f = f - 1;
                match next_attr(&mut it) {
                    AttrStep::Found(a) => {
                        attrs.push(a);
                    },
                    AttrStep::Done => {
                        break ;
                    },
                    AttrStep::Fault => {
                        return EventStep::Fault;
                    },
                }
            }
            EventStep::Item(SidecarEvent::Start { name, attrs })
        },
        EventKind::KindEnd => match end_name(ev) {
            Some(name) => EventStep::Item(SidecarEvent::End { name }),
            None => EventStep::Fault,
        },
        EventKind::KindText => match text_content(ev) {
            Some(content) => EventStep::Item(SidecarEvent::Text { content }),
            None => EventStep::Fault,
        },
        EventKind::KindRef => match ref_text(ev) {
            Some(content) => EventStep::Item(SidecarEvent::Text { content }),
            None => EventStep::Fault,
        },
        EventKind::KindOther => EventStep::Item(SidecarEvent::Other),
    }
}

/// Relies on quick_xml::reader::Reader::from_str and read_event: every
/// structural event of the document in order, each shaped by
/// `convert_event`, or nothing when the document is malformed. The reader
/// walks the document text and nothing else, so what comes back is
/// `spec_tokenize` of it.
#[verifier::external_body]
fn tokenize(doc: &str) -> (r: Option<Vec<SidecarEvent>>)
    ensures
        r is Some <==> spec_tokenize(doc@) is Some,
        r is Some ==> r->0.deep_view() == spec_tokenize(doc@)->0,
{
    let mut reader = quick_xml::reader::Reader::from_str(doc);
    let mut events: Vec<SidecarEvent> = Vec::new();
    loop {
        match reader.read_event().map(|ev| convert_event(&ev, doc.len())) {
            Err(_) | Ok(EventStep::Fault) => return None,
            Ok(EventStep::Done) => return Some(events),
            Ok(EventStep::Item(e)) => events.push(e),
        }
    }
}

/// Text nodes reassembled: every run of consecutive text events becomes the
/// one text event holding their concatenation, in order; everything else
/// stays as it is.
pub open spec fn merge_texts(evs: Seq<EventView>) -> Seq<EventView>
    decreases evs.len(),
{
    if evs.len() == 0 {
        Seq::empty()
    } else {
        let rest = merge_texts(evs.drop_last());
        match evs.last() {
            EventView::Text { content } => {
                if rest.len() > 0 {
                    match rest.last() {
                        EventView::Text { content: prev } => rest.update(
                            rest.len() - 1,
                            EventView::Text { content: prev + content },
                        ),
                        _ => rest.push(evs.last()),
                    }
                } else {
                    rest.push(evs.last())
                }
            },
            _ => rest.push(evs.last()),
        }
    }
}

/// Whether this event is a text piece.
fn is_text_event(ev: &SidecarEvent) -> (r: bool)
    ensures
        r == (ev@ is Text),
{
    match ev {
        SidecarEvent::Text { .. } => true,
        _ => false,
    }
}

/// Reassemble split text nodes, exactly as `merge_texts` says.
fn merge_text_events(events: Vec<SidecarEvent>) -> (r: Vec<SidecarEvent>)
    ensures
        r.deep_view() == merge_texts(events.deep_view()),
{
    let ghost orig = events.deep_view();
    let ghost n = orig.len();
    let mut input = events;
    let mut rev: Vec<SidecarEvent> = Vec::new();
    while input.len() > 0
        invariant
            orig.len() == n,
            input@.len() == input.len(),
            rev@.len() == rev.len(),
            rev.len() + input.len() == n,
            forall|j: int| 0 <= j < input.len() ==> input.deep_view()[j] == orig[j],
            forall|j: int| 0 <= j < rev.len() ==> rev.deep_view()[j] == orig[n - 1 - j],
        decreases input.len(),
    {
        let ghost old_in = input.deep_view();
        let ghost old_rev = rev.deep_view();
        let ghost in_len = input.len() as int;
        let ev = input.pop().unwrap();
        rev.push(ev);
        proof {
            assert(ev.deep_view() == old_in[in_len - 1]);
            assert forall|j: int| 0 <= j < rev.len() implies rev.deep_view()[j] == orig[n - 1
                - j] by {
                if j < old_rev.len() {
                    assert(rev.deep_view()[j] == old_rev[j]);
                } else {
                    assert(rev.deep_view()[j] == ev.deep_view());
                }
            }
        }
    }
    let mut out: Vec<SidecarEvent> = Vec::new();
    proof {
        assert(orig.take(0) =~= Seq::<EventView>::empty());
    }
    while rev.len() > 0
        invariant
            orig.len() == n,
            rev@.len() == rev.len(),
            rev.len() <= n,
            forall|j: int| 0 <= j < rev.len() ==> rev.deep_view()[j] == orig[n - 1 - j],
            out.deep_view() == merge_texts(orig.take(n - rev.len())),
        decreases rev.len(),
    {
        let ghost k = n - rev.len();
        proof {
            assert(orig.take(k + 1).drop_last() =~= orig.take(k as int));
            assert(orig.take(k + 1).last() == orig[k as int]);
            assert(rev.deep_view()[rev.len() - 1] == orig[k as int]);
        }
        let ghost old_rev = rev.deep_view();
        let ev = rev.pop().unwrap();
        proof {
            assert(ev.deep_view() == orig[k as int]);
            assert forall|j: int| 0 <= j < rev.len() implies rev.deep_view()[j] == orig[n - 1
                - j] by {
                assert(rev.deep_view()[j] == old_rev[j]);
            }
        }
        let merged_tail = is_text_event(&ev) && out.len() > 0 && is_text_event(
            &out[out.len() - 1],
        );
        if merged_tail {
            let ghost outdv = out.deep_view();
            match (ev, out.pop()) {
                (SidecarEvent::Text { content }, Some(SidecarEvent::Text { content: prev })) => {
                    let ghost prevv = prev@;
                    let merged = prev.concat(content.as_str());
                    out.push(SidecarEvent::Text { content: merged });
                    proof {
                        assert(outdv.last() == EventView::Text { content: prevv });
                        assert(out.deep_view() =~= outdv.update(
                            outdv.len() - 1,
                            EventView::Text { content: prevv + content@ },
                        ));
                        assert(out.deep_view() =~= merge_texts(orig.take(k + 1)));
                    }
                },
                _ => {
                    proof {
                        assert(false);
                    }
                },
            }
        } else {
            let ghost outdv = out.deep_view();
            out.push(ev);
            proof {
                assert(out.deep_view() =~= outdv.push(orig[k as int]));
                assert(out.deep_view() =~= merge_texts(orig.take(k + 1)));
            }
        }
    }
    proof {
        assert(orig.take(n as int) =~= orig);
    }
    out
}

/// Every raw tag path of a finished pass is nonempty.
pub proof fn lemma_clean_tag_paths_nonempty(texts: Seq<Seq<char>>)
    ensures
        forall|k: int|
            0 <= k < clean_tag_paths(texts).len() ==> clean_tag_paths(texts)[k].len() > 0,
    decreases texts.len(),
{
    if texts.len() > 0 {
        lemma_clean_tag_paths_nonempty(texts.drop_last());
        let rest = clean_tag_paths(texts.drop_last());
        let t = crate::text::spec_trim(texts.last());
        assert forall|k: int|
            0 <= k < clean_tag_paths(texts).len() implies clean_tag_paths(texts)[k].len() > 0 by {
            if t.len() > 0 {
                assert(clean_tag_paths(texts) == rest.push(t));
                if k < rest.len() {
                    assert(clean_tag_paths(texts)[k] == rest[k]);
                } else {
                    assert(clean_tag_paths(texts)[k] == t);
                }
            } else {
                assert(clean_tag_paths(texts) == rest);
            }
        }
    }
}

/// The result `r` is what the pass over the event sequence `evs` denotes.
pub open spec fn outcome_matches(evs: Seq<EventView>, r: Result<
    ParsedMetadata,
    SidecarError,
>) -> bool {
    match spec_parse_outcome(evs) {
        Result::Ok(m) => r is Ok && r->Ok_0@ == m,
        Result::Err(e) => r == Result::<ParsedMetadata, SidecarError>::Err(e),
    }
}

/// Parse one sidecar document: tokenize it, reassemble its split text
/// nodes, and run the pass. The result is exactly what the pass denotes for
/// the document's reassembled event sequence; a document the tokenizer
/// refuses is malformed. Every raw tag path handed back is trimmed and
/// nonempty.
pub fn parse_sidecar(doc: &str) -> (r: Result<ParsedMetadata, SidecarError>)
    ensures
        match spec_tokenize(doc@) {
            Option::None => r == Result::<ParsedMetadata, SidecarError>::Err(
                SidecarError::Malformed,
            ),
            Option::Some(evs) => outcome_matches(merge_texts(evs), r),
        },
        r is Ok ==> forall|k: int|
            0 <= k < r->Ok_0.raw_tag_paths@.len() ==> r->Ok_0.raw_tag_paths@[k]@.len() > 0,
{
    let events = match tokenize(doc) {
        Some(evs) => evs,
        None => {
            return Err(SidecarError::Malformed);
        },
    };
    let merged = merge_text_events(events);
    let r = parse_events(&merged);
    proof {
        let evs = spec_tokenize(doc@)->0;
        assert(merged.deep_view() == merge_texts(evs));
        match spec_parse_outcome(merge_texts(evs)) {
            Result::Ok(m) => {
                assert(r is Ok && r->Ok_0@ == m);
                lemma_clean_tag_paths_nonempty(
                    crate::sidecar::scan_events(merge_texts(evs)).texts,
                );
                assert forall|k: int|
                    0 <= k < r->Ok_0.raw_tag_paths@.len() implies r->Ok_0.raw_tag_paths@[k]@.len()
                    > 0 by {
                    assert(r->Ok_0.raw_tag_paths.deep_view()[k] == r->Ok_0.raw_tag_paths@[k]@);
                }
            },
            Result::Err(e) => {},
        }
        assert(outcome_matches(merge_texts(evs), r));
    }
    r
}

} // verus!
