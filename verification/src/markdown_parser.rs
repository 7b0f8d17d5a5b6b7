//! The sample extractor: streams a documentation text as block-level
//! events and collects the contents of every fenced code block whose
//! language tag is exactly `rust`, in document order.

use vstd::prelude::*;
use vstd::string::StringExecFns;

use pulldown_cmark::{CodeBlockKind, Event, Tag};

use crate::rust_parser::ParseError;
use crate::text::str_eq;

verus! {

/// One event of the documentation stream, reduced to what the sample
/// extractor reads: fence starts and ends with their language tag, runs
/// of literal text, and everything else folded into one ignored form.
pub enum MdEvent {
    FenceStart(String),
    FenceEnd(String),
    Text(String),
    Other,
}

/// The mathematical form of an [`MdEvent`].
#[verifier::ext_equal]
pub enum MdEventView {
    FenceStart(Seq<char>),
    FenceEnd(Seq<char>),
    Text(Seq<char>),
    Other,
}

impl View for MdEvent {
    type V = MdEventView;

    open spec fn view(&self) -> MdEventView {
        match self {
            MdEvent::FenceStart(lang) => MdEventView::FenceStart(lang@),
            MdEvent::FenceEnd(lang) => MdEventView::FenceEnd(lang@),
            MdEvent::Text(text) => MdEventView::Text(text@),
            MdEvent::Other => MdEventView::Other,
        }
    }
}

impl DeepView for MdEvent {
    type V = MdEventView;

    open spec fn deep_view(&self) -> MdEventView {
        self@
    }
}

/// The language tag that marks a sample.
pub open spec fn rust_tag() -> Seq<char> {
    "rust"@
}

/// What the documentation parser yields for a text: its event stream.
pub uninterp spec fn md_events_of(text: Seq<char>) -> Seq<MdEventView>;

/// Relies on pulldown_cmark::Parser: the event stream is a function of
/// the text alone; a fenced code block arrives as a start and an end
/// event carrying the fence's language tag, with the block's literal
/// content as text events between them.
#[verifier::external_body]
fn markdown_events(text: &str) -> (r: Vec<MdEvent>)
    ensures
        r.deep_view() == md_events_of(text@),
{
    let mut out: Vec<MdEvent> = Vec::new();
    for ev in pulldown_cmark::Parser::new(text) {
        out.push(match ev {
            Event::Start(Tag::CodeBlock(CodeBlockKind::Fenced(l))) => {
                MdEvent::FenceStart(l.into_string())
            }
            Event::End(Tag::CodeBlock(CodeBlockKind::Fenced(l))) => {
                MdEvent::FenceEnd(l.into_string())
            }
            Event::Text(t) => MdEvent::Text(t.into_string()),
            _ => MdEvent::Other,
        });
    }
    out
}

/// The samples yielded by an event suffix, entered with the given
/// in-sample flag and accumulated content. A sample is emitted only on a
/// matching end fence: content of a block still open when the stream ends
/// never reaches the result. A non-`rust` fence neither starts a sample
/// nor breaks one that is in progress.
pub open spec fn samples_from(
    events: Seq<MdEventView>,
    in_sample: bool,
    acc: Seq<char>,
) -> Seq<Seq<char>>
    decreases events.len(),
{
    if events.len() == 0 {
        Seq::empty()
    } else {
        let rest = events.subrange(1, events.len() as int);
        match events[0] {
            MdEventView::FenceStart(lang) => if lang == rust_tag() {
                samples_from(rest, true, Seq::empty())
            } else {
                samples_from(rest, in_sample, acc)
            },
            MdEventView::FenceEnd(lang) => if lang == rust_tag() && in_sample {
                seq![acc] + samples_from(rest, false, Seq::empty())
            } else {
                samples_from(rest, in_sample, acc)
            },
            MdEventView::Text(text) => samples_from(
                rest,
                in_sample,
                if in_sample {
                    acc + text
                } else {
                    acc
                },
            ),
            MdEventView::Other => samples_from(rest, in_sample, acc),
        }
    }
}

/// The samples of a whole event stream.
pub open spec fn samples_of(events: Seq<MdEventView>) -> Seq<Seq<char>> {
    samples_from(events, false, Seq::empty())
}

/// Folds the event stream into the list of `rust` samples.
fn collect_samples(events: &Vec<MdEvent>) -> (r: Vec<String>)
    ensures
        r.deep_view() == samples_of(events.deep_view()),
{
    let ghost ev = events.deep_view();
    let mut out: Vec<String> = Vec::new();
    let mut current: String = String::new();
    let mut in_sample: bool = false;
    let mut i: usize = 0;
    proof {
        assert(ev.subrange(0, ev.len() as int) =~= ev);
        assert(out.deep_view() + samples_from(ev, false, current@) =~= samples_from(
            ev,
            false,
            current@,
        ));
    }
    while i < events.len()
        invariant
            ev == events.deep_view(),
            i <= events.len(),
            samples_of(ev) == out.deep_view() + samples_from(
                ev.subrange(i as int, ev.len() as int),
                in_sample,
                current@,
            ),
        decreases events.len() - i,
    {
        proof {
            let suffix = ev.subrange(i as int, ev.len() as int);
            assert(suffix[0] == ev[i as int]);
            assert(suffix.subrange(1, suffix.len() as int) =~= ev.subrange(
                i + 1,
                ev.len() as int,
            ));
        }
        let ghost pre_out = out.deep_view();
        match &events[i] {
            MdEvent::FenceStart(lang) => {
                if str_eq(lang.as_str(), "rust") {
                    in_sample = true;
                    current = String::new();
                }
            },
            MdEvent::FenceEnd(lang) => {
                if str_eq(lang.as_str(), "rust") && in_sample {
                    let ghost emitted = current@;
                    out.push(current);
                    current = String::new();
                    in_sample = false;
                    proof {
                        assert(out.deep_view() =~= pre_out.push(emitted));
                        assert((pre_out + (seq![emitted] + samples_from(
                            ev.subrange(i + 1, ev.len() as int),
                            false,
                            Seq::empty(),
                        ))) =~= (out.deep_view() + samples_from(
                            ev.subrange(i + 1, ev.len() as int),
                            false,
                            Seq::empty(),
                        )));
                    }
                }
            },
            MdEvent::Text(text) => {
                if in_sample {
                    current.append(text.as_str());
                }
            },
            MdEvent::Other => {},
        }
        i += 1;
    }
    proof {
        assert(ev.subrange(ev.len() as int, ev.len() as int).len() == 0);
        assert(samples_of(ev) =~= out.deep_view());
    }
    out
}

/// Whether an event ends a `rust` fence.
pub open spec fn is_rust_end(e: MdEventView) -> bool {
    match e {
        MdEventView::FenceEnd(lang) => lang == rust_tag(),
        _ => false,
    }
}

/// Law (sample boundaries): an event stream without a `rust` end fence
/// yields no samples — a block tagged for another language, or a block
/// never terminated, leaks no content into the result, whatever state
/// the fold is entered in.
pub proof fn lemma_no_rust_end_no_samples(
    events: Seq<MdEventView>,
    in_sample: bool,
    acc: Seq<char>,
)
    requires
        forall|i: int| 0 <= i < events.len() ==> !is_rust_end(events[i]),
    ensures
        samples_from(events, in_sample, acc) == Seq::<Seq<char>>::empty(),
    decreases events.len(),
{
    if events.len() > 0 {
        let rest = events.subrange(1, events.len() as int);
        assert forall|i: int| 0 <= i < rest.len() implies !is_rust_end(rest[i]) by {
            assert(rest[i] == events[i + 1]);
        }
        match events[0] {
            MdEventView::FenceStart(lang) => {
                lemma_no_rust_end_no_samples(rest, true, Seq::empty());
                lemma_no_rust_end_no_samples(rest, in_sample, acc);
            },
            MdEventView::FenceEnd(lang) => {
                assert(!is_rust_end(events[0]));
                lemma_no_rust_end_no_samples(rest, in_sample, acc);
            },
            MdEventView::Text(text) => {
                lemma_no_rust_end_no_samples(rest, in_sample, acc + text);
                lemma_no_rust_end_no_samples(rest, in_sample, acc);
            },
            MdEventView::Other => {
                lemma_no_rust_end_no_samples(rest, in_sample, acc);
            },
        }
    }
}

/// Streams a documentation text and yields the content of every fenced
/// code block tagged exactly `rust`, in document order. A text without
/// such blocks yields the empty list; nothing here is an error.
pub fn extract_rust_blocks(markdown: &str) -> (r: Result<Vec<String>, ParseError>)
    ensures
        r matches Ok(samples) && samples.deep_view() == samples_of(md_events_of(markdown@)),
{
    let events = markdown_events(markdown);
    Ok(collect_samples(&events))
}

} // verus!
