//! An approved edit.

use crate::span::{span_follows, Span};
use vstd::prelude::*;

verus! {

/// One approved edit: the text at `span` is to become `replacement`.
#[derive(Debug, Clone, PartialEq, Eq)]
pub struct BandAid {
    /// What is replaced.
    pub span: Span,
    /// What it is replaced with.
    pub replacement: String,
}

/// A [`BandAid`] as a mathematical value.
pub struct BandAidView {
    pub span: Span,
    pub replacement: Seq<char>,
}

impl View for BandAid {
    type V = BandAidView;

    open spec fn view(&self) -> BandAidView {
        BandAidView { span: self.span, replacement: self.replacement@ }
    }
}

impl DeepView for BandAid {
    type V = BandAidView;

    open spec fn deep_view(&self) -> BandAidView {
        self@
    }
}

/// Whether `next` may come behind `previous`: its span lies behind the span
/// of `previous`.
pub open spec fn follows(previous: BandAidView, next: BandAidView) -> bool {
    span_follows(previous.span, next.span)
}

impl BandAid {
    /// The edit that puts `replacement` at `span`.
    pub fn new(replacement: &str, span: &Span) -> (bandaid: BandAid)
        ensures
            bandaid@ == (BandAidView { span: *span, replacement: replacement@ }),
    {
        BandAid { span: span.clone(), replacement: replacement.to_owned() }
    }
}

} // verus!
