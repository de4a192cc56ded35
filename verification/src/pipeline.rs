//! A whole run: measure the two words, plan the new canvas, put the words
//! in, resize, and write the document out. Nothing is changed before every
//! check has passed.

use crate::document::{well_formed, ElementNode, ElementView, Text};
use crate::error::ReplaceError;
use crate::laws::law_substitution_keeps_geometry;
use crate::metrics::{MetricsTable, MetricsView};
use crate::resize::{apply_width, plan_width, planned, resized};
use crate::substitute::{slot_count, substitute, substituted};
use crate::xml::{
    parse, parse_outcome, parsed_document, serialize, serialize_outcome, written_document,
};
use vstd::prelude::*;

verus! {

/// What a run is asked for: two words, in order, and whether the first is
/// to be drawn in a lighter weight.
#[derive(Debug)]
pub struct Replacement {
    pub first: String,
    pub second: String,
    pub lighten_first: bool,
}

/// A request as contracts see it.
pub struct ReplacementView {
    pub first: Text,
    pub second: Text,
    pub lighten_first: bool,
}

impl View for Replacement {
    type V = ReplacementView;

    open spec fn view(&self) -> ReplacementView {
        ReplacementView {
            first: self.first@,
            second: self.second@,
            lighten_first: self.lighten_first,
        }
    }
}

/// The widths of the two words, where both fit.
pub open spec fn measured_pair(metrics: MetricsView, request: ReplacementView) -> Result<
    (i64, i64),
    ReplaceError,
> {
    match metrics.measured(request.first) {
        Ok(a) => match metrics.measured(request.second) {
            Ok(b) => Ok((a, b)),
            Err(e) => Err(e),
        },
        Err(e) => Err(e),
    }
}

/// The document after a run on words of the given widths: the geometry is
/// checked first, then the text slots; then the words are put in and the
/// canvas is resized.
pub open spec fn transformed(
    e: ElementView,
    request: ReplacementView,
    first_width: int,
    second_width: int,
    baseline: int,
) -> Result<ElementView, ReplaceError> {
    match planned(e, first_width, second_width, baseline) {
        Ok(w) => if slot_count(e) < 2 {
            Err(ReplaceError::InsufficientTextNodes)
        } else {
            Ok(
                resized(
                    substituted(e, 0, request.first, request.second, request.lighten_first),
                    w as int,
                ),
            )
        },
        Err(x) => Err(x),
    }
}

/// The document after a run that measures the words itself.
pub open spec fn replaced(
    e: ElementView,
    request: ReplacementView,
    metrics: MetricsView,
    baseline: int,
) -> Result<ElementView, ReplaceError> {
    match measured_pair(metrics, request) {
        Ok(p) => transformed(e, request, p.0 as int, p.1 as int, baseline),
        Err(x) => Err(x),
    }
}

/// What a run returns once the XML parser has made `parsed` of the input
/// and, where the run gets that far, the XML writer makes `written` of the
/// result.
pub open spec fn run_outcome(
    font: Option<MetricsView>,
    asset_read: bool,
    parsed: Option<ElementView>,
    request: ReplacementView,
    baseline: int,
) -> Result<Seq<u8>, ReplaceError> {
    match font {
        None => Err(ReplaceError::FontResolution),
        Some(metrics) => if !asset_read {
            Err(ReplaceError::AssetRead)
        } else {
            match parse_outcome(parsed) {
                Err(x) => Err(x),
                Ok(e) => match replaced(e, request, metrics, baseline) {
                    Err(x) => Err(x),
                    Ok(out) => serialize_outcome(written_document(out)),
                },
            }
        },
    }
}

/// Measures the two words.
pub fn measure(metrics: &MetricsTable, request: &Replacement) -> (r: Result<(i64, i64), ReplaceError>)
    ensures
        r == measured_pair(metrics@, request@),
{
    let a = match metrics.width_of(request.first.as_str()) {
        Ok(a) => a,
        Err(e) => {
            return Err(e);
        },
    };
    match metrics.width_of(request.second.as_str()) {
        Ok(b) => Ok((a, b)),
        Err(e) => Err(e),
    }
}

/// Puts the two words into the document and resizes its canvas for their
/// widths. Fails with `AttributeParse` or `NumericRange` as planning the
/// width does, and with `InsufficientTextNodes` where the document has fewer
/// than two text slots; on failure the document is left as it was.
pub fn transform(
    root: &mut ElementNode,
    request: &Replacement,
    first_width: i64,
    second_width: i64,
    baseline: i64,
) -> (r: Result<(), ReplaceError>)
    ensures
        match transformed(
            old(root)@,
            request@,
            first_width as int,
            second_width as int,
            baseline as int,
        ) {
            Ok(v) => r is Ok && final(root)@ == v,
            Err(x) => r == Err::<(), ReplaceError>(x) && *final(root) == *old(root),
        },
        well_formed(old(root)@) ==> well_formed(final(root)@),
{
    let width = match plan_width(root, first_width, second_width, baseline) {
        Ok(w) => w,
        Err(e) => {
            return Err(e);
        },
    };
    match substitute(root, request.first.as_str(), request.second.as_str(), request.lighten_first) {
        Ok(()) => {},
        Err(e) => {
            return Err(e);
        },
    }
    proof {
        law_substitution_keeps_geometry(
            old(root)@,
            0,
            request.first@,
            request.second@,
            request.lighten_first,
        );
    }
    apply_width(root, width)
}

/// Measures the two words with `metrics`, then transforms the document.
/// Fails with `NumericRange` where a word's width does not fit, and as
/// `transform` does.
pub fn replace(root: &mut ElementNode, request: &Replacement, metrics: &MetricsTable, baseline: i64) -> (r:
    Result<(), ReplaceError>)
    ensures
        match replaced(old(root)@, request@, metrics@, baseline as int) {
            Ok(v) => r is Ok && final(root)@ == v,
            Err(x) => r == Err::<(), ReplaceError>(x) && *final(root) == *old(root),
        },
        well_formed(old(root)@) ==> well_formed(final(root)@),
{
    match measure(metrics, request) {
        Ok((a, b)) => transform(root, request, a, b, baseline),
        Err(e) => Err(e),
    }
}

/// A whole run on what was loaded: `font` is `None` where the font could
/// not be resolved, `asset` where the input document could not be read.
/// Returns the bytes to write out. The failures come in this order:
/// `FontResolution`, `AssetRead`, `XmlParse`, then those of `replace`, then
/// `Serialize`.
pub fn run(
    font: Option<&MetricsTable>,
    asset: Option<&[u8]>,
    request: &Replacement,
    baseline: i64,
) -> (r: Result<Vec<u8>, ReplaceError>)
    ensures
        (match r {
            Ok(b) => Ok(b@),
            Err(e) => Err(e),
        }) == run_outcome(
            match font {
                Some(m) => Some(m@),
                None => None,
            },
            asset is Some,
            match asset {
                Some(b) => parsed_document(b@),
                None => None,
            },
            request@,
            baseline as int,
        ),
{
    let metrics = match font {
        Some(m) => m,
        None => {
            return Err(ReplaceError::FontResolution);
        },
    };
    let bytes = match asset {
        Some(b) => b,
        None => {
            return Err(ReplaceError::AssetRead);
        },
    };
    let mut root = match parse(bytes) {
        Ok(e) => e,
        Err(e) => {
            return Err(e);
        },
    };
    match replace(&mut root, request, metrics, baseline) {
        Ok(()) => {},
        Err(e) => {
            return Err(e);
        },
    }
    serialize(&root)
}

} // verus!
