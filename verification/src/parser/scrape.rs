//! Trusted access to the HTML selector engine.
//!
//! Document traversal is delegated to the `scraper` crate.  Each query is a
//! pure function of the document text and the selector strings, so its result
//! is given a name by an uninterpreted spec function, and the capability
//! contracts are stated over those names.

use vstd::prelude::*;

verus! {

/// What the selector engine yields as the inner HTML of the first element of
/// the document matching the selector; absent when the selector is invalid
/// or no element matches.
pub uninterp spec fn first_inner_html(doc: Seq<char>, selector: Seq<char>) -> Option<Seq<char>>;

/// What the selector engine yields as the values of the given attribute on
/// every matching element of the document, in document order, skipping
/// elements without the attribute; empty when the selector is invalid.
pub uninterp spec fn all_attr_values(doc: Seq<char>, selector: Seq<char>, attr: Seq<char>) -> Seq<
    Seq<char>,
>;

/// What the selector engine yields as the inner HTML of each element
/// matching `inner` within the first element matching `outer`, in document
/// order; absent when a selector is invalid or nothing matches `outer`.
pub uninterp spec fn nested_inner_htmls(doc: Seq<char>, outer: Seq<char>, inner: Seq<char>) -> Option<
    Seq<Seq<char>>,
>;

/// Relies on scraper's `Html::parse_document`, `Selector::parse`,
/// `Html::select` and `ElementRef::inner_html`: the inner HTML of the first
/// element matching the selector, a function of the two strings alone.
#[verifier::external_body]
pub(crate) fn select_first_inner_html(doc: &str, selector: &str) -> (r: Option<String>)
    ensures
        match r {
            Some(s) => first_inner_html(doc@, selector@) == Some(s@),
            None => first_inner_html(doc@, selector@) is None,
        },
{
    let parsed = scraper::Html::parse_document(doc);
    let sel = match scraper::Selector::parse(selector) {
        Ok(sel) => sel,
        Err(_) => return None,
    };
    parsed.select(&sel).next().map(|el| el.inner_html())
}

/// Relies on scraper's `Html::parse_document`, `Selector::parse`,
/// `Html::select` and `ElementRef::attr`: the values of the attribute on the
/// matching elements that carry it, in document order, a function of the
/// three strings alone.
#[verifier::external_body]
pub(crate) fn select_attr_values(doc: &str, selector: &str, attr: &str) -> (r: Vec<String>)
    ensures
        r.deep_view() == all_attr_values(doc@, selector@, attr@),
{
    let parsed = scraper::Html::parse_document(doc);
    let sel = match scraper::Selector::parse(selector) {
        Ok(sel) => sel,
        Err(_) => return Vec::new(),
    };
    parsed.select(&sel).filter_map(|el| el.attr(attr).map(|v| v.to_owned())).collect()
}

/// Relies on scraper's `Html::parse_document`, `Selector::parse`, the two
/// `select` methods and `ElementRef::inner_html`: the inner HTML of each
/// element matching `inner` inside the first element matching `outer`, a
/// function of the three strings alone.
#[verifier::external_body]
pub(crate) fn select_nested_inner_htmls(doc: &str, outer: &str, inner: &str) -> (r: Option<
    Vec<String>,
>)
    ensures
        match r {
            Some(v) => nested_inner_htmls(doc@, outer@, inner@) == Some(v.deep_view()),
            None => nested_inner_htmls(doc@, outer@, inner@) is None,
        },
{
    let parsed = scraper::Html::parse_document(doc);
    let osel = match scraper::Selector::parse(outer) {
        Ok(sel) => sel,
        Err(_) => return None,
    };
    let isel = match scraper::Selector::parse(inner) {
        Ok(sel) => sel,
        Err(_) => return None,
    };
    let first = parsed.select(&osel).next()?;
    Some(first.select(&isel).map(|el| el.inner_html()).collect())
}

} // verus!
