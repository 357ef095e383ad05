//! Access to a parsed HTML document through the `scraper` crate.
//!
//! A [`Document`] keeps the text it was parsed from, and every
//! [`DomElement`] handed out keeps the path by which it was found: the
//! selector text and position of each match on the way down from the
//! document. What `scraper` finds is named over these plain values (the
//! document text and the path), so that a reading of a page can be stated
//! as a function of its HTML text.

use scraper::{ElementRef, Html, Selector};
use vstd::prelude::*;

use crate::pattern::opt_view;

verus! {

#[verifier::external_type_specification]
#[verifier::external_body]
pub struct ExHtml(Html);

#[verifier::external_type_specification]
#[verifier::external_body]
pub struct ExSelector(Selector);

#[verifier::external_type_specification]
#[verifier::external_body]
pub struct ExElementRef<'a>(ElementRef<'a>);

/// A parsed HTML document and the text it was parsed from.
pub struct Document {
    html: Html,
    text: String,
}

impl View for Document {
    type V = Seq<char>;

    closed spec fn view(&self) -> Seq<char> {
        self.text@
    }
}

/// A parsed CSS selector and its text.
pub struct Css {
    selector: Selector,
    text: String,
}

impl View for Css {
    type V = Seq<char>;

    closed spec fn view(&self) -> Seq<char> {
        self.text@
    }
}

/// An element of a document, with the path by which it was found: for each
/// step down from the document, the selector text and the position of the
/// element among that selector's matches.
///
/// Documents, selectors and elements are made only by the functions of
/// this module, from what `scraper` returns, so the text of a document is
/// the text it was parsed from and the path of an element is the one by
/// which `scraper` found it.
pub struct DomElement<'a> {
    element: ElementRef<'a>,
    document: &'a Document,
    path: Vec<(String, usize)>,
}

/// The view of a path of selector texts and positions.
pub open spec fn path_view(path: Seq<(String, usize)>) -> Seq<(Seq<char>, nat)> {
    path.map_values(|step: (String, usize)| (step.0@, step.1 as nat))
}

impl<'a> View for DomElement<'a> {
    type V = (Seq<char>, Seq<(Seq<char>, nat)>);

    closed spec fn view(&self) -> (Seq<char>, Seq<(Seq<char>, nat)>) {
        (self.document@, path_view(self.path@))
    }
}

/// The views of a sequence of strings.
pub open spec fn string_views(v: Seq<String>) -> Seq<Seq<char>> {
    v.map_values(|s: String| s@)
}

/// Whether `raw` is a CSS selector that `scraper::Selector::parse` accepts.
pub uninterp spec fn css_selector_accepted(raw: Seq<char>) -> bool;

/// The number of elements that the selector `selector` matches, as
/// `scraper` selects them: in the document parsed from `html` for an empty
/// `path` (`Html::select`), else below the element found by `path`
/// (`ElementRef::select`). Every [`DomElement`] has a non-empty path, so the
/// two cases never meet.
pub uninterp spec fn scraper_match_count(
    html: Seq<char>,
    path: Seq<(Seq<char>, nat)>,
    selector: Seq<char>,
) -> nat;

/// The text nodes below the element found by `path` in the document parsed
/// from `html`, in order (`ElementRef::text`).
pub uninterp spec fn scraper_text_nodes(html: Seq<char>, path: Seq<(Seq<char>, nat)>) -> Seq<
    Seq<char>,
>;

/// The value of the attribute `name` of the element found by `path` in the
/// document parsed from `html` (`Element::attr`).
pub uninterp spec fn scraper_attribute(
    html: Seq<char>,
    path: Seq<(Seq<char>, nat)>,
    name: Seq<char>,
) -> Option<Seq<char>>;

/// The class names of the element found by `path` in the document parsed
/// from `html` (`Element::classes`).
pub uninterp spec fn scraper_class_names(html: Seq<char>, path: Seq<(Seq<char>, nat)>) -> Seq<
    Seq<char>,
>;

/// `Html::parse_document`: the document tree of an HTML text, kept with
/// that text. Trusted: the view is the text.
#[verifier::external_body]
pub(crate) fn parse_document(text: &str) -> (res: Document)
    ensures
        res@ == text@,
{
    Document { html: Html::parse_document(text), text: text.to_owned() }
}

/// `Selector::parse`, kept with the selector text. Trusted: it succeeds
/// exactly when `raw` is accepted, which is named `css_selector_accepted`.
#[verifier::external_body]
pub(crate) fn parse_selector(raw: &str) -> (res: Option<Css>)
    ensures
        res.is_some() == css_selector_accepted(raw@),
        res matches Some(css) ==> css@ == raw@,
{
    match Selector::parse(raw) {
        Ok(selector) => Some(Css { selector, text: raw.to_owned() }),
        Err(_) => None,
    }
}

/// The element found `position`-th by `css` below the element at
/// `parent` (the document for an empty path).
fn found_element<'a>(
    document: &'a Document,
    parent: &Vec<(String, usize)>,
    css: &Css,
    position: usize,
    element: ElementRef<'a>,
) -> (res: DomElement<'a>)
    ensures
        res@ == (document@, path_view(parent@).push((css@, position as nat))),
{
    let mut path: Vec<(String, usize)> = Vec::new();
    let n = parent.len();
    let mut k: usize = 0;
    while k < n
        invariant
            k <= n == parent@.len(),
            path@.len() == k,
            path_view(path@) =~= path_view(parent@).take(k as int),
        decreases n - k,
    {
        let ghost before = path@;
        let name = parent[k].0.clone();
        path.push((name, parent[k].1));
        k = k + 1;
        assert forall|j: int| 0 <= j < k implies #[trigger] path_view(path@)[j] == path_view(
            parent@,
        ).take(k as int)[j] by {
            if j < k - 1 {
                assert(path@[j] == before[j]);
                assert(path_view(before)[j] == path_view(parent@).take(k - 1)[j]);
            }
        }
        assert(path_view(path@) =~= path_view(parent@).take(k as int));
    }
    path.push((css.text.clone(), position));
    proof {
        assert(path_view(parent@).take(n as int) =~= path_view(parent@));
        assert(path_view(path@) =~= path_view(parent@).push((css@, position as nat)));
    }
    DomElement { element, document, path }
}

/// `Html::select`: the elements of the document that the selector matches,
/// in the order `scraper` returns them. Trusted: as many as
/// `scraper_match_count` names, the `i`-th found by the one-step path of the
/// selector and `i`.
#[verifier::external_body]
pub(crate) fn select_in_document<'a>(document: &'a Document, css: &Css) -> (res: Vec<DomElement<'a>>)
    ensures
        res@.len() == scraper_match_count(document@, Seq::empty(), css@),
        forall|i: int|
            0 <= i < res@.len() ==> (#[trigger] res@[i])@ == (
                document@,
                Seq::<(Seq<char>, nat)>::empty().push((css@, i as nat)),
            ),
{
    document.html.select(&css.selector).enumerate().map(
        |(i, element)| found_element(document, &Vec::new(), css, i, element),
    ).collect()
}

/// `ElementRef::select`: the elements below `element` that the selector
/// matches, in the order `scraper` returns them. Trusted: as many as
/// `scraper_match_count` names, the `i`-th found by the element's path
/// extended by the selector and `i`.
#[verifier::external_body]
pub(crate) fn select_in_element<'a>(element: &DomElement<'a>, css: &Css) -> (res: Vec<
    DomElement<'a>,
>)
    ensures
        res@.len() == scraper_match_count(element@.0, element@.1, css@),
        forall|i: int|
            0 <= i < res@.len() ==> (#[trigger] res@[i])@ == (
                element@.0,
                element@.1.push((css@, i as nat)),
            ),
{
    element.element.select(&css.selector).enumerate().map(
        |(i, found)| found_element(element.document, &element.path, css, i, found),
    ).collect()
}

/// `ElementRef::text`: the text nodes below the element, in order.
/// Trusted: they are what `scraper` gives, named `scraper_text_nodes`.
#[verifier::external_body]
pub(crate) fn text_nodes(element: &DomElement) -> (res: Vec<String>)
    ensures
        string_views(res@) == scraper_text_nodes(element@.0, element@.1),
{
    element.element.text().map(|piece| piece.to_owned()).collect()
}

/// `Element::attr`: the value of an attribute of the element. Trusted: it
/// is what `scraper` gives, named `scraper_attribute`.
#[verifier::external_body]
pub(crate) fn attribute(element: &DomElement, name: &str) -> (res: Option<String>)
    ensures
        opt_view(res) == scraper_attribute(element@.0, element@.1, name@),
{
    element.element.value().attr(name).map(|value| value.to_owned())
}

/// `Element::classes`: the class names of the element. Trusted: they are
/// what `scraper` gives, named `scraper_class_names`.
#[verifier::external_body]
pub(crate) fn class_names(element: &DomElement) -> (res: Vec<String>)
    ensures
        string_views(res@) == scraper_class_names(element@.0, element@.1),
{
    element.element.value().classes().map(|class| class.to_owned()).collect()
}

} // verus!
