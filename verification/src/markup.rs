//! Elements of HTML pages.
use vstd::prelude::*;
use vstd::string::*;

use crate::text::{opt_str, strs};

verus! {

/// An element of a page: its text, its classes and one of its attributes.
#[derive(Debug)]
pub struct Found {
    pub text: String,
    pub classes: Vec<String>,
    pub attr: Option<String>,
}

/// An element of a page, by its characters.
pub struct FoundView {
    pub text: Seq<char>,
    pub classes: Seq<Seq<char>>,
    pub attr: Option<Seq<char>>,
}

impl View for Found {
    type V = FoundView;

    open spec fn view(&self) -> FoundView {
        FoundView { text: self.text@, classes: strs(self.classes@), attr: opt_str(self.attr) }
    }
}

/// The views of a list of elements.
pub open spec fn found_views(v: Seq<Found>) -> Seq<FoundView> {
    v.map_values(|f: Found| f@)
}

/// The views of a list of elements, where there is one.
pub open spec fn opt_found(o: Option<Vec<Found>>) -> Option<Seq<FoundView>> {
    match o {
        Some(v) => Some(found_views(v@)),
        None => None,
    }
}

/// A step into a page: a selector, and which of the elements that it selects.
#[derive(Debug)]
pub struct Step {
    pub selector: String,
    pub nth: usize,
}

/// The characters of the steps into a page.
pub open spec fn steps_view(v: Seq<Step>) -> Seq<(Seq<char>, nat)> {
    v.map_values(|s: Step| (s.selector@, s.nth as nat))
}

/// The elements of a page that a selector selects, each with the attribute `attr`. `None`
/// where the selector is no selector.
pub uninterp spec fn selected(html: Seq<char>, selector: Seq<char>, attr: Seq<char>) -> Option<
    Seq<FoundView>,
>;

/// The elements that a selector selects inside the element that the steps lead to, each
/// with the attribute `attr`. `None` where the steps lead nowhere, or a selector is none.
pub uninterp spec fn selected_in(
    html: Seq<char>,
    steps: Seq<(Seq<char>, nat)>,
    selector: Seq<char>,
    attr: Seq<char>,
) -> Option<Seq<FoundView>>;

/// `scraper::Html::select` on a parsed page, with the text, the classes and an attribute of
/// each element. What a page holds is left to the name.
#[verifier::external_body]
pub(crate) fn elements(html: &str, selector: &str, attr: &str) -> (r: Option<Vec<Found>>)
    ensures
        opt_found(r) == selected(html@, selector@, attr@),
{
    let sel = scraper::Selector::parse(selector).ok()?;
    let page = scraper::Html::parse_document(html);
    let all = page.select(&sel).map(|e| Found {
        text: e.text().collect(),
        classes: e.value().classes().map(String::from).collect(),
        attr: e.value().attr(attr).map(String::from),
    });
    Some(all.collect())
}

/// `scraper::ElementRef::select` on the element that the steps lead to, the first by
/// `scraper::Html::select` and the others by `scraper::ElementRef::select`. What a page
/// holds is left to the name.
#[verifier::external_body]
pub(crate) fn elements_in(html: &str, steps: &Vec<Step>, selector: &str, attr: &str) -> (r: Option<
    Vec<Found>,
>)
    requires
        steps@.len() > 0,
    ensures
        opt_found(r) == selected_in(html@, steps_view(steps@), selector@, attr@),
{
    let page = scraper::Html::parse_document(html);
    let sel = |s: &str| scraper::Selector::parse(s).ok();
    let mut at = page.select(&sel(&steps[0].selector)?).nth(steps[0].nth)?;
    for s in &steps[1..] {
        at = at.select(&sel(&s.selector)?).nth(s.nth)?;
    }
    let all = at.select(&sel(selector)?).map(|e| Found {
        text: e.text().collect(),
        classes: e.value().classes().map(String::from).collect(),
        attr: e.value().attr(attr).map(String::from),
    }).collect();
    Some(all)
}

} // verus!
