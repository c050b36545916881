//! Trusted boundary to the scraper crate: HTML queries whose results are
//! functions of the document bytes and the query alone, named here so
//! that verified callers can speak of them exactly.

use vstd::prelude::*;

verus! {

/// View of an optional byte vector.
pub open spec fn opt_bytes_view(o: Option<Vec<u8>>) -> Option<Seq<u8>> {
    match o {
        Some(v) => Some(v@),
        None => None,
    }
}

/// View of a vector of optional byte-vector pairs.
pub open spec fn pairs_view(v: Seq<(Option<Vec<u8>>, Option<Vec<u8>>)>) -> Seq<
    (Option<Seq<u8>>, Option<Seq<u8>>),
>
    decreases v.len(),
{
    if v.len() == 0 {
        Seq::empty()
    } else {
        pairs_view(v.drop_last()).push(
            (opt_bytes_view(v.last().0), opt_bytes_view(v.last().1)),
        )
    }
}

/// `pairs_view` maps indices through unchanged.
pub proof fn lemma_pairs_view(v: Seq<(Option<Vec<u8>>, Option<Vec<u8>>)>)
    ensures
        pairs_view(v).len() == v.len(),
        forall|i: int|
            0 <= i < v.len() ==> #[trigger] pairs_view(v)[i] == (
                opt_bytes_view(v[i].0),
                opt_bytes_view(v[i].1),
            ),
    decreases v.len(),
{
    if v.len() > 0 {
        lemma_pairs_view(v.drop_last());
        assert(forall|i: int|
            0 <= i < v.len() - 1 ==> v.drop_last()[i] == #[trigger] v[i]);
    }
}

/// Attribute `attr` of the first element of `doc` matching selector `sel`.
pub uninterp spec fn sel_attr_of(doc: Seq<u8>, sel: Seq<u8>, attr: Seq<u8>) -> Option<Seq<u8>>;

/// For every element of `doc` matching selector `sel`, in document order,
/// its `a1` and `a2` attributes.
pub uninterp spec fn sel_attr_pairs_of(
    doc: Seq<u8>,
    sel: Seq<u8>,
    a1: Seq<u8>,
    a2: Seq<u8>,
) -> Seq<(Option<Seq<u8>>, Option<Seq<u8>>)>;

/// The serialized inner HTML of the first element of `doc` matching
/// selector `sel`.
pub uninterp spec fn sel_inner_of(doc: Seq<u8>, sel: Seq<u8>) -> Option<Seq<u8>>;

/// Relies on scraper's Html::parse_document, Selector::parse and
/// ElementRef::attr: parsing and selection are functions of the document
/// and query bytes alone.
#[verifier::external_body]
pub fn html_first_attr(doc: &Vec<u8>, sel: &Vec<u8>, attr: &Vec<u8>) -> (r: Option<Vec<u8>>)
    ensures
        opt_bytes_view(r) == sel_attr_of(doc@, sel@, attr@),
{
    let (Ok(doc), Ok(sel), Ok(attr)) = (
        std::str::from_utf8(doc.as_slice()),
        std::str::from_utf8(sel.as_slice()),
        std::str::from_utf8(attr.as_slice()),
    ) else { return None };
    let Ok(selector) = scraper::Selector::parse(sel) else { return None };
    let dom = scraper::Html::parse_document(doc);
    Some(dom.select(&selector).next()?.attr(attr)?.as_bytes().to_vec())
}

/// Relies on scraper's Html::parse_document, Selector::parse and
/// ElementRef::attr: the two attributes of every matching element, in
/// document order.
#[verifier::external_body]
pub fn html_attr_pairs(doc: &Vec<u8>, sel: &Vec<u8>, a1: &Vec<u8>, a2: &Vec<u8>) -> (r: Vec<
    (Option<Vec<u8>>, Option<Vec<u8>>),
>)
    ensures
        pairs_view(r@) == sel_attr_pairs_of(doc@, sel@, a1@, a2@),
{
    let (Ok(doc), Ok(sel), Ok(a1), Ok(a2)) = (
        std::str::from_utf8(doc.as_slice()),
        std::str::from_utf8(sel.as_slice()),
        std::str::from_utf8(a1.as_slice()),
        std::str::from_utf8(a2.as_slice()),
    ) else { return Vec::new() };
    let Ok(selector) = scraper::Selector::parse(sel) else { return Vec::new() };
    let dom = scraper::Html::parse_document(doc);
    dom.select(&selector).map(
        |e| (e.attr(a1).map(|v| v.as_bytes().to_vec()), e.attr(a2).map(|v| v.as_bytes().to_vec())),
    ).collect()
}

/// Relies on scraper's Html::parse_document, Selector::parse and
/// ElementRef::inner_html: the re-serialized contents of the first
/// matching element.
#[verifier::external_body]
pub fn html_first_inner(doc: &Vec<u8>, sel: &Vec<u8>) -> (r: Option<Vec<u8>>)
    ensures
        opt_bytes_view(r) == sel_inner_of(doc@, sel@),
{
    let (Ok(doc), Ok(sel)) = (
        std::str::from_utf8(doc.as_slice()),
        std::str::from_utf8(sel.as_slice()),
    ) else { return None };
    let Ok(selector) = scraper::Selector::parse(sel) else { return None };
    let dom = scraper::Html::parse_document(doc);
    Some(dom.select(&selector).next()?.inner_html().into_bytes())
}

} // verus!
