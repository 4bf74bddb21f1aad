use vstd::prelude::*;

verus! {

/// Why the body of a page could not be had.
#[derive(Debug, Clone, PartialEq)]
pub enum URLContentGetterError {
    /// Transport or status failure: the HTTP status, or 0 when none was received.
    Request(u16),
    /// The body could not be read or decoded.
    Content(String),
}

/// The mathematical value of a [`URLContentGetterError`].
pub enum ErrorView {
    Request(u16),
    Content(Seq<char>),
}

impl View for URLContentGetterError {
    type V = ErrorView;

    open spec fn view(&self) -> ErrorView {
        match self {
            URLContentGetterError::Request(code) => ErrorView::Request(*code),
            URLContentGetterError::Content(msg) => ErrorView::Content(msg@),
        }
    }
}

/// For each `<a>` element of an HTML document, in the order in which the parser created the
/// elements (document order, but for nodes the parser moved while recovering), its `href`
/// attribute if it has one. This is what the HTML parser recovers from the text, malformed or not.
pub uninterp spec fn anchor_hrefs(html: Seq<char>) -> Seq<Option<Seq<char>>>;

/// The `href` values that are present, in order.
pub open spec fn present_hrefs(anchors: Seq<Option<Seq<char>>>) -> Seq<Seq<char>> {
    anchors.filter(|h: Option<Seq<char>>| h is Some).map_values(|h: Option<Seq<char>>| h->0)
}

/// Relies on scraper: `Html::parse_document` parses the text into a document tree (it never
/// fails), `Selector::parse("a")` is the selector of anchor elements, `Html::select` yields the
/// matching elements in the order the document's node arena holds them, and
/// `ElementRef::attr("href")` reads the attribute. The result depends on the text alone.
#[verifier::external_body]
fn anchor_hrefs_of(html: &str) -> (r: Vec<Option<String>>)
    ensures
        r.deep_view() == anchor_hrefs(html@),
{
    let document = scraper::Html::parse_document(html);
    let anchors = scraper::Selector::parse("a").unwrap();
    document.select(&anchors).map(|a| a.attr("href").map(|h| h.to_string())).collect()
}

/// Keeps the `href` values that are present, in their order, duplicates and malformed
/// values included.
pub fn links_from_anchors(anchors: Vec<Option<String>>) -> (r: Vec<String>)
    ensures
        r.deep_view() == present_hrefs(anchors.deep_view()),
{
    let ghost is_some = |h: Option<Seq<char>>| h is Some;
    let ghost get = |h: Option<Seq<char>>| h->0;
    let mut r: Vec<String> = Vec::new();
    let mut i: usize = 0;
    while i < anchors.len()
        invariant
            i <= anchors.len(),
            is_some == (|h: Option<Seq<char>>| h is Some),
            get == (|h: Option<Seq<char>>| h->0),
            r.deep_view() == anchors.deep_view().take(i as int).filter(is_some).map_values(get),
        decreases anchors.len() - i,
    {
        let ghost before = anchors.deep_view().take(i as int);
        assert(anchors.deep_view().take(i + 1) =~= before.push(anchors.deep_view()[i as int]));
        proof {
            before.lemma_filter_push(anchors.deep_view()[i as int], is_some);
        }
        match &anchors[i] {
            Some(h) => {
                let ghost kept = r.deep_view();
                assert(anchors.deep_view()[i as int] == Some(h@));
                r.push(h.clone());
                assert(r.deep_view() =~= kept.push(h@));
                assert(r.deep_view() =~= before.filter(is_some).push(anchors.deep_view()[i as int]).map_values(get));
            },
            None => {},
        }
        i = i + 1;
    }
    assert(anchors.deep_view().take(anchors.len() as int) =~= anchors.deep_view());
    r
}

/// The raw `href` values of every `<a>` element of an HTML document, in the parser's order:
/// no resolution, filtering or deduplication.
pub fn extract_links(html: &str) -> (r: Vec<String>)
    ensures
        r.deep_view() == present_hrefs(anchor_hrefs(html@)),
{
    links_from_anchors(anchor_hrefs_of(html))
}

} // verus!
