use vstd::prelude::*;

verus! {

/// What a crawled page yields: its address, title, body text and the
/// absolute addresses of its links.
pub struct FetchResult {
    pub url: String,
    pub title: String,
    pub text: String,
    pub links: Vec<String>,
}

/// What `url::Url::parse` gives for a text, as the parsed URL's
/// serialization, or `None` when the text is not a URL.
pub uninterp spec fn parsed_url(text: Seq<char>) -> Option<Seq<char>>;

/// What `url::Url::join` gives for a reference against the base URL
/// `base` (the serialization of the result), or `None` when `base` or the
/// reference does not parse.
pub uninterp spec fn joined_url(base: Seq<char>, reference: Seq<char>) -> Option<Seq<char>>;

/// The text content of each element of the HTML document `html` that the
/// CSS selector `selector` matches, in document order (none when the
/// selector does not parse), as `scraper` finds them.
pub uninterp spec fn selected_texts(html: Seq<char>, selector: Seq<char>) -> Seq<Seq<char>>;

/// The value of attribute `name` of each element of the HTML document
/// `html` that the CSS selector `selector` matches, in document order
/// (`None` for an element without the attribute; no element when the
/// selector does not parse), as `scraper` finds them.
pub uninterp spec fn selected_attributes(html: Seq<char>, selector: Seq<char>, name: Seq<char>) -> Seq<
    Option<Seq<char>>,
>;

/// Trusted: `url::Url::parse`, then the URL's serialization
/// (`Url::to_string`). Claims only that the result is the one named by
/// `parsed_url` for the text.
#[verifier::external_body]
pub(crate) fn parse_url(text: &str) -> (url: Option<String>)
    ensures
        url.deep_view() == parsed_url(text@),
{
    match url::Url::parse(text) {
        Ok(u) => Some(u.to_string()),
        Err(_) => None,
    }
}

/// Trusted: `url::Url::parse` of the base, `url::Url::join` of the
/// reference against it, then the serialization. Claims only that the
/// result is the one named by `joined_url`.
#[verifier::external_body]
fn join_url(base: &str, reference: &str) -> (url: Option<String>)
    ensures
        url.deep_view() == joined_url(base@, reference@),
{
    match url::Url::parse(base) {
        Ok(b) => match b.join(reference) {
            Ok(u) => Some(u.to_string()),
            Err(_) => None,
        },
        Err(_) => None,
    }
}

/// Trusted: `scraper::Html::parse_document`, `scraper::Selector::parse`,
/// `Html::select` and `ElementRef::text` (its pieces concatenated). Claims
/// only that the result is the one named by `selected_texts`.
#[verifier::external_body]
fn element_texts(html: &str, selector: &str) -> (texts: Vec<String>)
    ensures
        texts.deep_view() == selected_texts(html@, selector@),
{
    let document = scraper::Html::parse_document(html);
    let mut texts = Vec::new();
    if let Ok(sel) = scraper::Selector::parse(selector) {
        for element in document.select(&sel) {
            texts.push(element.text().collect::<String>());
        }
    }
    texts
}

/// Trusted: `scraper::Html::parse_document`, `scraper::Selector::parse`,
/// `Html::select` and `ElementRef::attr`. Claims only that the result is
/// the one named by `selected_attributes`.
#[verifier::external_body]
fn element_attributes(html: &str, selector: &str, name: &str) -> (values: Vec<Option<String>>)
    ensures
        values.deep_view() == selected_attributes(html@, selector@, name@),
{
    let document = scraper::Html::parse_document(html);
    let mut values = Vec::new();
    if let Ok(sel) = scraper::Selector::parse(selector) {
        for element in document.select(&sel) {
            values.push(element.attr(name).map(String::from));
        }
    }
    values
}

/// The first of `texts`, or the empty text when there is none.
pub open spec fn first_or_empty(texts: Seq<Seq<char>>) -> Seq<char> {
    if texts.len() > 0 {
        texts[0]
    } else {
        Seq::empty()
    }
}

/// The links of a page at `base`, in order: each reference that is present
/// and resolves against `base`, resolved.
pub open spec fn resolved_links(base: Seq<char>, references: Seq<Option<Seq<char>>>) -> Seq<
    Seq<char>,
>
    decreases references.len(),
{
    if references.len() == 0 {
        Seq::empty()
    } else {
        let before = resolved_links(base, references.drop_last());
        match references.last() {
            Some(r) => match joined_url(base, r) {
                Some(u) => before.push(u),
                None => before,
            },
            None => before,
        }
    }
}

/// The links of references given one after another are the links of the
/// first ones followed by those of the others.
pub proof fn lemma_resolved_links_concat(
    base: Seq<char>,
    first: Seq<Option<Seq<char>>>,
    second: Seq<Option<Seq<char>>>,
)
    ensures
        resolved_links(base, first + second) == resolved_links(base, first) + resolved_links(
            base,
            second,
        ),
    decreases second.len(),
{
    if second.len() == 0 {
        assert(first + second =~= first);
        assert(resolved_links(base, first) + resolved_links(base, second) =~= resolved_links(
            base,
            first,
        ));
    } else {
        let rest = second.drop_last();
        lemma_resolved_links_concat(base, first, rest);
        assert((first + second).drop_last() =~= first + rest);
        assert((first + second).last() == second.last());
        let a = resolved_links(base, first);
        let b = resolved_links(base, rest);
        match second.last() {
            Some(r) => match joined_url(base, r) {
                Some(u) => {
                    assert((a + b).push(u) =~= a + b.push(u));
                },
                None => {},
            },
            None => {},
        }
    }
}

/// One reference gives one link, its resolution, when it is present and
/// resolves, and none otherwise. With `lemma_resolved_links_concat` this
/// says that every present reference that resolves is kept, in order.
pub proof fn lemma_resolved_link_single(base: Seq<char>, reference: Option<Seq<char>>)
    ensures
        resolved_links(base, seq![reference]) == match reference {
            Some(r) => match joined_url(base, r) {
                Some(u) => seq![u],
                None => Seq::empty(),
            },
            None => Seq::empty(),
        },
{
    let single = seq![reference];
    assert(single.drop_last() =~= Seq::<Option<Seq<char>>>::empty());
    assert(single.last() == reference);
    assert(resolved_links(base, single.drop_last()) =~= Seq::<Seq<char>>::empty());
    match reference {
        Some(r) => match joined_url(base, r) {
            Some(u) => {
                assert(Seq::<Seq<char>>::empty().push(u) =~= seq![u]);
            },
            None => {},
        },
        None => {},
    }
}

/// The first of `texts`, or the empty string when there is none.
fn first_text(texts: &Vec<String>) -> (first: String)
    ensures
        first@ == first_or_empty(texts.deep_view()),
        texts@.len() > 0 ==> first@ == texts@[0]@,
        texts@.len() == 0 ==> first@.len() == 0,
{
    if texts.len() > 0 {
        assert(texts.deep_view()[0] == texts@[0]@);
        texts[0].clone()
    } else {
        String::new()
    }
}

/// A page at `address` from what its HTML holds: the texts of its `title`
/// elements, of its `body` elements, and its link references. The title
/// and text are the first of each (empty when there is none); the links
/// are the references that are present and resolve against the address,
/// resolved, in order.
pub fn assemble_page(
    address: &str,
    titles: &Vec<String>,
    bodies: &Vec<String>,
    references: &Vec<Option<String>>,
) -> (page: FetchResult)
    ensures
        page.url@ == address@,
        page.title@ == first_or_empty(titles.deep_view()),
        page.text@ == first_or_empty(bodies.deep_view()),
        titles@.len() > 0 ==> page.title@ == titles@[0]@,
        titles@.len() == 0 ==> page.title@.len() == 0,
        bodies@.len() > 0 ==> page.text@ == bodies@[0]@,
        bodies@.len() == 0 ==> page.text@.len() == 0,
        page.links.deep_view() == resolved_links(address@, references.deep_view()),
{
    let ghost rv = references.deep_view();
    let mut links: Vec<String> = Vec::new();
    let n = references.len();
    assert(rv.take(0) =~= Seq::<Option<Seq<char>>>::empty());
    for i in 0..n
        invariant
            n == references@.len(),
            rv == references.deep_view(),
            links.deep_view() == resolved_links(address@, rv.take(i as int)),
    {
        assert(rv.take(i + 1).drop_last() =~= rv.take(i as int));
        assert(rv[i as int] == references@[i as int].deep_view());
        if let Some(reference) = &references[i] {
            if let Some(link) = join_url(address, reference.as_str()) {
                let ghost before = links.deep_view();
                links.push(link);
                assert(links.deep_view() =~= before.push(link@));
            }
        }
    }
    assert(rv.take(n as int) =~= rv);
    FetchResult {
        url: String::from_str(address),
        title: first_text(titles),
        text: first_text(bodies),
        links,
    }
}

/// What a fetched page yields, from its address and its HTML: the text of
/// its first `title` element, the text of its first `body` element (each
/// empty when there is none) and the `href` of each `a` element, resolved
/// against the address (references that do not resolve are dropped).
pub fn extract_page(address: &str, html: &str) -> (page: FetchResult)
    ensures
        page.url@ == address@,
        page.title@ == first_or_empty(selected_texts(html@, "title"@)),
        page.text@ == first_or_empty(selected_texts(html@, "body"@)),
        selected_texts(html@, "title"@).len() > 0 ==> page.title@ == selected_texts(
            html@,
            "title"@,
        )[0],
        selected_texts(html@, "body"@).len() > 0 ==> page.text@ == selected_texts(
            html@,
            "body"@,
        )[0],
        page.links.deep_view() == resolved_links(
            address@,
            selected_attributes(html@, "a[href]"@, "href"@),
        ),
{
    let titles = element_texts(html, "title");
    let references = element_attributes(html, "a[href]", "href");
    let bodies = element_texts(html, "body");
    assemble_page(address, &titles, &bodies, &references)
}

} // verus!
