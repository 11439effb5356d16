//! Finding the highest sequence number from a listing page.
use vstd::prelude::*;
use vstd::string::StrSliceExecFns;
use vstd::utf8::encode_utf8;
use crate::digits::{parse_trailing_number, trailing_number};

verus! {

#[verifier::external_type_specification]
#[verifier::external_body]
pub struct ExParseError(tl::ParseError);

/// One node of a parsed HTML document, as plain values.
#[derive(Debug, Clone)]
pub struct HtmlNode {
    /// The node's rendered inner text.
    pub text: String,
    /// Whether the node is an element (not raw text or a comment).
    pub is_tag: bool,
    /// The value of its `href` attribute, where it is an element that has one with a value.
    pub href: Option<String>,
}

pub open spec fn opt_view(o: Option<String>) -> Option<Seq<char>> {
    match o {
        Some(s) => Some(s@),
        None => None,
    }
}

impl View for HtmlNode {
    type V = (Seq<char>, bool, Option<Seq<char>>);

    open spec fn view(&self) -> (Seq<char>, bool, Option<Seq<char>>) {
        (self.text@, self.is_tag, opt_view(self.href))
    }
}

pub open spec fn node_views(nodes: Seq<HtmlNode>) -> Seq<(Seq<char>, bool, Option<Seq<char>>)> {
    nodes.map_values(|n: HtmlNode| n@)
}

/// The nodes, in document order, that the HTML parser finds in a page.
pub uninterp spec fn html_nodes(page: Seq<char>) -> Seq<(Seq<char>, bool, Option<Seq<char>>)>;

/// Relies on tl::parse, with Node::inner_text, Node::as_tag and
/// Attributes::get for each node of VDom::nodes: the nodes depend on the page
/// alone, and parsing fails only on a page longer than `u32::MAX` bytes.
#[verifier::external_body]
fn parse_html(page: &str) -> (r: Result<Vec<HtmlNode>, tl::ParseError>)
    ensures
        r is Err <==> encode_utf8(page@).len() > u32::MAX,
        r matches Ok(v) ==> node_views(v@) == html_nodes(page@),
{
    let dom = tl::parse(page, tl::ParserOptions::default())?;
    let parser = dom.parser();
    Ok(dom.nodes().iter().map(|n| HtmlNode {
        text: n.inner_text(parser).into_owned(),
        is_tag: n.as_tag().is_some(),
        href: n.as_tag().and_then(|t| t.attributes().get("href").flatten())
            .map(|b| b.as_utf8_str().into_owned()),
    }).collect())
}

/// Why the highest sequence number could not be found.
#[derive(Debug)]
pub enum DiscoveryError {
    /// The listing page could not be fetched.
    Transport(String),
    /// The listing page could not be parsed as HTML.
    MalformedPage,
    /// No node's text is the marker.
    MarkerNotFound,
    /// The marker node is not an element.
    NotALink,
    /// The marker element has no link target.
    MissingLink,
    /// The link target does not end in a number that fits a `usize`.
    LinkNotNumeric,
}

pub open spec fn is_first_marker(
    nodes: Seq<(Seq<char>, bool, Option<Seq<char>>)>,
    marker: Seq<char>,
    i: int,
) -> bool {
    &&& 0 <= i < nodes.len()
    &&& nodes[i].0 == marker
    &&& forall|j: int| 0 <= j < i ==> (#[trigger] nodes[j]).0 != marker
}

/// What discovery yields on a parsed page: the first node whose text is the
/// marker must be an element whose link ends in the number.
pub open spec fn discovery_spec(
    nodes: Seq<(Seq<char>, bool, Option<Seq<char>>)>,
    marker: Seq<char>,
) -> Result<usize, DiscoveryError> {
    if exists|i: int| is_first_marker(nodes, marker, i) {
        let i = choose|i: int| is_first_marker(nodes, marker, i);
        if !nodes[i].1 {
            Err(DiscoveryError::NotALink)
        } else {
            match nodes[i].2 {
                None => Err(DiscoveryError::MissingLink),
                Some(link) => match trailing_number(link) {
                    Some(v) => Ok(v),
                    None => Err(DiscoveryError::LinkNotNumeric),
                },
            }
        }
    } else {
        Err(DiscoveryError::MarkerNotFound)
    }
}

/// Whether two strings hold the same characters.
fn same_text(a: &str, b: &str) -> (r: bool)
    ensures
        r == (a@ == b@),
{
    let n = a.unicode_len();
    if n != b.unicode_len() {
        return false;
    }
    let mut i: usize = 0;
    while i < n
        invariant
            i <= n == a@.len() == b@.len(),
            forall|j: int| 0 <= j < i ==> a@[j] == b@[j],
        decreases n - i,
    {
        if a.get_char(i) != b.get_char(i) {
            return false;
        }
        i += 1;
    }
    assert(a@ =~= b@);
    true
}

/// Reads the highest sequence number from the nodes of a listing page.
pub fn find_max_id(nodes: &Vec<HtmlNode>, marker: &str) -> (r: Result<usize, DiscoveryError>)
    ensures
        r == discovery_spec(node_views(nodes@), marker@),
{
    let ghost views = node_views(nodes@);
    let mut i: usize = 0;
    while i < nodes.len()
        invariant
            i <= nodes@.len(),
            views == node_views(nodes@),
            forall|j: int| 0 <= j < i ==> (#[trigger] views[j]).0 != marker@,
        decreases nodes@.len() - i,
    {
        let node = &nodes[i];
        assert(views[i as int] == node@);
        if same_text(node.text.as_str(), marker) {
            proof {
                assert(is_first_marker(views, marker@, i as int));
                let k = choose|k: int| is_first_marker(views, marker@, k);
                if k < i {
                    assert(views[k].0 != marker@);
                }
                if i < k {
                    assert(views[i as int].0 != marker@);
                }
            }
            if !node.is_tag {
                return Err(DiscoveryError::NotALink);
            }
            return match &node.href {
                None => Err(DiscoveryError::MissingLink),
                Some(link) => match parse_trailing_number(link.as_str()) {
                    Some(v) => Ok(v),
                    None => Err(DiscoveryError::LinkNotNumeric),
                },
            };
        }
        i += 1;
    }
    proof {
        if exists|k: int| is_first_marker(views, marker@, k) {
            let k = choose|k: int| is_first_marker(views, marker@, k);
            assert(views[k].0 != marker@);
        }
    }
    Err(DiscoveryError::MarkerNotFound)
}

/// Reads the highest sequence number from a listing page's HTML.
pub fn max_id_from_page(page: &str, marker: &str) -> (r: Result<usize, DiscoveryError>)
    ensures
        encode_utf8(page@).len() > u32::MAX ==> r == Err::<usize, DiscoveryError>(DiscoveryError::MalformedPage),
        encode_utf8(page@).len() <= u32::MAX ==> r == discovery_spec(html_nodes(page@), marker@),
{
    match parse_html(page) {
        Ok(nodes) => find_max_id(&nodes, marker),
        Err(_) => Err(DiscoveryError::MalformedPage),
    }
}

} // verus!
