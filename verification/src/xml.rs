//! A parsed XML document as plain values: the namespace declarations of the
//! root element and every node of the document in depth-first document
//! order, each with its depth, tag, attributes and text. Parsing is done by
//! an outside XML parser behind a trusted boundary; every query over the
//! parsed document (namespace lookup, namespace-tolerant descendant search,
//! attribute search) is verified here.

use vstd::prelude::*;
use vstd::string::*;

use crate::strutil::parse_i64_spec;
use crate::strutil::parse_i64;
use crate::strutil::str_eq;

verus! {

/// One namespace declaration on the document's root element:
/// `xmlns:name="uri"`, or `xmlns="uri"` when `name` is absent.
pub struct NsDecl {
    pub name: Option<String>,
    pub uri: String,
}

/// One attribute of an element node.
pub struct XmlAttr {
    pub ns: Option<String>,
    pub name: String,
    pub value: String,
}

/// One node of the document, in depth-first document order. `depth` orders
/// nodes into subtrees: the descendants of a node are the run of nodes
/// right after it whose depth is strictly greater. For an element node,
/// `text` is the text of its first child when that child is a text node.
pub struct XmlNode {
    pub depth: usize,
    pub is_element: bool,
    pub ns: Option<String>,
    pub tag: String,
    pub text: Option<String>,
    pub attrs: Vec<XmlAttr>,
}

/// A parsed document: root namespace declarations and the node list.
pub struct XmlDoc {
    pub ns_decls: Vec<NsDecl>,
    pub nodes: Vec<XmlNode>,
}

/// One staged file handed in by the caller: its name (the final path
/// component) and its text, `None` when the file could not be read.
pub struct NamedDoc {
    pub name: String,
    pub content: Option<String>,
}

pub ghost struct NamedDocV {
    pub name: Seq<char>,
    pub content: Option<Seq<char>>,
}

impl DeepView for NamedDoc {
    type V = NamedDocV;

    open spec fn deep_view(&self) -> NamedDocV {
        NamedDocV { name: self.name@, content: self.content.deep_view() }
    }
}

// ---------------------------------------------------------------------------
// Mathematical views
// ---------------------------------------------------------------------------

pub ghost struct NsDeclV {
    pub name: Option<Seq<char>>,
    pub uri: Seq<char>,
}

pub ghost struct XmlAttrV {
    pub ns: Option<Seq<char>>,
    pub name: Seq<char>,
    pub value: Seq<char>,
}

pub ghost struct XmlNodeV {
    pub depth: int,
    pub is_element: bool,
    pub ns: Option<Seq<char>>,
    pub tag: Seq<char>,
    pub text: Option<Seq<char>>,
    pub attrs: Seq<XmlAttrV>,
}

pub ghost struct XmlDocV {
    pub ns_decls: Seq<NsDeclV>,
    pub nodes: Seq<XmlNodeV>,
}

impl DeepView for NsDecl {
    type V = NsDeclV;

    open spec fn deep_view(&self) -> NsDeclV {
        NsDeclV { name: self.name.deep_view(), uri: self.uri@ }
    }
}

impl DeepView for XmlAttr {
    type V = XmlAttrV;

    open spec fn deep_view(&self) -> XmlAttrV {
        XmlAttrV { ns: self.ns.deep_view(), name: self.name@, value: self.value@ }
    }
}

impl DeepView for XmlNode {
    type V = XmlNodeV;

    open spec fn deep_view(&self) -> XmlNodeV {
        XmlNodeV {
            depth: self.depth as int,
            is_element: self.is_element,
            ns: self.ns.deep_view(),
            tag: self.tag@,
            text: self.text.deep_view(),
            attrs: self.attrs.deep_view(),
        }
    }
}

impl DeepView for XmlDoc {
    type V = XmlDocV;

    open spec fn deep_view(&self) -> XmlDocV {
        XmlDocV { ns_decls: self.ns_decls.deep_view(), nodes: self.nodes.deep_view() }
    }
}

// ---------------------------------------------------------------------------
// The trusted parsing boundary
// ---------------------------------------------------------------------------

/// The root element's namespace declarations of the document written in
/// `text`, or `None` when `text` is not well-formed XML. Parsing is
/// deterministic: the result is a function of the text alone.
pub uninterp spec fn ns_decls_of(text: Seq<char>) -> Option<Seq<NsDeclV>>;

/// The node list, in depth-first document order, of the document written in
/// `text`, or `None` when `text` is not well-formed XML.
pub uninterp spec fn nodes_of(text: Seq<char>) -> Option<Seq<XmlNodeV>>;

/// Relies on `roxmltree::Document::parse` and `Node::namespaces`: the
/// namespace declarations in scope on the root element, a function of the
/// text alone; `None` exactly when the text fails to parse.
#[verifier::external_body]
fn parse_ns_decls(text: &str) -> (r: Option<Vec<NsDecl>>)
    ensures
        r.deep_view() == ns_decls_of(text@),
        r is Some <==> nodes_of(text@) is Some,
{
    let doc = match roxmltree::Document::parse(text) {
        Ok(d) => d,
        Err(_) => return None,
    };
    Some(doc.root_element().namespaces().map(|n| NsDecl {
        name: n.name().map(|s| s.to_string()),
        uri: n.uri().to_string(),
    }).collect())
}

/// Relies on `roxmltree::Document::parse` and the `Node` accessors
/// (`ancestors`, `is_element`, `tag_name`, `text`, `attributes`): one record
/// per node in depth-first document order, a function of the text alone.
/// `Node::text` of an element is the text of its first child when that
/// child is a text node.
#[verifier::external_body]
fn parse_nodes(text: &str) -> (r: Option<Vec<XmlNode>>)
    ensures
        r.deep_view() == nodes_of(text@),
{
    let doc = match roxmltree::Document::parse(text) {
        Ok(d) => d,
        Err(_) => return None,
    };
    Some(doc.descendants().map(|n| XmlNode {
        depth: n.ancestors().count(),
        is_element: n.is_element(),
        ns: n.tag_name().namespace().map(|s| s.to_string()),
        tag: n.tag_name().name().to_string(),
        text: n.text().map(|s| s.to_string()),
        attrs: n.attributes().map(
            |a| XmlAttr { ns: a.namespace().map(|s| s.to_string()), name: a.name().to_string(), value: a.value().to_string() },
        ).collect(),
    }).collect())
}

/// Parses a document, or reports `None` for malformed XML.
pub fn parse_xml_doc(text: &str) -> (r: Option<XmlDoc>)
    ensures
        r is Some <==> nodes_of(text@) is Some,
        r matches Some(d) ==> Some(d.nodes.deep_view()) == nodes_of(text@) && Some(
            d.ns_decls.deep_view(),
        ) == ns_decls_of(text@),
{
    let decls: Option<Vec<NsDecl>> = parse_ns_decls(text);
    let nodes: Option<Vec<XmlNode>> = parse_nodes(text);
    match (decls, nodes) {
        (Some(ns_decls), Some(nodes)) => Some(XmlDoc { ns_decls, nodes }),
        _ => None,
    }
}

// ---------------------------------------------------------------------------
// Namespace lookup
// ---------------------------------------------------------------------------

/// The URI bound to the alias `ident` in the declaration list, first
/// declaration winning; absence is a valid outcome, not an error.
pub open spec fn ns_lookup(decls: Seq<NsDeclV>, ident: Seq<char>) -> Option<Seq<char>>
    decreases decls.len(),
{
    if decls.len() == 0 {
        None
    } else if decls[0].name == Some(ident) {
        Some(decls[0].uri)
    } else {
        ns_lookup(decls.drop_first(), ident)
    }
}

/// Looks up the URI bound to a short namespace alias in the root element's
/// declarations.
pub fn get_namespace_str(decls: &Vec<NsDecl>, ident: &str) -> (r: Option<String>)
    ensures
        r.deep_view() == ns_lookup(decls.deep_view(), ident@),
{
    let ghost dv = decls.deep_view();
    let n: usize = decls.len();
    let mut i: usize = 0;
    proof {
        assert(dv.skip(0) =~= dv);
    }
    while i < n
        invariant
            0 <= i <= n,
            n == decls@.len(),
            dv == decls.deep_view(),
            ns_lookup(dv, ident@) == ns_lookup(dv.skip(i as int), ident@),
        decreases n - i,
    {
        proof {
            assert(dv.skip(i as int)[0] == dv[i as int]);
            assert(dv[i as int] == decls@[i as int].deep_view());
            assert(dv.skip(i as int).drop_first() =~= dv.skip(i as int + 1));
        }
        let matched: bool = match &decls[i].name {
            Some(nm) => str_eq(nm.as_str(), ident),
            None => false,
        };
        if matched {
            return Some(decls[i].uri.clone());
        }
        i = i + 1;
    }
    proof {
        assert(dv.skip(n as int) =~= Seq::<NsDeclV>::empty());
    }
    None
}

/// The first staged file carrying the given name.
pub open spec fn doc_lookup(files: Seq<NamedDocV>, name: Seq<char>) -> Option<NamedDocV>
    decreases files.len(),
{
    if files.len() == 0 {
        None
    } else if files[0].name == name {
        Some(files[0])
    } else {
        doc_lookup(files.drop_first(), name)
    }
}

/// Position of the first staged file carrying the given name.
pub fn doc_find(files: &Vec<NamedDoc>, name: &str) -> (r: Option<usize>)
    ensures
        match r {
            Some(k) => k < files@.len() && doc_lookup(files.deep_view(), name@) == Some(
                files.deep_view()[k as int],
            ),
            None => doc_lookup(files.deep_view(), name@) is None,
        },
{
    let ghost fv = files.deep_view();
    let n: usize = files.len();
    let mut i: usize = 0;
    proof {
        assert(fv.skip(0) =~= fv);
    }
    while i < n
        invariant
            0 <= i <= n,
            n == files@.len(),
            fv == files.deep_view(),
            doc_lookup(fv, name@) == doc_lookup(fv.skip(i as int), name@),
        decreases n - i,
    {
        proof {
            assert(fv.skip(i as int)[0] == fv[i as int]);
            assert(fv[i as int] == files@[i as int].deep_view());
            assert(fv.skip(i as int).drop_first() =~= fv.skip(i as int + 1));
        }
        if str_eq(files[i].name.as_str(), name) {
            return Some(i);
        }
        i = i + 1;
    }
    proof {
        assert(fv.skip(n as int) =~= Seq::<NamedDocV>::empty());
    }
    None
}

// ---------------------------------------------------------------------------
// Subtrees in the flat node list
// ---------------------------------------------------------------------------

/// First position at or after `j` whose node is no deeper than `d`; the
/// list's length when there is none.
pub open spec fn scan_end(nodes: Seq<XmlNodeV>, d: int, j: int) -> int
    decreases nodes.len() - j,
{
    if j < 0 || j >= nodes.len() {
        nodes.len() as int
    } else if nodes[j].depth <= d {
        j
    } else {
        scan_end(nodes, d, j + 1)
    }
}

/// One past the last node of the subtree rooted at position `i`: its
/// descendants are exactly the nodes at positions `i + 1 .. subtree_end`.
pub open spec fn subtree_end(nodes: Seq<XmlNodeV>, i: int) -> int {
    scan_end(nodes, nodes[i].depth, i + 1)
}

pub proof fn lemma_scan_end_bounds(nodes: Seq<XmlNodeV>, d: int, j: int)
    requires
        0 <= j <= nodes.len(),
    ensures
        j <= scan_end(nodes, d, j) <= nodes.len(),
    decreases nodes.len() - j,
{
    if j < nodes.len() && nodes[j].depth > d {
        lemma_scan_end_bounds(nodes, d, j + 1);
    }
}

/// One past the last node of the subtree rooted at `i`.
pub fn subtree_end_at(nodes: &Vec<XmlNode>, i: usize) -> (r: usize)
    requires
        i < nodes@.len(),
    ensures
        r == subtree_end(nodes.deep_view(), i as int),
        i < r <= nodes@.len(),
{
    let ghost nv = nodes.deep_view();
    let n: usize = nodes.len();
    let d: usize = nodes[i].depth;
    proof {
        assert(nv[i as int] == nodes@[i as int].deep_view());
    }
    let mut j: usize = i + 1;
    while j < n && nodes[j].depth > d
        invariant
            i + 1 <= j <= n,
            n == nodes@.len(),
            nv == nodes.deep_view(),
            d == nodes@[i as int].depth,
            scan_end(nv, d as int, i as int + 1) == scan_end(nv, d as int, j as int),
        decreases n - j,
    {
        proof {
            assert(nv[j as int] == nodes@[j as int].deep_view());
        }
        j = j + 1;
    }
    proof {
        if j < n {
            assert(nv[j as int] == nodes@[j as int].deep_view());
        }
    }
    j
}

// ---------------------------------------------------------------------------
// Namespace-tolerant tag and attribute matching
// ---------------------------------------------------------------------------

/// Whether an element node matches a local tag name, optionally qualified
/// by a namespace URI. With a filter, the node's namespace must equal it;
/// without one, matching goes purely by local name, whatever the node's
/// namespace — the bare-tag dialect.
pub open spec fn tag_matches(n: XmlNodeV, ns: Option<Seq<char>>, tag: Seq<char>) -> bool {
    n.is_element && n.tag == tag && (ns matches Some(u) ==> n.ns == Some(u))
}

/// Whether an attribute matches a local name, optionally qualified by a
/// namespace URI, with the same two modes as `tag_matches`.
pub open spec fn attr_matches(a: XmlAttrV, ns: Option<Seq<char>>, name: Seq<char>) -> bool {
    a.name == name && (ns matches Some(u) ==> a.ns == Some(u))
}

/// Value of the first attribute in the list matching `(ns, name)`.
pub open spec fn attr_first(attrs: Seq<XmlAttrV>, ns: Option<Seq<char>>, name: Seq<char>) -> Option<
    Seq<char>,
>
    decreases attrs.len(),
{
    if attrs.len() == 0 {
        None
    } else if attr_matches(attrs[0], ns, name) {
        Some(attrs[0].value)
    } else {
        attr_first(attrs.drop_first(), ns, name)
    }
}

/// First position in `lo .. hi` holding an element that matches the tag.
pub open spec fn find_tag_in(
    nodes: Seq<XmlNodeV>,
    lo: int,
    hi: int,
    ns: Option<Seq<char>>,
    tag: Seq<char>,
) -> Option<int>
    decreases hi - lo,
{
    if lo < 0 || lo >= hi || lo >= nodes.len() {
        None
    } else if tag_matches(nodes[lo], ns, tag) {
        Some(lo)
    } else {
        find_tag_in(nodes, lo + 1, hi, ns, tag)
    }
}

/// First position in `lo .. hi` whose node carries an attribute matching
/// `(ns, name)`.
pub open spec fn find_attr_in(
    nodes: Seq<XmlNodeV>,
    lo: int,
    hi: int,
    ns: Option<Seq<char>>,
    name: Seq<char>,
) -> Option<int>
    decreases hi - lo,
{
    if lo < 0 || lo >= hi || lo >= nodes.len() {
        None
    } else if nodes[lo].is_element && attr_first(nodes[lo].attrs, ns, name) is Some {
        Some(lo)
    } else {
        find_attr_in(nodes, lo + 1, hi, ns, name)
    }
}

/// Value of the matching attribute on the first node of `lo .. hi` that
/// carries one.
pub open spec fn find_attr_value(
    nodes: Seq<XmlNodeV>,
    lo: int,
    hi: int,
    ns: Option<Seq<char>>,
    name: Seq<char>,
) -> Option<Seq<char>> {
    match find_attr_in(nodes, lo, hi, ns, name) {
        Some(k) => attr_first(nodes[k].attrs, ns, name),
        None => None,
    }
}

pub(crate) fn tag_matches_x(n: &XmlNode, ns: Option<&str>, tag: &str) -> (r: bool)
    ensures
        r == tag_matches(n.deep_view(), ns.deep_view(), tag@),
{
    if !n.is_element {
        return false;
    }
    if !str_eq(n.tag.as_str(), tag) {
        return false;
    }
    match ns {
        None => true,
        Some(u) => match &n.ns {
            Some(nu) => str_eq(nu.as_str(), u),
            None => false,
        },
    }
}

/// Value of the first attribute of `attrs` matching `(ns, name)`.
pub(crate) fn attr_first_x(attrs: &Vec<XmlAttr>, ns: Option<&str>, name: &str) -> (r: Option<String>)
    ensures
        r.deep_view() == attr_first(attrs.deep_view(), ns.deep_view(), name@),
{
    let ghost av = attrs.deep_view();
    let n: usize = attrs.len();
    let mut i: usize = 0;
    proof {
        assert(av.skip(0) =~= av);
    }
    while i < n
        invariant
            0 <= i <= n,
            n == attrs@.len(),
            av == attrs.deep_view(),
            attr_first(av, ns.deep_view(), name@) == attr_first(
                av.skip(i as int),
                ns.deep_view(),
                name@,
            ),
        decreases n - i,
    {
        proof {
            assert(av.skip(i as int)[0] == av[i as int]);
            assert(av[i as int] == attrs@[i as int].deep_view());
            assert(av.skip(i as int).drop_first() =~= av.skip(i as int + 1));
        }
        let name_ok: bool = str_eq(attrs[i].name.as_str(), name);
        let ns_ok: bool = match ns {
            None => true,
            Some(u) => match &attrs[i].ns {
                Some(au) => str_eq(au.as_str(), u),
                None => false,
            },
        };
        if name_ok && ns_ok {
            return Some(attrs[i].value.clone());
        }
        i = i + 1;
    }
    proof {
        assert(av.skip(n as int) =~= Seq::<XmlAttrV>::empty());
    }
    None
}

/// First position in `lo .. hi` holding an element matching the tag, in
/// document order.
pub fn find_tag_from(nodes: &Vec<XmlNode>, lo: usize, hi: usize, ns: Option<&str>, tag: &str) -> (r:
    Option<usize>)
    requires
        hi <= nodes@.len(),
    ensures
        r is Some <==> find_tag_in(nodes.deep_view(), lo as int, hi as int, ns.deep_view(), tag@)
            is Some,
        r matches Some(k) ==> lo <= k < hi && find_tag_in(
            nodes.deep_view(),
            lo as int,
            hi as int,
            ns.deep_view(),
            tag@,
        ) == Some(k as int),
{
    let ghost nv = nodes.deep_view();
    let mut i: usize = lo;
    if i >= hi {
        return None;
    }
    while i < hi
        invariant
            lo <= i <= hi,
            hi <= nodes@.len(),
            nv == nodes.deep_view(),
            find_tag_in(nv, lo as int, hi as int, ns.deep_view(), tag@) == find_tag_in(
                nv,
                i as int,
                hi as int,
                ns.deep_view(),
                tag@,
            ),
        decreases hi - i,
    {
        proof {
            assert(nv[i as int] == nodes@[i as int].deep_view());
        }
        if tag_matches_x(&nodes[i], ns, tag) {
            return Some(i);
        }
        i = i + 1;
    }
    None
}

/// First position in `lo .. hi` whose element carries an attribute
/// matching `(ns, name)`, together with that attribute's value.
pub fn find_attr_value_from(
    nodes: &Vec<XmlNode>,
    lo: usize,
    hi: usize,
    ns: Option<&str>,
    name: &str,
) -> (r: Option<String>)
    requires
        hi <= nodes@.len(),
    ensures
        r.deep_view() == find_attr_value(nodes.deep_view(), lo as int, hi as int, ns.deep_view(), name@),
{
    let ghost nv = nodes.deep_view();
    let mut i: usize = lo;
    if i >= hi {
        return None;
    }
    while i < hi
        invariant
            lo <= i <= hi,
            hi <= nodes@.len(),
            nv == nodes.deep_view(),
            find_attr_in(nv, lo as int, hi as int, ns.deep_view(), name@) == find_attr_in(
                nv,
                i as int,
                hi as int,
                ns.deep_view(),
                name@,
            ),
        decreases hi - i,
    {
        proof {
            assert(nv[i as int] == nodes@[i as int].deep_view());
        }
        if nodes[i].is_element {
            let v: Option<String> = attr_first_x(&nodes[i].attrs, ns, name);
            if v.is_some() {
                return v;
            }
        }
        i = i + 1;
    }
    None
}

// ---------------------------------------------------------------------------
// Node text
// ---------------------------------------------------------------------------

/// The node's text parsed as a decimal integer, when both are present.
pub open spec fn node_text_i64(n: XmlNodeV) -> Option<i64> {
    match n.text {
        None => None,
        Some(t) => parse_i64_spec(t),
    }
}

/// Reads a node's text as an integer; a missing text or a malformed number
/// is an absence, not an error.
pub fn convert_node_text_to_i64(node: &XmlNode) -> (r: Option<i64>)
    ensures
        r == node_text_i64(node.deep_view()),
{
    match &node.text {
        None => None,
        Some(t) => parse_i64(t.as_str()),
    }
}

} // verus!
