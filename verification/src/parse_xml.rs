//! The cross-document resolution pipeline over parsed XML documents:
//! extracting two-cell drawing anchors (in either namespace dialect),
//! reading the workbook manifest, building relationship maps, and joining
//! anchors with relationship targets into the final cell-to-image index.

use vstd::prelude::*;
use vstd::string::*;

use crate::errors::IoError;
use crate::strutil::basename_spec;
use crate::strutil::basename_of;
use crate::strutil::ends_with_spec;
use crate::strutil::ext_spec;
use crate::strutil::ext_lower;
use crate::strutil::join_path;
use crate::strutil::join_spec;
use crate::strutil::lower_seq;
use crate::strutil::parse_i64_spec;
use crate::strutil::parse_i64;
use crate::strutil::str_ends_with;
use crate::strutil::str_eq;
use crate::xml::attr_first;
use crate::xml::attr_first_x;
use crate::xml::convert_node_text_to_i64;
use crate::xml::find_attr_value;
use crate::xml::find_attr_value_from;
use crate::xml::find_tag_from;
use crate::xml::find_tag_in;
use crate::xml::get_namespace_str;
use crate::xml::node_text_i64;
use crate::xml::ns_decls_of;
use crate::xml::ns_lookup;
use crate::xml::nodes_of;
use crate::xml::parse_xml_doc;
use crate::xml::subtree_end;
use crate::xml::subtree_end_at;
use crate::xml::tag_matches;
use crate::xml::tag_matches_x;
use crate::xml::NamedDoc;
use crate::xml::NamedDocV;
use crate::xml::NsDeclV;
use crate::xml::XmlDoc;
use crate::xml::XmlNode;
use crate::xml::XmlNodeV;

verus! {

// ---------------------------------------------------------------------------
// The fixed, well-known namespace URIs of the format
// ---------------------------------------------------------------------------

/// The relationships namespace qualifying the `embed` attribute.
pub open spec fn ns_r_uri() -> Seq<char> {
    "http://schemas.openxmlformats.org/officeDocument/2006/relationships"@
}

/// The drawing-markup namespace the `a` alias defaults to in bare-tag mode.
pub open spec fn ns_a_default_uri() -> Seq<char> {
    "http://schemas.openxmlformats.org/drawingml/2006/main"@
}

/// The namespace of package-relationships documents.
pub open spec fn pkg_rels_uri() -> Seq<char> {
    "http://schemas.openxmlformats.org/package/2006/relationships"@
}

/// The relationship type URI marking a worksheet's drawing.
pub open spec fn drawing_type_uri() -> Seq<char> {
    "http://schemas.openxmlformats.org/officeDocument/2006/relationships/drawing"@
}

// ---------------------------------------------------------------------------
// Anchor records
// ---------------------------------------------------------------------------

/// One two-cell drawing anchor: its originating cell, 1-based, and the
/// relationship id of the image it embeds. A missing step in the anchor's
/// chains leaves the field unset; such a record is dropped at the join,
/// never an error, since an anchor may hold a shape rather than a picture.
pub struct CellImgId {
    pub col: Option<i64>,
    pub row: Option<i64>,
    pub r_id: Option<String>,
}

pub ghost struct CellImgIdV {
    pub col: Option<i64>,
    pub row: Option<i64>,
    pub r_id: Option<Seq<char>>,
}

impl DeepView for CellImgId {
    type V = CellImgIdV;

    open spec fn deep_view(&self) -> CellImgIdV {
        CellImgIdV { col: self.col, row: self.row, r_id: self.r_id.deep_view() }
    }
}

/// The 1-based coordinate for a raw 0-based one; unset when the raw text
/// is absent or malformed, or when adding one would overflow.
pub open spec fn plus_one_opt(v: Option<i64>) -> Option<i64> {
    match v {
        None => None,
        Some(n) => if n < i64::MAX {
            Some((n + 1) as i64)
        } else {
            None
        },
    }
}

fn plus_one(v: Option<i64>) -> (r: Option<i64>)
    ensures
        r == plus_one_opt(v),
{
    match v {
        None => None,
        Some(n) => if n < i64::MAX {
            Some(n + 1)
        } else {
            None
        },
    }
}

/// The record of the anchor rooted at position `i`: `from`/`col` and
/// `from`/`row` children give the cell (stored 1-based), and the
/// `pic`/`blipFill`/`blip` chain's `embed` attribute, qualified by the
/// relationships namespace, gives the relationship id. Tag lookups go
/// through `tag_ns` (`None` is the bare-tag dialect), except `blip`,
/// which always carries the drawing-markup namespace `a_ns`.
pub open spec fn anchor_record_at(
    nodes: Seq<XmlNodeV>,
    i: int,
    tag_ns: Option<Seq<char>>,
    a_ns: Seq<char>,
) -> CellImgIdV {
    let hi = subtree_end(nodes, i);
    let col = match find_tag_in(nodes, i, hi, tag_ns, "from"@) {
        None => None,
        Some(f) => match find_tag_in(nodes, f, subtree_end(nodes, f), tag_ns, "col"@) {
            None => None,
            Some(ci) => plus_one_opt(node_text_i64(nodes[ci])),
        },
    };
    let row = match find_tag_in(nodes, i, hi, tag_ns, "from"@) {
        None => None,
        Some(f) => match find_tag_in(nodes, f, subtree_end(nodes, f), tag_ns, "row"@) {
            None => None,
            Some(ri) => plus_one_opt(node_text_i64(nodes[ri])),
        },
    };
    let r_id = match find_tag_in(nodes, i, hi, tag_ns, "pic"@) {
        None => None,
        Some(p) => match find_tag_in(nodes, p, subtree_end(nodes, p), tag_ns, "blipFill"@) {
            None => None,
            Some(bf) => match find_tag_in(
                nodes,
                bf,
                subtree_end(nodes, bf),
                Some(a_ns),
                "blip"@,
            ) {
                None => None,
                Some(b) => find_attr_value(
                    nodes,
                    b,
                    subtree_end(nodes, b),
                    Some(ns_r_uri()),
                    "embed"@,
                ),
            },
        },
    };
    CellImgIdV { col, row, r_id }
}

/// The records of all anchors at positions `j ..`, in document order.
pub open spec fn anchors_from(
    nodes: Seq<XmlNodeV>,
    j: int,
    tag_ns: Option<Seq<char>>,
    a_ns: Seq<char>,
) -> Seq<CellImgIdV>
    decreases nodes.len() - j,
{
    if j < 0 || j >= nodes.len() {
        Seq::empty()
    } else {
        let rest = anchors_from(nodes, j + 1, tag_ns, a_ns);
        if tag_matches(nodes[j], tag_ns, "twoCellAnchor"@) {
            seq![anchor_record_at(nodes, j, tag_ns, a_ns)] + rest
        } else {
            rest
        }
    }
}

fn extract_anchor_record(nodes: &Vec<XmlNode>, i: usize, tag_ns: Option<&str>, a_ns: &str) -> (r:
    CellImgId)
    requires
        i < nodes@.len(),
    ensures
        r.deep_view() == anchor_record_at(nodes.deep_view(), i as int, tag_ns.deep_view(), a_ns@),
{
    let ghost nv = nodes.deep_view();
    let hi: usize = subtree_end_at(nodes, i);
    let mut col: Option<i64> = None;
    let mut row: Option<i64> = None;
    if let Some(f) = find_tag_from(nodes, i, hi, tag_ns, "from") {
        let fhi: usize = subtree_end_at(nodes, f);
        if let Some(ci) = find_tag_from(nodes, f, fhi, tag_ns, "col") {
            proof {
                assert(nv[ci as int] == nodes@[ci as int].deep_view());
            }
            col = plus_one(convert_node_text_to_i64(&nodes[ci]));
        }
        if let Some(ri) = find_tag_from(nodes, f, fhi, tag_ns, "row") {
            proof {
                assert(nv[ri as int] == nodes@[ri as int].deep_view());
            }
            row = plus_one(convert_node_text_to_i64(&nodes[ri]));
        }
    }
    let mut r_id: Option<String> = None;
    if let Some(p) = find_tag_from(nodes, i, hi, tag_ns, "pic") {
        let phi: usize = subtree_end_at(nodes, p);
        if let Some(bf) = find_tag_from(nodes, p, phi, tag_ns, "blipFill") {
            let bfhi: usize = subtree_end_at(nodes, bf);
            if let Some(b) = find_tag_from(nodes, bf, bfhi, Some(a_ns), "blip") {
                let bhi: usize = subtree_end_at(nodes, b);
                r_id = find_attr_value_from(
                    nodes,
                    b,
                    bhi,
                    Some("http://schemas.openxmlformats.org/officeDocument/2006/relationships"),
                    "embed",
                );
            }
        }
    }
    CellImgId { col, row, r_id }
}

/// The records of every two-cell anchor of the document, in document
/// order, under the given dialect.
fn collect_anchors(nodes: &Vec<XmlNode>, tag_ns: Option<&str>, a_ns: &str) -> (r: Vec<CellImgId>)
    ensures
        r.deep_view() == anchors_from(nodes.deep_view(), 0, tag_ns.deep_view(), a_ns@),
{
    let ghost nv = nodes.deep_view();
    let ghost tnv = tag_ns.deep_view();
    let n: usize = nodes.len();
    let mut out: Vec<CellImgId> = Vec::new();
    let mut j: usize = 0;
    proof {
        assert(out.deep_view() =~= Seq::<CellImgIdV>::empty());
    }
    while j < n
        invariant
            0 <= j <= n,
            n == nodes@.len(),
            nv == nodes.deep_view(),
            tnv == tag_ns.deep_view(),
            out.deep_view() + anchors_from(nv, j as int, tnv, a_ns@) == anchors_from(
                nv,
                0,
                tnv,
                a_ns@,
            ),
        decreases n - j,
    {
        proof {
            assert(nv[j as int] == nodes@[j as int].deep_view());
        }
        let ghost pre = out.deep_view();
        if tag_matches_x(&nodes[j], tag_ns, "twoCellAnchor") {
            let rec: CellImgId = extract_anchor_record(nodes, j, tag_ns, a_ns);
            proof {
                assert(anchors_from(nv, j as int, tnv, a_ns@) == seq![
                    anchor_record_at(nv, j as int, tnv, a_ns@),
                ] + anchors_from(nv, j as int + 1, tnv, a_ns@));
            }
            out.push(rec);
            proof {
                assert(out.deep_view() =~= pre.push(rec.deep_view()));
                assert(pre.push(rec.deep_view()) + anchors_from(nv, j as int + 1, tnv, a_ns@) =~= pre
                    + (seq![rec.deep_view()] + anchors_from(nv, j as int + 1, tnv, a_ns@)));
            }
        }
        j = j + 1;
    }
    proof {
        assert(anchors_from(nv, n as int, tnv, a_ns@) =~= Seq::<CellImgIdV>::empty());
        assert(out.deep_view() + Seq::<CellImgIdV>::empty() =~= out.deep_view());
    }
    out
}

// ---------------------------------------------------------------------------
// The two dialects, and dialect detection
// ---------------------------------------------------------------------------

/// Whether the document announces the namespace-qualified dialect: both
/// the `xdr` and the `a` aliases resolve on the root element.
pub open spec fn qualified_mode(decls: Seq<NsDeclV>) -> bool {
    ns_lookup(decls, "xdr"@) is Some && ns_lookup(decls, "a"@) is Some
}

/// Anchor records under the namespace-qualified dialect; empty when the
/// aliases do not resolve.
pub open spec fn drawing_anchors_qualified(decls: Seq<NsDeclV>, nodes: Seq<XmlNodeV>) -> Seq<
    CellImgIdV,
> {
    match (ns_lookup(decls, "xdr"@), ns_lookup(decls, "a"@)) {
        (Some(xdr), Some(a)) => anchors_from(nodes, 0, Some(xdr), a),
        _ => Seq::empty(),
    }
}

/// The `a` alias's URI, defaulting to the well-known drawing-markup
/// namespace when unresolved.
pub open spec fn a_ns_or_default(decls: Seq<NsDeclV>) -> Seq<char> {
    match ns_lookup(decls, "a"@) {
        Some(u) => u,
        None => ns_a_default_uri(),
    }
}

/// Anchor records under the bare-tag dialect: tag lookups match local
/// names only; the `blip` lookup still uses the `a` namespace and the
/// `embed` lookup the fixed relationships namespace.
pub open spec fn drawing_anchors_bare(decls: Seq<NsDeclV>, nodes: Seq<XmlNodeV>) -> Seq<
    CellImgIdV,
> {
    anchors_from(nodes, 0, None, a_ns_or_default(decls))
}

/// Anchor records under the dialect the document announces.
pub open spec fn drawing_anchors(decls: Seq<NsDeclV>, nodes: Seq<XmlNodeV>) -> Seq<CellImgIdV> {
    if qualified_mode(decls) {
        drawing_anchors_qualified(decls, nodes)
    } else {
        drawing_anchors_bare(decls, nodes)
    }
}

/// Extracts anchor records in the namespace-qualified dialect; a document
/// whose `xdr` or `a` alias does not resolve yields no records. `None`
/// reports malformed XML, which the caller must treat as fatal.
pub fn get_col_row_r_id(text: &str) -> (r: Option<Vec<CellImgId>>)
    ensures
        r is Some <==> nodes_of(text@) is Some,
        r matches Some(v) ==> match (ns_decls_of(text@), nodes_of(text@)) {
            (Some(decls), Some(nodes)) => v.deep_view() == drawing_anchors_qualified(decls, nodes),
            _ => false,
        },
{
    match parse_xml_doc(text) {
        None => None,
        Some(doc) => {
            let ns_xdr: Option<String> = get_namespace_str(&doc.ns_decls, "xdr");
            let ns_a: Option<String> = get_namespace_str(&doc.ns_decls, "a");
            match (ns_xdr, ns_a) {
                (Some(x), Some(a)) => Some(
                    collect_anchors(&doc.nodes, Some(x.as_str()), a.as_str()),
                ),
                _ => Some(Vec::new()),
            }
        },
    }
}

/// Extracts anchor records in the bare-tag dialect, the `a` alias
/// defaulting to the well-known drawing-markup namespace. `None` reports
/// malformed XML.
pub fn get_col_row_r_id_sans_xdr(text: &str) -> (r: Option<Vec<CellImgId>>)
    ensures
        r is Some <==> nodes_of(text@) is Some,
        r matches Some(v) ==> match (ns_decls_of(text@), nodes_of(text@)) {
            (Some(decls), Some(nodes)) => v.deep_view() == drawing_anchors_bare(decls, nodes),
            _ => false,
        },
{
    match parse_xml_doc(text) {
        None => None,
        Some(doc) => {
            let ns_a: Option<String> = get_namespace_str(&doc.ns_decls, "a");
            match ns_a {
                Some(a) => Some(collect_anchors(&doc.nodes, None, a.as_str())),
                None => Some(
                    collect_anchors(
                        &doc.nodes,
                        None,
                        "http://schemas.openxmlformats.org/drawingml/2006/main",
                    ),
                ),
            }
        },
    }
}

/// Extracts anchor records under the dialect the document announces:
/// namespace-qualified when both the `xdr` and `a` aliases resolve,
/// bare-tag otherwise. `None` reports malformed XML.
pub fn extract_drawing_anchors(text: &str) -> (r: Option<Vec<CellImgId>>)
    ensures
        r is Some <==> nodes_of(text@) is Some,
        r matches Some(v) ==> match (ns_decls_of(text@), nodes_of(text@)) {
            (Some(decls), Some(nodes)) => v.deep_view() == drawing_anchors(decls, nodes),
            _ => false,
        },
{
    match parse_xml_doc(text) {
        None => None,
        Some(doc) => {
            let ns_xdr: Option<String> = get_namespace_str(&doc.ns_decls, "xdr");
            let ns_a: Option<String> = get_namespace_str(&doc.ns_decls, "a");
            match (ns_xdr, ns_a) {
                (Some(x), Some(a)) => Some(
                    collect_anchors(&doc.nodes, Some(x.as_str()), a.as_str()),
                ),
                (_, Some(a)) => Some(collect_anchors(&doc.nodes, None, a.as_str())),
                (_, None) => Some(
                    collect_anchors(
                        &doc.nodes,
                        None,
                        "http://schemas.openxmlformats.org/drawingml/2006/main",
                    ),
                ),
            }
        },
    }
}

// ---------------------------------------------------------------------------
// The workbook manifest
// ---------------------------------------------------------------------------

/// The `(sheetId, name)` pairs of every `sheet` element at positions
/// `j ..`, in document order; `None` when a `sheet` element misses either
/// attribute or its id is not an integer — a structural corruption.
pub open spec fn sheet_entries(nodes: Seq<XmlNodeV>, j: int) -> Option<Seq<(i64, Seq<char>)>>
    decreases nodes.len() - j,
{
    if j < 0 || j >= nodes.len() {
        Some(Seq::empty())
    } else {
        let rest = sheet_entries(nodes, j + 1);
        if tag_matches(nodes[j], None, "sheet"@) {
            match (attr_first(nodes[j].attrs, None, "name"@), attr_first(
                nodes[j].attrs,
                None,
                "sheetId"@,
            )) {
                (Some(nm), Some(sid)) => match parse_i64_spec(sid) {
                    Some(id) => match rest {
                        Some(rs) => Some(seq![(id, nm)] + rs),
                        None => None,
                    },
                    None => None,
                },
                _ => None,
            }
        } else {
            rest
        }
    }
}

/// Worksheet ids and names declared by the manifest document, in document
/// order. Unreadable or unparsable manifests, and `sheet` entries missing
/// a required attribute or with a non-integer id, are fatal.
pub fn get_worksheet_name_id_map(text: &str) -> (r: Result<Vec<(i64, String)>, IoError>)
    ensures
        r is Ok <==> (nodes_of(text@) matches Some(nodes) && sheet_entries(nodes, 0) is Some),
        r matches Ok(v) ==> match nodes_of(text@) {
            Some(nodes) => Some(v.deep_view()) == sheet_entries(nodes, 0),
            None => false,
        },
        r matches Err(e) ==> e matches IoError::ManifestError { .. },
{
    let doc: XmlDoc = match parse_xml_doc(text) {
        None => {
            return Err(
                IoError::ManifestError { msg: "workbook manifest is not well-formed XML".to_owned() },
            );
        },
        Some(d) => d,
    };
    let nodes: &Vec<XmlNode> = &doc.nodes;
    let ghost nv = nodes.deep_view();
    let n: usize = nodes.len();
    let mut out: Vec<(i64, String)> = Vec::new();
    let mut j: usize = 0;
    proof {
        assert(out.deep_view() =~= Seq::<(i64, Seq<char>)>::empty());
    }
    while j < n
        invariant
            0 <= j <= n,
            n == nodes@.len(),
            nv == nodes.deep_view(),
            Some(nv) == nodes_of(text@),
            sheet_entries(nv, 0) == match sheet_entries(nv, j as int) {
                Some(rs) => Some(out.deep_view() + rs),
                None => None::<Seq<(i64, Seq<char>)>>,
            },
        decreases n - j,
    {
        proof {
            assert(nv[j as int] == nodes@[j as int].deep_view());
        }
        let ghost pre = out.deep_view();
        if tag_matches_x(&nodes[j], None, "sheet") {
            let nm: Option<String> = attr_first_x(&nodes[j].attrs, None, "name");
            let sid: Option<String> = attr_first_x(&nodes[j].attrs, None, "sheetId");
            match (nm, sid) {
                (Some(nm), Some(sid)) => {
                    match parse_i64(sid.as_str()) {
                        Some(id) => {
                            let ghost nmv = nm@;
                            out.push((id, nm));
                            proof {
                                assert(out.deep_view() =~= pre.push((id, nmv)));
                                match sheet_entries(nv, j as int + 1) {
                                    Some(rs) => {
                                        assert(pre.push((id, nmv)) + rs =~= pre + (seq![(id, nmv)]
                                            + rs));
                                    },
                                    None => {},
                                }
                            }
                        },
                        None => {
                            return Err(
                                IoError::ManifestError {
                                    msg: "sheet entry has a non-integer sheetId".to_owned(),
                                },
                            );
                        },
                    }
                },
                _ => {
                    return Err(
                        IoError::ManifestError {
                            msg: "sheet entry is missing its name or sheetId".to_owned(),
                        },
                    );
                },
            }
        }
        j = j + 1;
    }
    proof {
        assert(sheet_entries(nv, n as int) == Some(Seq::<(i64, Seq<char>)>::empty()));
        assert(out.deep_view() + Seq::<(i64, Seq<char>)>::empty() =~= out.deep_view());
    }
    Ok(out)
}

// ---------------------------------------------------------------------------
// Relationship maps
// ---------------------------------------------------------------------------

/// The `(Id, Target)` pairs of every `Relationship` element, in document
/// order, at positions `j ..`; elements missing either attribute carry no
/// entry.
pub open spec fn rel_entries(nodes: Seq<XmlNodeV>, j: int) -> Seq<(Seq<char>, Seq<char>)>
    decreases nodes.len() - j,
{
    if j < 0 || j >= nodes.len() {
        Seq::empty()
    } else {
        let rest = rel_entries(nodes, j + 1);
        if tag_matches(nodes[j], Some(pkg_rels_uri()), "Relationship"@) {
            match (attr_first(nodes[j].attrs, None, "Id"@), attr_first(
                nodes[j].attrs,
                None,
                "Target"@,
            )) {
                (Some(id), Some(t)) => seq![(id, t)] + rest,
                _ => rest,
            }
        } else {
            rest
        }
    }
}

/// The id-to-target map a drawing-relationships document yields: empty
/// when the file is absent or its XML malformed — a worksheet without
/// images, not an error.
pub open spec fn rid_map_spec(content: Option<Seq<char>>) -> Seq<(Seq<char>, Seq<char>)> {
    match content {
        None => Seq::empty(),
        Some(t) => match nodes_of(t) {
            None => Seq::empty(),
            Some(nodes) => rel_entries(nodes, 0),
        },
    }
}

/// Builds the relationship-id to image-target map of one
/// drawing-relationships document. A missing or unparsable document
/// yields the empty map: worksheets legitimately have no drawings.
pub fn get_rid_img_dict(content: Option<&str>) -> (r: Vec<(String, String)>)
    ensures
        r.deep_view() == rid_map_spec(content.deep_view()),
{
    let text: &str = match content {
        None => {
            let empty: Vec<(String, String)> = Vec::new();
            proof {
                assert(empty.deep_view() =~= Seq::<(Seq<char>, Seq<char>)>::empty());
            }
            return empty;
        },
        Some(t) => t,
    };
    let doc: XmlDoc = match parse_xml_doc(text) {
        None => {
            let empty: Vec<(String, String)> = Vec::new();
            proof {
                assert(empty.deep_view() =~= Seq::<(Seq<char>, Seq<char>)>::empty());
            }
            return empty;
        },
        Some(d) => d,
    };
    let nodes: &Vec<XmlNode> = &doc.nodes;
    let ghost nv = nodes.deep_view();
    let n: usize = nodes.len();
    let mut out: Vec<(String, String)> = Vec::new();
    let mut j: usize = 0;
    proof {
        assert(out.deep_view() =~= Seq::<(Seq<char>, Seq<char>)>::empty());
    }
    while j < n
        invariant
            0 <= j <= n,
            n == nodes@.len(),
            nv == nodes.deep_view(),
            out.deep_view() + rel_entries(nv, j as int) == rel_entries(nv, 0),
        decreases n - j,
    {
        proof {
            assert(nv[j as int] == nodes@[j as int].deep_view());
        }
        let ghost pre = out.deep_view();
        if tag_matches_x(
            &nodes[j],
            Some("http://schemas.openxmlformats.org/package/2006/relationships"),
            "Relationship",
        ) {
            let id: Option<String> = attr_first_x(&nodes[j].attrs, None, "Id");
            let tgt: Option<String> = attr_first_x(&nodes[j].attrs, None, "Target");
            if let (Some(id), Some(tgt)) = (id, tgt) {
                let ghost idv = id@;
                let ghost tgtv = tgt@;
                proof {
                    assert(rel_entries(nv, j as int) == seq![(idv, tgtv)] + rel_entries(
                        nv,
                        j as int + 1,
                    ));
                }
                out.push((id, tgt));
                proof {
                    assert(out.deep_view() =~= pre.push((idv, tgtv)));
                    assert(pre.push((idv, tgtv)) + rel_entries(nv, j as int + 1) =~= pre + (seq![
                        (idv, tgtv),
                    ] + rel_entries(nv, j as int + 1)));
                }
            }
        }
        j = j + 1;
    }
    proof {
        assert(rel_entries(nv, n as int) =~= Seq::<(Seq<char>, Seq<char>)>::empty());
        assert(out.deep_view() + Seq::<(Seq<char>, Seq<char>)>::empty() =~= out.deep_view());
    }
    out
}

/// Target of the first entry with the given id; relationship ids are
/// unique within one relationship file.
pub open spec fn rel_lookup(rels: Seq<(Seq<char>, Seq<char>)>, id: Seq<char>) -> Option<Seq<char>>
    decreases rels.len(),
{
    if rels.len() == 0 {
        None
    } else if rels[0].0 == id {
        Some(rels[0].1)
    } else {
        rel_lookup(rels.drop_first(), id)
    }
}

/// Looks an id up in a relationship map; absence means a dangling
/// reference, tolerated by the caller.
pub fn rel_lookup_x(rels: &Vec<(String, String)>, id: &str) -> (r: Option<String>)
    ensures
        r.deep_view() == rel_lookup(rels.deep_view(), id@),
{
    let ghost rv = rels.deep_view();
    let n: usize = rels.len();
    let mut i: usize = 0;
    proof {
        assert(rv.skip(0) =~= rv);
    }
    while i < n
        invariant
            0 <= i <= n,
            n == rels@.len(),
            rv == rels.deep_view(),
            rel_lookup(rv, id@) == rel_lookup(rv.skip(i as int), id@),
        decreases n - i,
    {
        proof {
            assert(rv.skip(i as int)[0] == rv[i as int]);
            assert(rv[i as int] == rels@[i as int].deep_view());
            assert(rv.skip(i as int).drop_first() =~= rv.skip(i as int + 1));
        }
        if str_eq(rels[i].0.as_str(), id) {
            return Some(rels[i].1.clone());
        }
        i = i + 1;
    }
    proof {
        assert(rv.skip(n as int) =~= Seq::<(Seq<char>, Seq<char>)>::empty());
    }
    None
}

// ---------------------------------------------------------------------------
// Worksheet-to-drawing discovery
// ---------------------------------------------------------------------------

/// Target of the first `Relationship` element at positions `j ..` whose
/// `Type` ends in the drawing relationship type URI and that carries a
/// `Target` attribute.
pub open spec fn drawing_target(nodes: Seq<XmlNodeV>, j: int) -> Option<Seq<char>>
    decreases nodes.len() - j,
{
    if j < 0 || j >= nodes.len() {
        None
    } else {
        if tag_matches(nodes[j], Some(pkg_rels_uri()), "Relationship"@) && (match attr_first(
            nodes[j].attrs,
            None,
            "Type"@,
        ) {
            Some(t) => ends_with_spec(t, drawing_type_uri()),
            None => false,
        }) && attr_first(nodes[j].attrs, None, "Target"@) is Some {
            attr_first(nodes[j].attrs, None, "Target"@)
        } else {
            drawing_target(nodes, j + 1)
        }
    }
}

fn find_drawing_target(nodes: &Vec<XmlNode>) -> (r: Option<String>)
    ensures
        r.deep_view() == drawing_target(nodes.deep_view(), 0),
{
    let ghost nv = nodes.deep_view();
    let n: usize = nodes.len();
    let mut j: usize = 0;
    while j < n
        invariant
            0 <= j <= n,
            n == nodes@.len(),
            nv == nodes.deep_view(),
            drawing_target(nv, 0) == drawing_target(nv, j as int),
        decreases n - j,
    {
        proof {
            assert(nv[j as int] == nodes@[j as int].deep_view());
        }
        if tag_matches_x(
            &nodes[j],
            Some("http://schemas.openxmlformats.org/package/2006/relationships"),
            "Relationship",
        ) {
            let ty: Option<String> = attr_first_x(&nodes[j].attrs, None, "Type");
            let ty_ok: bool = match &ty {
                Some(t) => str_ends_with(
                    t.as_str(),
                    "http://schemas.openxmlformats.org/officeDocument/2006/relationships/drawing",
                ),
                None => false,
            };
            if ty_ok {
                let tgt: Option<String> = attr_first_x(&nodes[j].attrs, None, "Target");
                if tgt.is_some() {
                    return tgt;
                }
            }
        }
        j = j + 1;
    }
    None
}

/// The map entry one worksheet-relationships file contributes: its name
/// keyed to the absolute drawing-document path. Only `.rels` files count;
/// an unreadable or unparsable file, or one with no drawing relationship,
/// contributes nothing. The drawing path is the target's final path
/// component joined onto the drawings directory: the target's own
/// directory part is recomputed, not trusted.
pub open spec fn sheet_drawing_entry(f: NamedDocV, drawing_dir: Seq<char>) -> Option<
    (Seq<char>, Seq<char>),
> {
    if lower_seq(ext_spec(f.name)) == "rels"@ {
        match f.content {
            None => None,
            Some(t) => match nodes_of(t) {
                None => None,
                Some(nodes) => match drawing_target(nodes, 0) {
                    None => None,
                    Some(tgt) => Some((f.name, join_spec(drawing_dir, basename_spec(tgt)))),
                },
            },
        }
    } else {
        None
    }
}

/// The entries of all worksheet-relationships files, in input order.
pub open spec fn sheet_drawing_map(files: Seq<NamedDocV>, drawing_dir: Seq<char>) -> Seq<
    (Seq<char>, Seq<char>),
>
    decreases files.len(),
{
    if files.len() == 0 {
        Seq::empty()
    } else {
        let front = sheet_drawing_map(files.drop_last(), drawing_dir);
        match sheet_drawing_entry(files.last(), drawing_dir) {
            Some(e) => front.push(e),
            None => front,
        }
    }
}

/// Scans the worksheet-relationships files for drawing relationships,
/// mapping each file's name to the absolute path of its drawing document.
/// Files that cannot be read or parsed are skipped, not fatal.
pub fn get_sheet_and_drawing_xml_map(rels_files: &Vec<NamedDoc>, drawing_dir: &str) -> (r: Vec<
    (String, String),
>)
    ensures
        r.deep_view() == sheet_drawing_map(rels_files.deep_view(), drawing_dir@),
{
    let ghost fv = rels_files.deep_view();
    let n: usize = rels_files.len();
    let mut out: Vec<(String, String)> = Vec::new();
    let mut i: usize = 0;
    proof {
        assert(fv.take(0) =~= Seq::<NamedDocV>::empty());
        assert(out.deep_view() =~= Seq::<(Seq<char>, Seq<char>)>::empty());
    }
    while i < n
        invariant
            0 <= i <= n,
            n == rels_files@.len(),
            fv == rels_files.deep_view(),
            out.deep_view() == sheet_drawing_map(fv.take(i as int), drawing_dir@),
        decreases n - i,
    {
        proof {
            assert(fv[i as int] == rels_files@[i as int].deep_view());
            assert(fv.take(i as int + 1).drop_last() =~= fv.take(i as int));
            assert(fv.take(i as int + 1).last() == fv[i as int]);
        }
        let ghost pre = out.deep_view();
        let name: &String = &rels_files[i].name;
        let ext: String = ext_lower(name.as_str());
        if str_eq(ext.as_str(), "rels") {
            if let Some(t) = &rels_files[i].content {
                if let Some(doc) = parse_xml_doc(t.as_str()) {
                    if let Some(tgt) = find_drawing_target(&doc.nodes) {
                        let path: String = join_path(drawing_dir, basename_of(tgt.as_str()));
                        let ghost namev = name@;
                        let ghost pathv = path@;
                        out.push((name.clone(), path));
                        proof {
                            assert(out.deep_view() =~= pre.push((namev, pathv)));
                        }
                    }
                }
            }
        }
        i = i + 1;
    }
    proof {
        assert(fv.take(n as int) =~= fv);
    }
    out
}

// ---------------------------------------------------------------------------
// Resolving image paths on disk
// ---------------------------------------------------------------------------

/// Relies on `std::path::Path::exists`: whether something is present on
/// disk at the path. The outcome depends on the filesystem at the moment
/// of the call, so nothing further is promised of it.
#[verifier::external_body]
pub(crate) fn path_exists(p: &str) -> bool {
    std::path::Path::new(p).exists()
}

/// Resolves one image target against the media directory: the target's
/// final path component joined onto it. The join is lexical — the media
/// directory handed in by the stager is already absolute, and symlinks
/// are not resolved. The policy for a referenced file that is absent from
/// the media directory, applied uniformly at this join: a fatal,
/// diagnosable error naming the missing path.
pub fn compute_abs_img_path(relative_img_path: &str, media_dir: &str) -> (r: Result<
    String,
    IoError,
>)
    ensures
        r matches Ok(p) ==> p@ == join_spec(media_dir@, basename_spec(relative_img_path@)),
        r matches Err(e) ==> e matches IoError::MissingImage { path } && path@ == join_spec(
            media_dir@,
            basename_spec(relative_img_path@),
        ),
{
    let joined: String = join_path(media_dir, basename_of(relative_img_path));
    if path_exists(joined.as_str()) {
        Ok(joined)
    } else {
        Err(IoError::MissingImage { path: joined })
    }
}

// ---------------------------------------------------------------------------
// The cell-to-image index
// ---------------------------------------------------------------------------

/// The ordered image paths of one anchor cell. Keys are unique within an
/// index; the paths keep the document order of the anchors that put them
/// there, and a cell anchoring several images keeps them all.
pub struct CellEntry {
    pub col: i64,
    pub row: i64,
    pub paths: Vec<String>,
}

pub ghost struct CellEntryV {
    pub col: i64,
    pub row: i64,
    pub paths: Seq<Seq<char>>,
}

impl DeepView for CellEntry {
    type V = CellEntryV;

    open spec fn deep_view(&self) -> CellEntryV {
        CellEntryV { col: self.col, row: self.row, paths: self.paths.deep_view() }
    }
}

/// Mapping from an anchor cell to the ordered list of absolute image
/// paths anchored there, keys in first-appearance order.
pub struct CellImageIndex {
    pub entries: Vec<CellEntry>,
}

impl DeepView for CellImageIndex {
    type V = Seq<CellEntryV>;

    open spec fn deep_view(&self) -> Seq<CellEntryV> {
        self.entries.deep_view()
    }
}

pub open spec fn cell_at(e: CellEntryV, c: i64, r: i64) -> bool {
    e.col == c && e.row == r
}

/// Position of the entry keyed by `(c, r)`, first match winning; the
/// index keeps keys unique, so at most one exists.
pub open spec fn find_cell(idx: Seq<CellEntryV>, c: i64, r: i64) -> Option<int>
    decreases idx.len(),
{
    if idx.len() == 0 {
        None
    } else if cell_at(idx[0], c, r) {
        Some(0)
    } else {
        match find_cell(idx.drop_first(), c, r) {
            Some(k) => Some(k + 1),
            None => None,
        }
    }
}

pub proof fn lemma_find_cell_props(idx: Seq<CellEntryV>, c: i64, r: i64)
    ensures
        match find_cell(idx, c, r) {
            Some(k) => 0 <= k < idx.len() && cell_at(idx[k], c, r) && (forall|j: int|
                0 <= j < k ==> !cell_at(#[trigger] idx[j], c, r)),
            None => forall|j: int| 0 <= j < idx.len() ==> !cell_at(#[trigger] idx[j], c, r),
        },
    decreases idx.len(),
{
    if idx.len() > 0 && !cell_at(idx[0], c, r) {
        lemma_find_cell_props(idx.drop_first(), c, r);
        assert forall|j: int| 1 <= j < idx.len() implies idx.drop_first()[j - 1] == idx[j] by {}
    }
}

/// The index after appending one path at its cell: onto the existing
/// entry when the key is present, as a fresh last entry otherwise.
pub open spec fn insert_path(idx: Seq<CellEntryV>, c: i64, r: i64, p: Seq<char>) -> Seq<
    CellEntryV,
> {
    match find_cell(idx, c, r) {
        Some(k) => idx.update(k, CellEntryV { col: c, row: r, paths: idx[k].paths.push(p) }),
        None => idx.push(CellEntryV { col: c, row: r, paths: seq![p] }),
    }
}

fn find_cell_pos(entries: &Vec<CellEntry>, c: i64, r: i64) -> (pos: Option<usize>)
    ensures
        match pos {
            Some(j) => j < entries@.len() && find_cell(entries.deep_view(), c, r) == Some(j as int),
            None => find_cell(entries.deep_view(), c, r) is None,
        },
{
    let ghost dv = entries.deep_view();
    let n: usize = entries.len();
    let mut j: usize = 0;
    while j < n
        invariant
            0 <= j <= n,
            n == entries@.len(),
            dv == entries.deep_view(),
            forall|jj: int| 0 <= jj < j ==> !cell_at(#[trigger] dv[jj], c, r),
        decreases n - j,
    {
        proof {
            assert(dv[j as int] == entries@[j as int].deep_view());
        }
        if entries[j].col == c && entries[j].row == r {
            proof {
                lemma_find_cell_props(dv, c, r);
                match find_cell(dv, c, r) {
                    Some(k) => {
                        if k < j as int {
                            assert(cell_at(dv[k], c, r));
                        }
                        if k > j as int {
                            assert(!cell_at(dv[j as int], c, r));
                        }
                    },
                    None => {
                        assert(cell_at(dv[j as int], c, r));
                    },
                }
            }
            return Some(j);
        }
        j = j + 1;
    }
    proof {
        lemma_find_cell_props(dv, c, r);
    }
    None
}

fn index_insert(idx: &mut CellImageIndex, c: i64, r: i64, p: String)
    ensures
        final(idx).deep_view() == insert_path(old(idx).deep_view(), c, r, p@),
{
    let ghost dv = idx.deep_view();
    let ghost pv = p@;
    match find_cell_pos(&idx.entries, c, r) {
        Some(j) => {
            proof {
                lemma_find_cell_props(dv, c, r);
            }
            let ghost entries0 = idx.entries@;
            let e: CellEntry = idx.entries.remove(j);
            let mut paths: Vec<String> = e.paths;
            let ghost pathsv = paths.deep_view();
            paths.push(p);
            proof {
                assert(paths.deep_view() =~= pathsv.push(pv));
            }
            let col: i64 = e.col;
            let row: i64 = e.row;
            idx.entries.insert(j, CellEntry { col, row, paths });
            proof {
                let newv = CellEntryV { col: c, row: r, paths: dv[j as int].paths.push(pv) };
                let newdv = dv.update(j as int, newv);
                assert(idx.entries@ =~= entries0.update(j as int, idx.entries@[j as int]));
                assert(idx.entries@[j as int].deep_view() == newv);
                assert forall|m: int| 0 <= m < newdv.len() implies idx.entries.deep_view()[m]
                    == newdv[m] by {
                    assert(idx.entries.deep_view()[m] == idx.entries@[m].deep_view());
                    if m != j as int {
                        assert(idx.entries@[m] == entries0[m]);
                        assert(dv[m] == entries0[m].deep_view());
                    }
                }
                assert(idx.deep_view() =~= newdv);
            }
        },
        None => {
            let ghost pre = idx.deep_view();
            idx.entries.push(CellEntry { col: c, row: r, paths: vec![p] });
            proof {
                let last = idx.entries@[idx.entries@.len() - 1].deep_view();
                assert(last.paths =~= seq![pv]);
                assert(idx.deep_view() =~= pre.push(CellEntryV { col: c, row: r, paths: seq![pv] }));
            }
        },
    }
}

fn clone_string_vec(v: &Vec<String>) -> (r: Vec<String>)
    ensures
        r.deep_view() == v.deep_view(),
{
    let n: usize = v.len();
    let mut out: Vec<String> = Vec::new();
    let mut i: usize = 0;
    while i < n
        invariant
            0 <= i <= n,
            n == v@.len(),
            out@.len() == i,
            forall|j: int| 0 <= j < i ==> out@[j] == v@[j],
        decreases n - i,
    {
        out.push(v[i].clone());
        i = i + 1;
    }
    proof {
        assert forall|j: int| 0 <= j < n implies out.deep_view()[j] == v.deep_view()[j] by {
            assert(out@[j] == v@[j]);
        }
        assert(out.deep_view() =~= v.deep_view());
    }
    out
}

impl CellImageIndex {
    /// A structurally equal copy of the index.
    pub fn duplicate(&self) -> (r: CellImageIndex)
        ensures
            r.deep_view() == self.deep_view(),
    {
        let n: usize = self.entries.len();
        let mut entries: Vec<CellEntry> = Vec::new();
        let mut i: usize = 0;
        while i < n
            invariant
                0 <= i <= n,
                n == self.entries@.len(),
                entries@.len() == i,
                forall|j: int| 0 <= j < i ==> #[trigger] entries.deep_view()[j]
                    == self.entries.deep_view()[j],
            decreases n - i,
        {
            let ghost pre = entries.deep_view();
            let col: i64 = self.entries[i].col;
            let row: i64 = self.entries[i].row;
            let paths: Vec<String> = clone_string_vec(&self.entries[i].paths);
            entries.push(CellEntry { col, row, paths });
            proof {
                assert(entries.deep_view()[i as int] == entries@[i as int].deep_view());
                assert(self.entries.deep_view()[i as int] == self.entries@[i as int].deep_view());
                assert(entries.deep_view()[i as int] == self.entries.deep_view()[i as int]);
                assert forall|j: int| 0 <= j < i implies #[trigger] entries.deep_view()[j]
                    == self.entries.deep_view()[j] by {
                    assert(entries.deep_view()[j] == pre[j]);
                }
            }
            i = i + 1;
        }
        let r = CellImageIndex { entries };
        proof {
            assert(r.deep_view() =~= self.deep_view());
        }
        r
    }

    /// The ordered image paths anchored at `(col, row)`, when any are.
    pub fn get(&self, col: i64, row: i64) -> (r: Option<&Vec<String>>)
        ensures
            match find_cell(self.deep_view(), col, row) {
                Some(k) => r matches Some(v) && v.deep_view() == self.deep_view()[k].paths,
                None => r is None,
            },
    {
        match find_cell_pos(&self.entries, col, row) {
            Some(j) => {
                proof {
                    assert(self.deep_view()[j as int] == self.entries@[j as int].deep_view());
                }
                Some(&self.entries[j].paths)
            },
            None => None,
        }
    }
}

// ---------------------------------------------------------------------------
// The join: anchors x relationship map -> cell-to-image index
// ---------------------------------------------------------------------------

/// One anchor joined with the relationship map: present exactly when the
/// anchor has both coordinates and a relationship id, and the id resolves
/// to a target. A record missing a field, or whose id dangles, yields
/// nothing — dropped silently, never an error.
pub ghost struct ResolvedV {
    pub col: i64,
    pub row: i64,
    pub basename: Seq<char>,
}

pub open spec fn resolve_one(rec: CellImgIdV, rels: Seq<(Seq<char>, Seq<char>)>) -> Option<
    ResolvedV,
> {
    match (rec.col, rec.row, rec.r_id) {
        (Some(c), Some(r), Some(id)) => match rel_lookup(rels, id) {
            Some(t) => Some(ResolvedV { col: c, row: r, basename: basename_spec(t) }),
            None => None,
        },
        _ => None,
    }
}

/// The resolvable anchors, in document order, each reduced to its cell
/// and its image's final path component.
pub open spec fn resolved_of(records: Seq<CellImgIdV>, rels: Seq<(Seq<char>, Seq<char>)>) -> Seq<
    ResolvedV,
>
    decreases records.len(),
{
    if records.len() == 0 {
        Seq::empty()
    } else {
        let front = resolved_of(records.drop_last(), rels);
        match resolve_one(records.last(), rels) {
            Some(rc) => front.push(rc),
            None => front,
        }
    }
}

/// The index the resolved anchors build, in order, every path joined
/// onto the media directory.
pub open spec fn index_from(rs: Seq<ResolvedV>, media: Seq<char>) -> Seq<CellEntryV>
    decreases rs.len(),
{
    if rs.len() == 0 {
        Seq::empty()
    } else {
        insert_path(
            index_from(rs.drop_last(), media),
            rs.last().col,
            rs.last().row,
            join_spec(media, rs.last().basename),
        )
    }
}

/// A prefix of the records resolves to a prefix of the resolved anchors.
pub proof fn lemma_resolved_prefix(
    records: Seq<CellImgIdV>,
    rels: Seq<(Seq<char>, Seq<char>)>,
    k: int,
)
    requires
        0 <= k <= records.len(),
    ensures
        resolved_of(records.take(k), rels).len() <= resolved_of(records, rels).len(),
        forall|m: int| 0 <= m < resolved_of(records.take(k), rels).len() ==> resolved_of(
            records.take(k),
            rels,
        )[m] == resolved_of(records, rels)[m],
    decreases records.len() - k,
{
    if k == records.len() {
        assert(records.take(k) =~= records);
    } else {
        lemma_resolved_prefix(records, rels, k + 1);
        assert(records.take(k + 1).drop_last() =~= records.take(k));
    }
}

// ---------------------------------------------------------------------------
// Laws of the join
// ---------------------------------------------------------------------------

proof fn lemma_find_tag_in_bounds(
    nodes: Seq<XmlNodeV>,
    lo: int,
    hi: int,
    ns: Option<Seq<char>>,
    tag: Seq<char>,
)
    ensures
        find_tag_in(nodes, lo, hi, ns, tag) matches Some(k) ==> lo <= k < hi && 0 <= k
            < nodes.len(),
    decreases hi - lo,
{
    if !(lo < 0 || lo >= hi || lo >= nodes.len()) && !tag_matches(nodes[lo], ns, tag) {
        lemma_find_tag_in_bounds(nodes, lo + 1, hi, ns, tag);
    }
}

/// Law: a record whose coordinate texts parse to non-negative numbers is
/// stored 1-based, so every coordinate an anchor contributes is at least
/// one.
pub proof fn lemma_anchor_records_one_based(
    nodes: Seq<XmlNodeV>,
    j: int,
    tag_ns: Option<Seq<char>>,
    a_ns: Seq<char>,
)
    requires
        forall|i: int| 0 <= i < nodes.len() ==> (#[trigger] node_text_i64(nodes[i]) matches Some(x)
            ==> x >= 0),
    ensures
        forall|k: int| 0 <= k < anchors_from(nodes, j, tag_ns, a_ns).len() ==> ((
        #[trigger] anchors_from(nodes, j, tag_ns, a_ns)[k].col matches Some(c) ==> c >= 1)
            && (anchors_from(nodes, j, tag_ns, a_ns)[k].row matches Some(r) ==> r >= 1)),
    decreases nodes.len() - j,
{
    if 0 <= j < nodes.len() {
        lemma_anchor_records_one_based(nodes, j + 1, tag_ns, a_ns);
        if tag_matches(nodes[j], tag_ns, "twoCellAnchor"@) {
            let rec = anchor_record_at(nodes, j, tag_ns, a_ns);
            let hi = subtree_end(nodes, j);
            match find_tag_in(nodes, j, hi, tag_ns, "from"@) {
                None => {},
                Some(f) => {
                    lemma_find_tag_in_bounds(nodes, j, hi, tag_ns, "from"@);
                    let fe = subtree_end(nodes, f);
                    match find_tag_in(nodes, f, fe, tag_ns, "col"@) {
                        None => {},
                        Some(ci) => {
                            lemma_find_tag_in_bounds(nodes, f, fe, tag_ns, "col"@);
                            assert(node_text_i64(nodes[ci]) matches Some(x) ==> x >= 0);
                        },
                    }
                    match find_tag_in(nodes, f, fe, tag_ns, "row"@) {
                        None => {},
                        Some(ri) => {
                            lemma_find_tag_in_bounds(nodes, f, fe, tag_ns, "row"@);
                            assert(node_text_i64(nodes[ri]) matches Some(x) ==> x >= 0);
                        },
                    }
                },
            }
            assert(rec.col matches Some(c) ==> c >= 1);
            assert(rec.row matches Some(r) ==> r >= 1);
            assert(anchors_from(nodes, j, tag_ns, a_ns) == seq![rec] + anchors_from(
                nodes,
                j + 1,
                tag_ns,
                a_ns,
            ));
        }
    }
}

/// Law: every cell key of an index built from records whose coordinates
/// are at least one is itself at least one.
pub proof fn lemma_index_keys_one_based(
    records: Seq<CellImgIdV>,
    rels: Seq<(Seq<char>, Seq<char>)>,
    media: Seq<char>,
)
    requires
        forall|i: int| 0 <= i < records.len() ==> ((#[trigger] records[i].col matches Some(c) ==> c
            >= 1) && (records[i].row matches Some(r) ==> r >= 1)),
    ensures
        forall|j: int| 0 <= j < index_from(resolved_of(records, rels), media).len() ==> (
        #[trigger] index_from(resolved_of(records, rels), media)[j].col) >= 1 && index_from(
            resolved_of(records, rels),
            media,
        )[j].row >= 1,
{
    lemma_resolved_coords_one_based(records, rels);
    lemma_index_keys_from_resolved(resolved_of(records, rels), media);
}

proof fn lemma_resolved_coords_one_based(
    records: Seq<CellImgIdV>,
    rels: Seq<(Seq<char>, Seq<char>)>,
)
    requires
        forall|i: int| 0 <= i < records.len() ==> ((#[trigger] records[i].col matches Some(c) ==> c
            >= 1) && (records[i].row matches Some(r) ==> r >= 1)),
    ensures
        forall|k: int| 0 <= k < resolved_of(records, rels).len() ==> (#[trigger] resolved_of(
            records,
            rels,
        )[k].col) >= 1 && resolved_of(records, rels)[k].row >= 1,
    decreases records.len(),
{
    if records.len() > 0 {
        assert(forall|i: int| 0 <= i < records.drop_last().len() ==> records.drop_last()[i]
            == records[i]);
        lemma_resolved_coords_one_based(records.drop_last(), rels);
        assert(records.last() == records[records.len() - 1]);
        let front = resolved_of(records.drop_last(), rels);
        let whole = resolved_of(records, rels);
        match resolve_one(records.last(), rels) {
            None => {
                assert(whole == front);
            },
            Some(rc) => {
                assert(whole == front.push(rc));
                assert(rc.col >= 1 && rc.row >= 1);
                assert forall|k: int| 0 <= k < whole.len() implies (#[trigger] whole[k].col) >= 1
                    && whole[k].row >= 1 by {
                    if k < front.len() {
                        assert(whole[k] == front[k]);
                    } else {
                        assert(whole[k] == rc);
                    }
                }
            },
        }
    }
}

proof fn lemma_index_keys_from_resolved(rs: Seq<ResolvedV>, media: Seq<char>)
    requires
        forall|k: int| 0 <= k < rs.len() ==> (#[trigger] rs[k].col) >= 1 && rs[k].row >= 1,
    ensures
        forall|j: int| 0 <= j < index_from(rs, media).len() ==> (#[trigger] index_from(
            rs,
            media,
        )[j].col) >= 1 && index_from(rs, media)[j].row >= 1,
    decreases rs.len(),
{
    if rs.len() > 0 {
        assert(forall|k: int| 0 <= k < rs.drop_last().len() ==> rs.drop_last()[k] == rs[k]);
        lemma_index_keys_from_resolved(rs.drop_last(), media);
        assert(rs.last() == rs[rs.len() - 1]);
        let base = index_from(rs.drop_last(), media);
        let c = rs.last().col;
        let r = rs.last().row;
        lemma_find_cell_props(base, c, r);
    }
}

/// Law: a cell is a key of the built index exactly when some record at
/// that cell resolved, and no key ever carries an empty path list: an
/// anchor whose relationship id dangles never surfaces as a key.
pub proof fn lemma_key_iff_resolved(rs: Seq<ResolvedV>, media: Seq<char>, c: i64, r: i64)
    ensures
        find_cell(index_from(rs, media), c, r) is Some <==> exists|k: int|
            0 <= k < rs.len() && (#[trigger] rs[k].col) == c && rs[k].row == r,
        forall|j: int| 0 <= j < index_from(rs, media).len() ==> (#[trigger] index_from(
            rs,
            media,
        )[j].paths).len() >= 1,
    decreases rs.len(),
{
    let idx = index_from(rs, media);
    lemma_find_cell_props(idx, c, r);
    if rs.len() == 0 {
    } else {
        lemma_key_iff_resolved(rs.drop_last(), media, c, r);
        let base = index_from(rs.drop_last(), media);
        let lc = rs.last().col;
        let lr = rs.last().row;
        lemma_find_cell_props(base, lc, lr);
        lemma_find_cell_props(base, c, r);
        assert(forall|k: int| 0 <= k < rs.drop_last().len() ==> rs.drop_last()[k] == rs[k]);
        assert(rs.last() == rs[rs.len() - 1]);
        if lc == c && lr == r {
            match find_cell(base, c, r) {
                Some(k) => {
                    assert(cell_at(idx[k], c, r));
                },
                None => {
                    assert(cell_at(idx[idx.len() - 1], c, r));
                },
            }
        } else {
            match find_cell(base, lc, lr) {
                Some(k) => {
                    assert(find_cell(idx, c, r) is Some <==> find_cell(base, c, r) is Some) by {
                        match find_cell(base, c, r) {
                            Some(m) => {
                                assert(cell_at(idx[m], c, r));
                            },
                            None => {},
                        }
                        match find_cell(idx, c, r) {
                            Some(m) => {
                                assert(cell_at(base[m], c, r));
                            },
                            None => {},
                        }
                    }
                },
                None => {
                    assert(find_cell(idx, c, r) is Some <==> find_cell(base, c, r) is Some) by {
                        match find_cell(base, c, r) {
                            Some(m) => {
                                assert(cell_at(idx[m], c, r));
                            },
                            None => {},
                        }
                        match find_cell(idx, c, r) {
                            Some(m) => {
                                assert(m < idx.len() - 1);
                                assert(cell_at(base[m], c, r));
                            },
                            None => {},
                        }
                    }
                },
            }
        }
    }
}

proof fn lemma_no_resolved_at(
    records: Seq<CellImgIdV>,
    rels: Seq<(Seq<char>, Seq<char>)>,
    c: i64,
    r: i64,
)
    requires
        forall|k: int| 0 <= k < records.len() ==> (((#[trigger] records[k].col) == Some(c)
            && records[k].row == Some(r)) ==> match records[k].r_id {
            None => true,
            Some(id) => rel_lookup(rels, id) is None,
        }),
    ensures
        forall|m: int| 0 <= m < resolved_of(records, rels).len() ==> !((#[trigger] resolved_of(
            records,
            rels,
        )[m].col) == c && resolved_of(records, rels)[m].row == r),
    decreases records.len(),
{
    if records.len() > 0 {
        assert(forall|k: int| 0 <= k < records.drop_last().len() ==> records.drop_last()[k]
            == records[k]);
        lemma_no_resolved_at(records.drop_last(), rels, c, r);
        assert(records.last() == records[records.len() - 1]);
        let front = resolved_of(records.drop_last(), rels);
        let whole = resolved_of(records, rels);
        match resolve_one(records.last(), rels) {
            None => {
                assert(whole == front);
            },
            Some(rc) => {
                assert(whole == front.push(rc));
                assert(!(rc.col == c && rc.row == r));
                assert forall|m: int| 0 <= m < whole.len() implies !((#[trigger] whole[m].col) == c
                    && whole[m].row == r) by {
                    if m < front.len() {
                        assert(whole[m] == front[m]);
                    } else {
                        assert(whole[m] == rc);
                    }
                }
            },
        }
    }
}

/// Law: an anchor whose `embed` relationship id is absent from the
/// drawing's relationship map never surfaces in the index: when every
/// record at a cell is incomplete or dangling, that cell is no key.
pub proof fn lemma_dangling_never_keyed(
    records: Seq<CellImgIdV>,
    rels: Seq<(Seq<char>, Seq<char>)>,
    media: Seq<char>,
    c: i64,
    r: i64,
)
    requires
        forall|k: int| 0 <= k < records.len() ==> (((#[trigger] records[k].col) == Some(c)
            && records[k].row == Some(r)) ==> match records[k].r_id {
            None => true,
            Some(id) => rel_lookup(rels, id) is None,
        }),
    ensures
        find_cell(index_from(resolved_of(records, rels), media), c, r) is None,
{
    lemma_no_resolved_at(records, rels, c, r);
    lemma_key_iff_resolved(resolved_of(records, rels), media, c, r);
}

/// The ordered paths the resolved anchors at one cell contribute, in
/// document order.
pub open spec fn paths_at(rs: Seq<ResolvedV>, c: i64, r: i64, media: Seq<char>) -> Seq<Seq<char>>
    decreases rs.len(),
{
    if rs.len() == 0 {
        Seq::empty()
    } else {
        let front = paths_at(rs.drop_last(), c, r, media);
        if rs.last().col == c && rs.last().row == r {
            front.push(join_spec(media, rs.last().basename))
        } else {
            front
        }
    }
}

/// Law: the path list keyed by a cell is exactly the ordered paths of
/// the resolved anchors at that cell, so two anchors sharing a cell both
/// appear, in document order.
pub proof fn lemma_index_paths_at(rs: Seq<ResolvedV>, media: Seq<char>, c: i64, r: i64)
    ensures
        match find_cell(index_from(rs, media), c, r) {
            Some(j) => index_from(rs, media)[j].paths == paths_at(rs, c, r, media),
            None => paths_at(rs, c, r, media).len() == 0,
        },
    decreases rs.len(),
{
    let idx = index_from(rs, media);
    lemma_find_cell_props(idx, c, r);
    if rs.len() > 0 {
        lemma_index_paths_at(rs.drop_last(), media, c, r);
        let base = index_from(rs.drop_last(), media);
        let lc = rs.last().col;
        let lr = rs.last().row;
        lemma_find_cell_props(base, lc, lr);
        lemma_find_cell_props(base, c, r);
        if lc == c && lr == r {
            match find_cell(base, c, r) {
                Some(k) => {
                    assert(cell_at(idx[k], c, r));
                    match find_cell(idx, c, r) {
                        Some(m) => {
                            if m < k {
                                assert(cell_at(base[m], c, r));
                            }
                            assert(m == k);
                        },
                        None => {
                            assert(false);
                        },
                    }
                },
                None => {
                    assert(cell_at(idx[idx.len() - 1], c, r));
                    match find_cell(idx, c, r) {
                        Some(m) => {
                            if m < idx.len() - 1 {
                                assert(cell_at(base[m], c, r));
                            }
                            assert(m == idx.len() - 1);
                            assert(idx[m].paths =~= paths_at(rs, c, r, media));
                        },
                        None => {
                            assert(false);
                        },
                    }
                },
            }
        } else {
            match find_cell(base, lc, lr) {
                Some(k) => {
                    assert(!cell_at(idx[k], c, r));
                    match find_cell(idx, c, r) {
                        Some(m) => {
                            assert(cell_at(base[m], c, r));
                            match find_cell(base, c, r) {
                                Some(k2) => {
                                    if k2 < m {
                                        assert(cell_at(idx[k2], c, r));
                                    }
                                    if m < k2 {
                                        assert(!cell_at(base[m], c, r));
                                    }
                                    assert(k2 == m);
                                },
                                None => {
                                    assert(false);
                                },
                            }
                        },
                        None => {
                            match find_cell(base, c, r) {
                                Some(k2) => {
                                    assert(cell_at(idx[k2], c, r));
                                },
                                None => {},
                            }
                        },
                    }
                },
                None => {
                    match find_cell(idx, c, r) {
                        Some(m) => {
                            assert(m < idx.len() - 1);
                            assert(cell_at(base[m], c, r));
                            match find_cell(base, c, r) {
                                Some(k2) => {
                                    if k2 < m {
                                        assert(cell_at(idx[k2], c, r));
                                    }
                                    if m < k2 {
                                        assert(!cell_at(base[m], c, r));
                                    }
                                    assert(k2 == m);
                                },
                                None => {
                                    assert(false);
                                },
                            }
                        },
                        None => {
                            match find_cell(base, c, r) {
                                Some(k2) => {
                                    assert(cell_at(idx[k2], c, r));
                                },
                                None => {},
                            }
                        },
                    }
                },
            }
        }
    }
}

proof fn lemma_find_cell_congruent(a: Seq<CellEntryV>, b: Seq<CellEntryV>, c: i64, r: i64)
    requires
        a.len() == b.len(),
        forall|j: int| 0 <= j < a.len() ==> (#[trigger] a[j].col) == b[j].col && a[j].row
            == b[j].row,
    ensures
        find_cell(a, c, r) == find_cell(b, c, r),
    decreases a.len(),
{
    if a.len() > 0 && !cell_at(a[0], c, r) {
        assert(forall|j: int| 0 <= j < a.drop_first().len() ==> (#[trigger] a.drop_first()[j].col)
            == b.drop_first()[j].col && a.drop_first()[j].row == b.drop_first()[j].row) by {
            assert(forall|j: int| 0 <= j < a.drop_first().len() ==> a.drop_first()[j] == a[j + 1]
                && b.drop_first()[j] == b[j + 1]);
        }
        lemma_find_cell_congruent(a.drop_first(), b.drop_first(), c, r);
    }
}

/// Two entries that key the same cell and whose paths are the same
/// basenames joined onto two media directories.
pub open spec fn entry_corr(e1: CellEntryV, e2: CellEntryV, m1: Seq<char>, m2: Seq<char>) -> bool {
    &&& e1.col == e2.col
    &&& e1.row == e2.row
    &&& e1.paths.len() == e2.paths.len()
    &&& forall|k: int| 0 <= k < e1.paths.len() ==> exists|b: Seq<char>|
        (#[trigger] e1.paths[k]) == join_spec(m1, b) && e2.paths[k] == join_spec(m2, b)
}

/// Two indexes equal but for the media-directory prefix of every path.
pub open spec fn index_corr(
    i1: Seq<CellEntryV>,
    i2: Seq<CellEntryV>,
    m1: Seq<char>,
    m2: Seq<char>,
) -> bool {
    i1.len() == i2.len() && forall|j: int| 0 <= j < i1.len() ==> entry_corr(
        #[trigger] i1[j],
        i2[j],
        m1,
        m2,
    )
}

/// Law: the same resolved anchors joined onto two media directories — two
/// staging directories for one package — build indexes with the same
/// keys, in the same order, whose path lists differ only in the media
/// prefix: the joined basenames match position by position.
pub proof fn lemma_index_media_prefix(rs: Seq<ResolvedV>, m1: Seq<char>, m2: Seq<char>)
    ensures
        index_corr(index_from(rs, m1), index_from(rs, m2), m1, m2),
    decreases rs.len(),
{
    if rs.len() > 0 {
        lemma_index_media_prefix(rs.drop_last(), m1, m2);
        let b1 = index_from(rs.drop_last(), m1);
        let b2 = index_from(rs.drop_last(), m2);
        let i1 = index_from(rs, m1);
        let i2 = index_from(rs, m2);
        let c = rs.last().col;
        let r = rs.last().row;
        let bn = rs.last().basename;
        assert(forall|j: int| 0 <= j < b1.len() ==> (#[trigger] b1[j].col) == b2[j].col
            && b1[j].row == b2[j].row);
        lemma_find_cell_congruent(b1, b2, c, r);
        match find_cell(b1, c, r) {
            Some(k) => {
                lemma_find_cell_props(b1, c, r);
                let e1 = CellEntryV { col: c, row: r, paths: b1[k].paths.push(join_spec(m1, bn)) };
                let e2 = CellEntryV { col: c, row: r, paths: b2[k].paths.push(join_spec(m2, bn)) };
                assert(i1 == b1.update(k, e1));
                assert(i2 == b2.update(k, e2));
                assert(entry_corr(e1, e2, m1, m2)) by {
                    assert forall|p: int| 0 <= p < e1.paths.len() implies exists|b: Seq<char>|
                        (#[trigger] e1.paths[p]) == join_spec(m1, b) && e2.paths[p] == join_spec(
                            m2,
                            b,
                        ) by {
                        if p < b1[k].paths.len() {
                            assert(e1.paths[p] == b1[k].paths[p]);
                            assert(e2.paths[p] == b2[k].paths[p]);
                            assert(entry_corr(b1[k], b2[k], m1, m2));
                        } else {
                            assert(e1.paths[p] == join_spec(m1, bn) && e2.paths[p] == join_spec(
                                m2,
                                bn,
                            ));
                        }
                    }
                }
                assert forall|j: int| 0 <= j < i1.len() implies entry_corr(
                    #[trigger] i1[j],
                    i2[j],
                    m1,
                    m2,
                ) by {
                    if j != k {
                        assert(i1[j] == b1[j] && i2[j] == b2[j]);
                    }
                }
            },
            None => {
                let e1 = CellEntryV { col: c, row: r, paths: seq![join_spec(m1, bn)] };
                let e2 = CellEntryV { col: c, row: r, paths: seq![join_spec(m2, bn)] };
                assert(i1 == b1.push(e1));
                assert(i2 == b2.push(e2));
                assert(entry_corr(e1, e2, m1, m2)) by {
                    assert forall|p: int| 0 <= p < e1.paths.len() implies exists|b: Seq<char>|
                        (#[trigger] e1.paths[p]) == join_spec(m1, b) && e2.paths[p] == join_spec(
                            m2,
                            b,
                        ) by {
                        assert(e1.paths[p] == join_spec(m1, bn) && e2.paths[p] == join_spec(
                            m2,
                            bn,
                        ));
                    }
                }
                assert forall|j: int| 0 <= j < i1.len() implies entry_corr(
                    #[trigger] i1[j],
                    i2[j],
                    m1,
                    m2,
                ) by {
                    if j < b1.len() {
                        assert(i1[j] == b1[j] && i2[j] == b2[j]);
                    } else {
                        assert(i1[j] == e1 && i2[j] == e2);
                    }
                }
            },
        }
    }
}

/// A prefix of the resolved anchors contributes a prefix of the paths at
/// each cell.
proof fn lemma_paths_at_prefix(rs: Seq<ResolvedV>, c: i64, r: i64, media: Seq<char>, k: int)
    requires
        0 <= k <= rs.len(),
    ensures
        paths_at(rs.take(k), c, r, media).len() <= paths_at(rs, c, r, media).len(),
        forall|m: int| 0 <= m < paths_at(rs.take(k), c, r, media).len() ==> (#[trigger] paths_at(
            rs.take(k),
            c,
            r,
            media,
        )[m]) == paths_at(rs, c, r, media)[m],
    decreases rs.len() - k,
{
    if k == rs.len() {
        assert(rs.take(k) =~= rs);
    } else {
        lemma_paths_at_prefix(rs, c, r, media, k + 1);
        assert(rs.take(k + 1).drop_last() =~= rs.take(k));
        assert(rs.take(k + 1).last() == rs[k]);
        let pk = paths_at(rs.take(k), c, r, media);
        let pk1 = paths_at(rs.take(k + 1), c, r, media);
        if rs[k].col == c && rs[k].row == r {
            assert(pk1 == pk.push(join_spec(media, rs[k].basename)));
        } else {
            assert(pk1 == pk);
        }
        assert forall|m: int| 0 <= m < pk.len() implies (#[trigger] pk[m]) == paths_at(
            rs,
            c,
            r,
            media,
        )[m] by {
            assert(pk[m] == pk1[m]);
        }
    }
}

/// Law: two resolved anchors at the same cell both appear in that cell's
/// path list, at distinct positions in document order.
pub proof fn lemma_same_cell_ordered(
    rs: Seq<ResolvedV>,
    media: Seq<char>,
    c: i64,
    r: i64,
    i: int,
    j: int,
)
    requires
        0 <= i < j < rs.len(),
        rs[i].col == c && rs[i].row == r,
        rs[j].col == c && rs[j].row == r,
    ensures
        ({
            let ps = paths_at(rs, c, r, media);
            let pi = paths_at(rs.take(i), c, r, media).len();
            let pj = paths_at(rs.take(j), c, r, media).len();
            &&& pi < pj < ps.len()
            &&& ps[pi as int] == join_spec(media, rs[i].basename)
            &&& ps[pj as int] == join_spec(media, rs[j].basename)
        }),
{
    let ps = paths_at(rs, c, r, media);
    let pre_i = paths_at(rs.take(i), c, r, media);
    let pre_i1 = paths_at(rs.take(i + 1), c, r, media);
    let pre_j = paths_at(rs.take(j), c, r, media);
    let pre_j1 = paths_at(rs.take(j + 1), c, r, media);
    assert(rs.take(i + 1).drop_last() =~= rs.take(i));
    assert(rs.take(i + 1).last() == rs[i]);
    assert(pre_i1 == pre_i.push(join_spec(media, rs[i].basename)));
    assert(rs.take(j + 1).drop_last() =~= rs.take(j));
    assert(rs.take(j + 1).last() == rs[j]);
    assert(pre_j1 == pre_j.push(join_spec(media, rs[j].basename)));
    lemma_paths_at_prefix(rs, c, r, media, i + 1);
    lemma_paths_at_prefix(rs, c, r, media, j + 1);
    assert(ps[pre_i.len() as int] == pre_i1[pre_i.len() as int]);
    assert(ps[pre_j.len() as int] == pre_j1[pre_j.len() as int]);
    lemma_paths_at_prefix(rs.take(j), c, r, media, i + 1);
    assert(rs.take(j).take(i + 1) =~= rs.take(i + 1));
}

/// Joins anchor records with the relationship map into the final index:
/// for each record with both coordinates and a resolvable relationship
/// id, in document order, its image path is appended at its cell. Records
/// with a missing field or a dangling id are dropped silently; an image
/// file absent from the media directory is a fatal error naming the path.
pub fn generate_col_row_abs_img_dict(
    col_row_rid: &Vec<CellImgId>,
    rid_img_dict: &Vec<(String, String)>,
    media_dir: &str,
) -> (r: Result<CellImageIndex, IoError>)
    ensures
        r matches Ok(idx) ==> idx.deep_view() == index_from(
            resolved_of(col_row_rid.deep_view(), rid_img_dict.deep_view()),
            media_dir@,
        ),
        r matches Err(e) ==> e matches IoError::MissingImage { path } && exists|k: int|
            0 <= k < resolved_of(col_row_rid.deep_view(), rid_img_dict.deep_view()).len()
                && path@ == join_spec(
                media_dir@,
                resolved_of(col_row_rid.deep_view(), rid_img_dict.deep_view())[k].basename,
            ),
{
    let ghost recs = col_row_rid.deep_view();
    let ghost relv = rid_img_dict.deep_view();
    let n: usize = col_row_rid.len();
    let mut idx: CellImageIndex = CellImageIndex { entries: Vec::new() };
    let mut i: usize = 0;
    proof {
        assert(recs.take(0) =~= Seq::<CellImgIdV>::empty());
        assert(idx.deep_view() =~= Seq::<CellEntryV>::empty());
    }
    while i < n
        invariant
            0 <= i <= n,
            n == col_row_rid@.len(),
            recs == col_row_rid.deep_view(),
            relv == rid_img_dict.deep_view(),
            idx.deep_view() == index_from(resolved_of(recs.take(i as int), relv), media_dir@),
        decreases n - i,
    {
        proof {
            assert(recs[i as int] == col_row_rid@[i as int].deep_view());
            assert(recs.take(i as int + 1).drop_last() =~= recs.take(i as int));
            assert(recs.take(i as int + 1).last() == recs[i as int]);
        }
        let rec: &CellImgId = &col_row_rid[i];
        if let (Some(c), Some(rw), Some(id)) = (rec.col, rec.row, &rec.r_id) {
            if let Some(target) = rel_lookup_x(rid_img_dict, id.as_str()) {
                let ghost rc = ResolvedV {
                    col: c,
                    row: rw,
                    basename: basename_spec(target@),
                };
                proof {
                    assert(resolve_one(recs[i as int], relv) == Some(rc));
                    assert(resolved_of(recs.take(i as int + 1), relv) == resolved_of(
                        recs.take(i as int),
                        relv,
                    ).push(rc));
                }
                match compute_abs_img_path(target.as_str(), media_dir) {
                    Err(e) => {
                        proof {
                            lemma_resolved_prefix(recs, relv, i as int + 1);
                            let rs_pre = resolved_of(recs.take(i as int + 1), relv);
                            let rs_all = resolved_of(recs, relv);
                            assert(rs_pre[rs_pre.len() - 1] == rc);
                            assert(rs_all[rs_pre.len() - 1] == rc);
                        }
                        return Err(e);
                    },
                    Ok(p) => {
                        let ghost pvv = p@;
                        index_insert(&mut idx, c, rw, p);
                        proof {
                            let rs0 = resolved_of(recs.take(i as int), relv);
                            let rs1 = resolved_of(recs.take(i as int + 1), relv);
                            assert(rs1.drop_last() =~= rs0);
                            assert(rs1.last() == rc);
                            assert(pvv == join_spec(media_dir@, rc.basename));
                            assert(index_from(rs1, media_dir@) == insert_path(
                                index_from(rs0, media_dir@),
                                rc.col,
                                rc.row,
                                join_spec(media_dir@, rc.basename),
                            ));
                        }
                    },
                }
            } else {
                proof {
                    assert(resolve_one(recs[i as int], relv) is None);
                    assert(resolved_of(recs.take(i as int + 1), relv) == resolved_of(
                        recs.take(i as int),
                        relv,
                    ));
                }
            }
        } else {
            proof {
                assert(resolve_one(recs[i as int], relv) is None);
                assert(resolved_of(recs.take(i as int + 1), relv) == resolved_of(
                    recs.take(i as int),
                    relv,
                ));
            }
        }
        i = i + 1;
    }
    proof {
        assert(recs.take(n as int) =~= recs);
    }
    Ok(idx)
}

} // verus!
