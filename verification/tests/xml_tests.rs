use xlsx_img_locator::xml::convert_node_text_to_i64;
use xlsx_img_locator::xml::doc_find;
use xlsx_img_locator::xml::find_attr_value_from;
use xlsx_img_locator::xml::find_tag_from;
use xlsx_img_locator::xml::get_namespace_str;
use xlsx_img_locator::xml::parse_xml_doc;
use xlsx_img_locator::xml::subtree_end_at;
use xlsx_img_locator::xml::NamedDoc;

#[test]
fn parse_reports_malformed_xml() {
    assert!(parse_xml_doc("<a><b></a>").is_none());
    assert!(parse_xml_doc("not xml at all").is_none());
    assert!(parse_xml_doc("<a/>").is_some());
}

#[test]
fn parse_records_tags_text_and_attrs() {
    let doc = parse_xml_doc("<root><x k=\"v\">7</x><y/></root>").unwrap();
    let tags: Vec<&str> = doc
        .nodes
        .iter()
        .filter(|n| n.is_element)
        .map(|n| n.tag.as_str())
        .collect();
    assert_eq!(tags, vec!["root", "x", "y"]);
    let x = doc.nodes.iter().position(|n| n.tag == "x").unwrap();
    assert_eq!(doc.nodes[x].text.as_deref(), Some("7"));
    assert_eq!(doc.nodes[x].attrs.len(), 1);
    assert_eq!(doc.nodes[x].attrs[0].name.as_str(), "k");
    assert_eq!(doc.nodes[x].attrs[0].value.as_str(), "v");
}

#[test]
fn namespace_declarations_resolve_by_alias() {
    let doc = parse_xml_doc(
        "<r xmlns:a=\"http://one\" xmlns=\"http://dft\"><a:c/></r>",
    )
    .unwrap();
    assert_eq!(
        get_namespace_str(&doc.ns_decls, "a").as_deref(),
        Some("http://one")
    );
    assert_eq!(get_namespace_str(&doc.ns_decls, "xdr"), None);
}

#[test]
fn subtree_search_stays_inside_the_subtree() {
    let doc = parse_xml_doc("<r><p><c>1</c></p><q><c>2</c></q></r>").unwrap();
    let nodes = &doc.nodes;
    let p = find_tag_from(nodes, 0, nodes.len(), None, "p").unwrap();
    let p_end = subtree_end_at(nodes, p);
    let c_in_p = find_tag_from(nodes, p, p_end, None, "c").unwrap();
    assert_eq!(convert_node_text_to_i64(&nodes[c_in_p]), Some(1));
    let q = find_tag_from(nodes, 0, nodes.len(), None, "q").unwrap();
    let q_end = subtree_end_at(nodes, q);
    let c_in_q = find_tag_from(nodes, q, q_end, None, "c").unwrap();
    assert_eq!(convert_node_text_to_i64(&nodes[c_in_q]), Some(2));
    assert!(find_tag_from(nodes, p, p_end, None, "q").is_none());
}

#[test]
fn tag_search_honours_the_namespace_filter() {
    let doc = parse_xml_doc(
        "<r xmlns:a=\"http://one\"><a:c/><c/></r>",
    )
    .unwrap();
    let nodes = &doc.nodes;
    let ns_hit = find_tag_from(nodes, 0, nodes.len(), Some("http://one"), "c").unwrap();
    let bare_hit = find_tag_from(nodes, 0, nodes.len(), None, "c").unwrap();
    assert_eq!(ns_hit, bare_hit);
    assert!(find_tag_from(nodes, 0, nodes.len(), Some("http://two"), "c").is_none());
}

#[test]
fn attr_search_finds_qualified_attribute_value() {
    let doc = parse_xml_doc(
        "<r xmlns:n=\"http://n\"><x n:embed=\"rId9\" other=\"z\"/></r>",
    )
    .unwrap();
    let nodes = &doc.nodes;
    let v = find_attr_value_from(nodes, 0, nodes.len(), Some("http://n"), "embed");
    assert_eq!(v.as_deref(), Some("rId9"));
    assert!(find_attr_value_from(nodes, 0, nodes.len(), Some("http://m"), "embed").is_none());
    assert_eq!(
        find_attr_value_from(nodes, 0, nodes.len(), None, "other").as_deref(),
        Some("z")
    );
}

#[test]
fn node_text_parses_integers_leniently() {
    let doc = parse_xml_doc("<r><a>12</a><b>x</b><c/></r>").unwrap();
    let nodes = &doc.nodes;
    let a = find_tag_from(nodes, 0, nodes.len(), None, "a").unwrap();
    let b = find_tag_from(nodes, 0, nodes.len(), None, "b").unwrap();
    let c = find_tag_from(nodes, 0, nodes.len(), None, "c").unwrap();
    assert_eq!(convert_node_text_to_i64(&nodes[a]), Some(12));
    assert_eq!(convert_node_text_to_i64(&nodes[b]), None);
    assert_eq!(convert_node_text_to_i64(&nodes[c]), None);
}

#[test]
fn doc_find_matches_by_name() {
    let files = vec![
        NamedDoc { name: "sheet1.xml.rels".to_string(), content: Some("<a/>".to_string()) },
        NamedDoc { name: "sheet2.xml.rels".to_string(), content: None },
    ];
    assert_eq!(doc_find(&files, "sheet2.xml.rels"), Some(1));
    assert_eq!(doc_find(&files, "sheet3.xml.rels"), None);
}
