use xlsx_img_locator::parse_xml::extract_drawing_anchors;
use xlsx_img_locator::parse_xml::get_col_row_r_id;
use xlsx_img_locator::parse_xml::get_col_row_r_id_sans_xdr;

const XDR: &str = "http://schemas.openxmlformats.org/drawingml/2006/spreadsheetDrawing";
const A: &str = "http://schemas.openxmlformats.org/drawingml/2006/main";
const R: &str = "http://schemas.openxmlformats.org/officeDocument/2006/relationships";

fn qualified_drawing() -> String {
    format!(
        "<xdr:wsDr xmlns:xdr=\"{XDR}\" xmlns:a=\"{A}\" xmlns:r=\"{R}\">\
           <xdr:twoCellAnchor>\
             <xdr:from><xdr:col>2</xdr:col><xdr:row>5</xdr:row></xdr:from>\
             <xdr:to><xdr:col>4</xdr:col><xdr:row>9</xdr:row></xdr:to>\
             <xdr:pic><xdr:blipFill><a:blip r:embed=\"rId1\"/></xdr:blipFill></xdr:pic>\
           </xdr:twoCellAnchor>\
         </xdr:wsDr>"
    )
}

fn bare_drawing() -> String {
    format!(
        "<wsDr xmlns=\"{A}\" xmlns:r=\"{R}\">\
           <twoCellAnchor>\
             <from><col>2</col><row>5</row></from>\
             <to><col>4</col><row>9</row></to>\
             <pic><blipFill><blip r:embed=\"rId1\"/></blipFill></pic>\
           </twoCellAnchor>\
         </wsDr>"
    )
}

#[test]
fn qualified_dialect_extracts_one_based_cell_and_rid() {
    let recs = get_col_row_r_id(&qualified_drawing()).unwrap();
    assert_eq!(recs.len(), 1);
    assert_eq!(recs[0].col, Some(3));
    assert_eq!(recs[0].row, Some(6));
    assert_eq!(recs[0].r_id.as_deref(), Some("rId1"));
}

#[test]
fn bare_dialect_extracts_identically_to_qualified() {
    let q = extract_drawing_anchors(&qualified_drawing()).unwrap();
    let b = extract_drawing_anchors(&bare_drawing()).unwrap();
    assert_eq!(q.len(), b.len());
    assert_eq!(q[0].col, b[0].col);
    assert_eq!(q[0].row, b[0].row);
    assert_eq!(q[0].r_id, b[0].r_id);
}

#[test]
fn bare_extractor_reads_bare_dialect() {
    let recs = get_col_row_r_id_sans_xdr(&bare_drawing()).unwrap();
    assert_eq!(recs.len(), 1);
    assert_eq!(recs[0].col, Some(3));
    assert_eq!(recs[0].row, Some(6));
    assert_eq!(recs[0].r_id.as_deref(), Some("rId1"));
}

#[test]
fn qualified_extractor_yields_nothing_without_aliases() {
    // the qualified extractor requires the xdr and a aliases to resolve
    let recs = get_col_row_r_id(&bare_drawing()).unwrap();
    assert_eq!(recs.len(), 0);
}

#[test]
fn anchor_without_picture_keeps_fields_unset() {
    let text = format!(
        "<wsDr xmlns=\"{A}\" xmlns:r=\"{R}\">\
           <twoCellAnchor><from><col>0</col><row>0</row></from></twoCellAnchor>\
         </wsDr>"
    );
    let recs = extract_drawing_anchors(&text).unwrap();
    assert_eq!(recs.len(), 1);
    assert_eq!(recs[0].col, Some(1));
    assert_eq!(recs[0].row, Some(1));
    assert_eq!(recs[0].r_id, None);
}

#[test]
fn anchor_with_malformed_coordinate_leaves_it_unset() {
    let text = format!(
        "<wsDr xmlns=\"{A}\" xmlns:r=\"{R}\">\
           <twoCellAnchor>\
             <from><col>x</col><row>5</row></from>\
             <pic><blipFill><blip r:embed=\"rId1\"/></blipFill></pic>\
           </twoCellAnchor>\
         </wsDr>"
    );
    let recs = extract_drawing_anchors(&text).unwrap();
    assert_eq!(recs.len(), 1);
    assert_eq!(recs[0].col, None);
    assert_eq!(recs[0].row, Some(6));
    assert_eq!(recs[0].r_id.as_deref(), Some("rId1"));
}

#[test]
fn malformed_drawing_is_reported() {
    assert!(extract_drawing_anchors("<wsDr><unclosed>").is_none());
    assert!(get_col_row_r_id("<").is_none());
    assert!(get_col_row_r_id_sans_xdr("<").is_none());
}

#[test]
fn anchors_keep_document_order() {
    let text = format!(
        "<wsDr xmlns=\"{A}\" xmlns:r=\"{R}\">\
           <twoCellAnchor>\
             <from><col>1</col><row>1</row></from>\
             <pic><blipFill><blip r:embed=\"rIdA\"/></blipFill></pic>\
           </twoCellAnchor>\
           <twoCellAnchor>\
             <from><col>1</col><row>1</row></from>\
             <pic><blipFill><blip r:embed=\"rIdB\"/></blipFill></pic>\
           </twoCellAnchor>\
         </wsDr>"
    );
    let recs = extract_drawing_anchors(&text).unwrap();
    assert_eq!(recs.len(), 2);
    assert_eq!(recs[0].r_id.as_deref(), Some("rIdA"));
    assert_eq!(recs[1].r_id.as_deref(), Some("rIdB"));
}
