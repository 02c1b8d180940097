use xlsx_img_locator::errors::IoError;
use xlsx_img_locator::parse_xml::compute_abs_img_path;
use xlsx_img_locator::parse_xml::generate_col_row_abs_img_dict;
use xlsx_img_locator::parse_xml::get_rid_img_dict;
use xlsx_img_locator::parse_xml::get_sheet_and_drawing_xml_map;
use xlsx_img_locator::parse_xml::CellImgId;
use xlsx_img_locator::xml::NamedDoc;

const PKG: &str = "http://schemas.openxmlformats.org/package/2006/relationships";
const DRAW_TY: &str =
    "http://schemas.openxmlformats.org/officeDocument/2006/relationships/drawing";

fn rec(col: Option<i64>, row: Option<i64>, r_id: Option<&str>) -> CellImgId {
    CellImgId { col, row, r_id: r_id.map(|s| s.to_string()) }
}

fn pair(a: &str, b: &str) -> (String, String) {
    (a.to_string(), b.to_string())
}

#[test]
fn rid_map_collects_id_target_pairs() {
    let text = format!(
        "<Relationships xmlns=\"{PKG}\">\
           <Relationship Id=\"rId1\" Type=\"t\" Target=\"../media/image1.png\"/>\
           <Relationship Id=\"rId2\" Type=\"t\" Target=\"../media/image2.png\"/>\
           <Relationship Type=\"t\" Target=\"skipped-no-id\"/>\
         </Relationships>"
    );
    let m = get_rid_img_dict(Some(&text));
    assert_eq!(
        m,
        vec![pair("rId1", "../media/image1.png"), pair("rId2", "../media/image2.png")]
    );
}

#[test]
fn missing_or_malformed_rels_mean_no_images() {
    assert_eq!(get_rid_img_dict(None), vec![]);
    assert_eq!(get_rid_img_dict(Some("<not-closed")), vec![]);
}

#[test]
fn sheet_drawing_map_scans_rels_files() {
    let files = vec![
        NamedDoc {
            name: "sheet1.xml.rels".to_string(),
            content: Some(format!(
                "<Relationships xmlns=\"{PKG}\">\
                   <Relationship Id=\"rId3\" Type=\"{DRAW_TY}\" Target=\"../drawings/drawing1.xml\"/>\
                 </Relationships>"
            )),
        },
        // no drawing relationship: contributes nothing
        NamedDoc {
            name: "sheet2.xml.rels".to_string(),
            content: Some(format!(
                "<Relationships xmlns=\"{PKG}\">\
                   <Relationship Id=\"rId1\" Type=\"other\" Target=\"x\"/>\
                 </Relationships>"
            )),
        },
        // unreadable: skipped, not fatal
        NamedDoc { name: "sheet3.xml.rels".to_string(), content: None },
        // wrong extension: ignored
        NamedDoc { name: "notes.txt".to_string(), content: Some("hi".to_string()) },
    ];
    let m = get_sheet_and_drawing_xml_map(&files, "/stage/xl/drawings");
    assert_eq!(m, vec![pair("sheet1.xml.rels", "/stage/xl/drawings/drawing1.xml")]);
}

#[test]
fn compute_abs_img_path_joins_basename_on_media_dir() {
    // /dev/null exists on any host the tests run on
    let p = compute_abs_img_path("../media/null", "/dev").unwrap();
    assert_eq!(p.as_str(), "/dev/null");
}

#[test]
fn compute_abs_img_path_names_the_missing_file() {
    let r = compute_abs_img_path("../media/surely_absent.png", "/dev");
    match r {
        Err(IoError::MissingImage { path }) => assert_eq!(path.as_str(), "/dev/surely_absent.png"),
        other => panic!("expected a missing-image error, got {:?}", other.is_ok()),
    }
}

#[test]
fn join_keeps_order_and_groups_by_cell() {
    // two images at the same cell, one at another; all files exist
    let records = vec![
        rec(Some(3), Some(6), Some("rId1")),
        rec(Some(3), Some(6), Some("rId2")),
        rec(Some(1), Some(1), Some("rId3")),
    ];
    let rels = vec![
        pair("rId1", "../media/null"),
        pair("rId2", "../media/zero"),
        pair("rId3", "../media/null"),
    ];
    let idx = generate_col_row_abs_img_dict(&records, &rels, "/dev").unwrap();
    assert_eq!(idx.entries.len(), 2);
    assert_eq!(idx.entries[0].col, 3);
    assert_eq!(idx.entries[0].row, 6);
    assert_eq!(
        idx.entries[0].paths,
        vec!["/dev/null".to_string(), "/dev/zero".to_string()]
    );
    assert_eq!(idx.entries[1].col, 1);
    assert_eq!(idx.entries[1].row, 1);
    let both = idx.get(3, 6).unwrap();
    assert_eq!(both.len(), 2);
    assert!(idx.get(9, 9).is_none());
}

#[test]
fn dangling_or_incomplete_records_are_dropped_silently() {
    let records = vec![
        // dangling relationship id: not in the map
        rec(Some(2), Some(2), Some("rId9")),
        // missing coordinate
        rec(None, Some(4), Some("rId1")),
        // missing relationship id
        rec(Some(5), Some(5), None),
    ];
    let rels = vec![pair("rId1", "../media/null")];
    let idx = generate_col_row_abs_img_dict(&records, &rels, "/dev").unwrap();
    assert_eq!(idx.entries.len(), 0);
    assert!(idx.get(2, 2).is_none());
}

#[test]
fn missing_image_file_aborts_the_join_with_its_path() {
    let records = vec![rec(Some(1), Some(2), Some("rId1"))];
    let rels = vec![pair("rId1", "../media/not_really_here.png")];
    match generate_col_row_abs_img_dict(&records, &rels, "/dev") {
        Err(IoError::MissingImage { path }) => {
            assert_eq!(path.as_str(), "/dev/not_really_here.png")
        },
        other => panic!("expected a missing-image error, got {:?}", other.is_ok()),
    }
}
