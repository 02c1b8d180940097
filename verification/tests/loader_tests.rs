use xlsx_img_locator::errors::IoError;
use xlsx_img_locator::errors::XlsxPathParseError;
use xlsx_img_locator::structs::StagedFiles;
use xlsx_img_locator::structs::UnzippedPaths;
use xlsx_img_locator::xml::NamedDoc;
use xlsx_img_locator::ImgLoader;
use xlsx_img_locator::XlsxPath;

const PKG: &str = "http://schemas.openxmlformats.org/package/2006/relationships";
const DRAW_TY: &str =
    "http://schemas.openxmlformats.org/officeDocument/2006/relationships/drawing";
const A: &str = "http://schemas.openxmlformats.org/drawingml/2006/main";
const R: &str = "http://schemas.openxmlformats.org/officeDocument/2006/relationships";

fn workbook_two_sheets() -> String {
    "<workbook><sheets>\
       <sheet name=\"Sheet1\" sheetId=\"1\"/>\
       <sheet name=\"Sheet2\" sheetId=\"2\"/>\
     </sheets></workbook>"
        .to_string()
}

fn sheet1_rels() -> NamedDoc {
    NamedDoc {
        name: "sheet1.xml.rels".to_string(),
        content: Some(format!(
            "<Relationships xmlns=\"{PKG}\">\
               <Relationship Id=\"rId1\" Type=\"{DRAW_TY}\" Target=\"../drawings/drawing1.xml\"/>\
             </Relationships>"
        )),
    }
}

fn drawing_with(target_media_name: &str) -> (NamedDoc, NamedDoc) {
    let drawing = NamedDoc {
        name: "drawing1.xml".to_string(),
        content: Some(format!(
            "<wsDr xmlns=\"{A}\" xmlns:r=\"{R}\">\
               <twoCellAnchor>\
                 <from><col>2</col><row>5</row></from>\
                 <pic><blipFill><blip r:embed=\"rId1\"/></blipFill></pic>\
               </twoCellAnchor>\
             </wsDr>"
        )),
    };
    let drawing_rels = NamedDoc {
        name: "drawing1.xml.rels".to_string(),
        content: Some(format!(
            "<Relationships xmlns=\"{PKG}\">\
               <Relationship Id=\"rId1\" Type=\"t\" Target=\"../media/{target_media_name}\"/>\
             </Relationships>"
        )),
    };
    (drawing, drawing_rels)
}

// "/dev" stands in for the staged media directory: the referenced image
// file must exist on disk, and /dev/null does everywhere the tests run.
fn staged(target_media_name: &str) -> StagedFiles {
    let (drawing, drawing_rels) = drawing_with(target_media_name);
    StagedFiles {
        media_dir: "/dev".to_string(),
        drawing_dir: "/stage/xl/drawings".to_string(),
        workbook_xml: Some(workbook_two_sheets()),
        worksheet_rels: vec![sheet1_rels()],
        drawings: vec![drawing],
        drawing_rels: vec![drawing_rels],
    }
}

fn any_xlsx_path() -> XlsxPath {
    // the validator consults the disk; the staging contract lets an
    // externally validated path be wrapped directly
    XlsxPath::from_validated("/data/book.xlsx")
}

#[test]
fn load_fills_both_views_consistently() {
    // a manifest with two sheets; Sheet1 has a drawing with one anchor at
    // raw (2, 5); Sheet2 has no drawing association
    let l = ImgLoader::new(&any_xlsx_path(), "/stage", &staged("null")).unwrap();
    assert_eq!(l.unzip_dir.as_str(), "/stage");
    assert_eq!(l.worksheet_name_id_map.len(), 2);
    assert_eq!(l.worksheet_name_id_map[0], (1, "Sheet1".to_string()));
    assert_eq!(l.worksheet_name_id_map[1], (2, "Sheet2".to_string()));

    let by_name = l.get_img_map_by_name("Sheet1").unwrap();
    assert_eq!(by_name.entries.len(), 1);
    assert_eq!(by_name.entries[0].col, 3);
    assert_eq!(by_name.entries[0].row, 6);
    assert_eq!(by_name.entries[0].paths, vec!["/dev/null".to_string()]);
    assert_eq!(by_name.get(3, 6).unwrap(), &vec!["/dev/null".to_string()]);

    let empty_by_name = l.get_img_map_by_name("Sheet2").unwrap();
    assert_eq!(empty_by_name.entries.len(), 0);

    // the id-keyed view mirrors the name-keyed one
    let by_id = l.get_img_map_by_id(1).unwrap();
    assert_eq!(by_id.entries.len(), by_name.entries.len());
    assert_eq!(by_id.entries[0].col, 3);
    assert_eq!(by_id.entries[0].row, 6);
    assert_eq!(by_id.entries[0].paths, by_name.entries[0].paths);
    let empty_by_id = l.get_img_map_by_id(2).unwrap();
    assert_eq!(empty_by_id.entries.len(), 0);
    assert!(l.get_img_map_by_name("Sheet9").is_none());
    assert!(l.get_img_map_by_id(9).is_none());
}

#[test]
fn loads_into_two_staging_dirs_agree_up_to_prefix() {
    // the same package staged twice: media directories differ, keys and
    // basenames agree
    let mut s1 = staged("null");
    s1.media_dir = "/dev".to_string();
    let mut s2 = staged("null");
    s2.media_dir = "//dev".to_string();
    let l1 = ImgLoader::new(&any_xlsx_path(), "/stage1", &s1).unwrap();
    let l2 = ImgLoader::new(&any_xlsx_path(), "/stage2", &s2).unwrap();
    let i1 = l1.get_img_map_by_name("Sheet1").unwrap();
    let i2 = l2.get_img_map_by_name("Sheet1").unwrap();
    assert_eq!(i1.entries.len(), i2.entries.len());
    for (e1, e2) in i1.entries.iter().zip(i2.entries.iter()) {
        assert_eq!((e1.col, e1.row), (e2.col, e2.row));
        assert_eq!(e1.paths.len(), e2.paths.len());
        for (p1, p2) in e1.paths.iter().zip(e2.paths.iter()) {
            assert_eq!(p1.strip_prefix("/dev/"), p2.strip_prefix("//dev/"));
        }
    }
}

#[test]
fn missing_manifest_is_fatal() {
    let mut s = staged("null");
    s.workbook_xml = None;
    match ImgLoader::new(&any_xlsx_path(), "/stage", &s) {
        Err(IoError::ManifestError { .. }) => {},
        _ => panic!("expected a manifest error"),
    }
}

#[test]
fn sheet_entry_without_id_is_fatal() {
    let mut s = staged("null");
    s.workbook_xml = Some("<workbook><sheets><sheet name=\"S\"/></sheets></workbook>".to_string());
    match ImgLoader::new(&any_xlsx_path(), "/stage", &s) {
        Err(IoError::ManifestError { .. }) => {},
        _ => panic!("expected a manifest error"),
    }
}

#[test]
fn non_integer_sheet_id_is_fatal() {
    let mut s = staged("null");
    s.workbook_xml =
        Some("<workbook><sheets><sheet name=\"S\" sheetId=\"one\"/></sheets></workbook>".to_string());
    match ImgLoader::new(&any_xlsx_path(), "/stage", &s) {
        Err(IoError::ManifestError { .. }) => {},
        _ => panic!("expected a manifest error"),
    }
}

#[test]
fn absent_drawing_document_is_fatal() {
    let mut s = staged("null");
    s.drawings = vec![];
    match ImgLoader::new(&any_xlsx_path(), "/stage", &s) {
        Err(IoError::DrawingError { path }) => {
            assert_eq!(path.as_str(), "/stage/xl/drawings/drawing1.xml")
        },
        _ => panic!("expected a drawing error"),
    }
}

#[test]
fn corrupt_drawing_document_is_fatal() {
    let mut s = staged("null");
    s.drawings = vec![NamedDoc {
        name: "drawing1.xml".to_string(),
        content: Some("<wsDr><broken".to_string()),
    }];
    match ImgLoader::new(&any_xlsx_path(), "/stage", &s) {
        Err(IoError::DrawingError { path }) => {
            assert_eq!(path.as_str(), "/stage/xl/drawings/drawing1.xml")
        },
        _ => panic!("expected a drawing error"),
    }
}

#[test]
fn referenced_image_absent_from_media_dir_is_fatal_and_named() {
    let s = staged("ghost.png");
    match ImgLoader::new(&any_xlsx_path(), "/stage", &s) {
        Err(IoError::MissingImage { path }) => assert_eq!(path.as_str(), "/dev/ghost.png"),
        _ => panic!("expected a missing-image error"),
    }
}

#[test]
fn missing_drawing_rels_mean_no_images_not_an_error() {
    let mut s = staged("null");
    s.drawing_rels = vec![];
    let l = ImgLoader::new(&any_xlsx_path(), "/stage", &s).unwrap();
    let idx = l.get_img_map_by_name("Sheet1").unwrap();
    assert_eq!(idx.entries.len(), 0);
}

#[test]
fn xlsx_path_rejects_wrong_extension() {
    // /dev/null exists and has no extension at all
    match XlsxPath::parse("/dev/null") {
        Ok(_) => panic!("an extensionless path must be rejected"),
        Err(XlsxPathParseError::InvalidFormat { expected, found }) => {
            assert_eq!(expected.as_str(), "xlsx");
            assert_eq!(found.as_str(), "");
        },
        Err(_) => panic!("wrong error kind"),
    }
}

#[test]
fn xlsx_path_rejects_missing_file() {
    match XlsxPath::parse("definitely_not_here.xlsx") {
        Err(XlsxPathParseError::FileNotFound { path }) => {
            assert_eq!(path.as_str(), "definitely_not_here.xlsx")
        },
        _ => panic!("expected a file-not-found error"),
    }
}

#[test]
fn error_messages_name_the_offender() {
    let e = XlsxPathParseError::FileNotFound { path: "x.xlsx".to_string() };
    assert_eq!(e.message().as_str(), "path provided is not a file: x.xlsx");
    let e2 = XlsxPathParseError::InvalidFormat {
        expected: "xlsx".to_string(),
        found: "toml".to_string(),
    };
    assert_eq!(e2.message().as_str(), "invalid format. (expected xlsx, found toml)");
    let e3 = IoError::MissingImage { path: "m/p.png".to_string() };
    assert_eq!(e3.message().as_str(), "image file missing: m/p.png");
    let e4 = IoError::DrawingError { path: "d.xml".to_string() };
    assert_eq!(e4.message().as_str(), "drawing document corrupt: d.xml");
    let e5 = IoError::ManifestError { msg: "bad".to_string() };
    assert_eq!(e5.message().as_str(), "workbook manifest corrupt: bad");
    let e6 = IoError::CreateTempDirError { msg: "t".to_string() };
    assert_eq!(e6.message().as_str(), "failed to create temp dir: t");
    let e7 = IoError::UnzipXlsxError { msg: "u".to_string() };
    assert_eq!(e7.message().as_str(), "failed to unzip package: u");
}

#[test]
fn manifest_reader_lists_sheets_in_document_order() {
    let m = xlsx_img_locator::parse_xml::get_worksheet_name_id_map(&workbook_two_sheets()).unwrap();
    assert_eq!(m, vec![(1, "Sheet1".to_string()), (2, "Sheet2".to_string())]);
    assert!(xlsx_img_locator::parse_xml::get_worksheet_name_id_map("<workbook").is_err());
}

#[test]
fn unzipped_paths_follow_the_package_layout() {
    let p = UnzippedPaths::from_unzip_dir("/tmp/stage/book");
    assert_eq!(p.unzip_dir.as_str(), "/tmp/stage/book");
    assert_eq!(p.media_dir.as_str(), "/tmp/stage/book/xl/media");
    assert_eq!(p.workbook_xml.as_str(), "/tmp/stage/book/xl/workbook.xml");
    assert_eq!(p.drawing_dir.as_str(), "/tmp/stage/book/xl/drawings");
    assert_eq!(p.drawing_rels_dir.as_str(), "/tmp/stage/book/xl/drawings/_rels");
    assert_eq!(p.worksheet_rels_dir.as_str(), "/tmp/stage/book/xl/worksheets/_rels");
}

#[test]
fn xlsx_path_accessors_expose_the_string() {
    let p = any_xlsx_path();
    assert_eq!(p.get_str(), "/data/book.xlsx");
    assert_eq!(p.as_pathbuf(), std::path::PathBuf::from("/data/book.xlsx"));
}
