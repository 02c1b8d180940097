//! The result object of a load and its construction: the validated
//! package path, the staged-package layout, and the orchestration that
//! joins manifest, relationship files and drawing documents into the
//! worksheet-keyed image indexes.

use vstd::prelude::*;
use vstd::string::*;

use crate::errors::IoError;
use crate::errors::XlsxPathParseError;
use crate::parse_xml::drawing_anchors;
use crate::parse_xml::extract_drawing_anchors;
use crate::parse_xml::generate_col_row_abs_img_dict;
use crate::parse_xml::get_rid_img_dict;
use crate::parse_xml::get_sheet_and_drawing_xml_map;
use crate::parse_xml::get_worksheet_name_id_map;
use crate::parse_xml::index_from;
use crate::parse_xml::path_exists;
use crate::parse_xml::rel_lookup;
use crate::parse_xml::rel_lookup_x;
use crate::parse_xml::resolved_of;
use crate::parse_xml::rid_map_spec;
use crate::parse_xml::sheet_drawing_map;
use crate::parse_xml::sheet_entries;
use crate::parse_xml::CellEntryV;
use crate::parse_xml::CellImageIndex;
use crate::parse_xml::ResolvedV;
use crate::strutil::basename_spec;
use crate::strutil::basename_of;
use crate::strutil::ext_lower;
use crate::strutil::ext_spec;
use crate::strutil::i64_dec_str;
use crate::strutil::i64_to_string;
use crate::strutil::join_spec;
use crate::strutil::lower_seq;
use crate::strutil::str_eq;
use crate::xml::doc_find;
use crate::xml::doc_lookup;
use crate::xml::nodes_of;
use crate::xml::ns_decls_of;
use crate::xml::NamedDoc;
use crate::xml::NamedDocV;

verus! {

// ---------------------------------------------------------------------------
// The validated package path
// ---------------------------------------------------------------------------

/// A path that was seen on disk and carries the `xlsx` extension,
/// case-insensitively.
pub struct XlsxPath {
    inner: String,
}

impl View for XlsxPath {
    type V = Seq<char>;

    closed spec fn view(&self) -> Seq<char> {
        self.inner@
    }
}

#[verifier::external_type_specification]
#[verifier::external_body]
pub struct ExPathBuf(std::path::PathBuf);

/// Relies on `std::path::PathBuf::from`: builds the path value spelling
/// the same string.
#[verifier::external_body]
fn pathbuf_from(s: &str) -> std::path::PathBuf {
    std::path::PathBuf::from(s)
}

impl XlsxPath {
    /// Validates a candidate package path: it must name something present
    /// on disk and carry the `xlsx` extension (compared lowercased).
    /// Whether the path is on disk only the filesystem decides; each
    /// outcome's shape is pinned down here.
    pub fn parse(s: &str) -> (r: Result<XlsxPath, XlsxPathParseError>)
        ensures
            r matches Ok(p) ==> p@ == s@ && lower_seq(ext_spec(s@)) == "xlsx"@,
            r matches Err(XlsxPathParseError::FileNotFound { path }) ==> path@ == s@,
            r matches Err(XlsxPathParseError::InvalidFormat { expected, found }) ==> expected@
                == "xlsx"@ && found@ == lower_seq(ext_spec(s@)) && lower_seq(ext_spec(s@))
                != "xlsx"@,
    {
        if !path_exists(s) {
            return Err(XlsxPathParseError::FileNotFound { path: s.to_owned() });
        }
        let ext: String = ext_lower(s);
        if !str_eq(ext.as_str(), "xlsx") {
            Err(XlsxPathParseError::InvalidFormat { expected: "xlsx".to_owned(), found: ext })
        } else {
            Ok(XlsxPath { inner: s.to_owned() })
        }
    }

    /// Wraps a path an external validator has already checked: callers
    /// staging a package are guaranteed a path that exists and carries
    /// the expected container extension before the core runs.
    pub fn from_validated(s: &str) -> (r: XlsxPath)
        ensures
            r@ == s@,
    {
        XlsxPath { inner: s.to_owned() }
    }

    /// The path as a `PathBuf` value.
    pub fn as_pathbuf(&self) -> std::path::PathBuf {
        pathbuf_from(self.inner.as_str())
    }

    /// The path as the string it was parsed from.
    pub fn get_str(&self) -> (r: &str)
        ensures
            r@ == self@,
    {
        self.inner.as_str()
    }
}

impl core::str::FromStr for XlsxPath {
    type Err = XlsxPathParseError;

    fn from_str(s: &str) -> Result<XlsxPath, XlsxPathParseError> {
        XlsxPath::parse(s)
    }
}

// ---------------------------------------------------------------------------
// The staged package layout
// ---------------------------------------------------------------------------

/// The conventional layout of a staged package under one directory, every
/// path a plain string. The stager that unpacks the archive fills it.
pub struct UnzippedPaths {
    pub unzip_dir: String,
    pub media_dir: String,
    pub workbook_xml: String,
    pub drawing_dir: String,
    pub drawing_rels_dir: String,
    pub worksheet_rels_dir: String,
}

impl UnzippedPaths {
    /// Derives the conventional subdirectory layout from the staging
    /// directory alone.
    pub fn from_unzip_dir(unzip_dir: &str) -> (r: UnzippedPaths)
        ensures
            r.unzip_dir@ == unzip_dir@,
            r.media_dir@ == unzip_dir@ + "/xl/media"@,
            r.workbook_xml@ == unzip_dir@ + "/xl/workbook.xml"@,
            r.drawing_dir@ == unzip_dir@ + "/xl/drawings"@,
            r.drawing_rels_dir@ == unzip_dir@ + "/xl/drawings/_rels"@,
            r.worksheet_rels_dir@ == unzip_dir@ + "/xl/worksheets/_rels"@,
    {
        let mut media_dir: String = unzip_dir.to_owned();
        media_dir.append("/xl/media");
        let mut workbook_xml: String = unzip_dir.to_owned();
        workbook_xml.append("/xl/workbook.xml");
        let mut drawing_dir: String = unzip_dir.to_owned();
        drawing_dir.append("/xl/drawings");
        let mut drawing_rels_dir: String = unzip_dir.to_owned();
        drawing_rels_dir.append("/xl/drawings/_rels");
        let mut worksheet_rels_dir: String = unzip_dir.to_owned();
        worksheet_rels_dir.append("/xl/worksheets/_rels");
        UnzippedPaths {
            unzip_dir: unzip_dir.to_owned(),
            media_dir,
            workbook_xml,
            drawing_dir,
            drawing_rels_dir,
            worksheet_rels_dir,
        }
    }
}

/// The staged package's files, read off disk by the caller: the manifest
/// text, and the files of the three relevant directories, each under its
/// final path component. `None` contents mark files that exist but could
/// not be read.
pub struct StagedFiles {
    pub media_dir: String,
    pub drawing_dir: String,
    pub workbook_xml: Option<String>,
    pub worksheet_rels: Vec<NamedDoc>,
    pub drawings: Vec<NamedDoc>,
    pub drawing_rels: Vec<NamedDoc>,
}

pub ghost struct StagedFilesV {
    pub media_dir: Seq<char>,
    pub drawing_dir: Seq<char>,
    pub workbook_xml: Option<Seq<char>>,
    pub worksheet_rels: Seq<NamedDocV>,
    pub drawings: Seq<NamedDocV>,
    pub drawing_rels: Seq<NamedDocV>,
}

impl DeepView for StagedFiles {
    type V = StagedFilesV;

    open spec fn deep_view(&self) -> StagedFilesV {
        StagedFilesV {
            media_dir: self.media_dir@,
            drawing_dir: self.drawing_dir@,
            workbook_xml: self.workbook_xml.deep_view(),
            worksheet_rels: self.worksheet_rels.deep_view(),
            drawings: self.drawings.deep_view(),
            drawing_rels: self.drawing_rels.deep_view(),
        }
    }
}

// ---------------------------------------------------------------------------
// The per-worksheet plan
// ---------------------------------------------------------------------------

/// The worksheet-relationships filename the naming convention assigns to
/// a worksheet id.
pub open spec fn sheet_rels_name_spec(id: i64) -> Seq<char> {
    "sheet"@ + i64_dec_str(id as int) + ".xml.rels"@
}

/// Content of the drawing-relationships file named after a drawing
/// document's basename; `None` when the file is absent or unreadable.
pub open spec fn drawing_rels_content(files: Seq<NamedDocV>, dbase: Seq<char>) -> Option<
    Seq<char>,
> {
    match doc_lookup(files, dbase + ".rels"@) {
        None => None,
        Some(f) => f.content,
    }
}

/// What one worksheet contributes: its cell-to-image index, or the fatal
/// drawing-document path when that document exists but cannot be read or
/// parsed. A worksheet with no drawing association contributes an empty
/// index — absence of a drawing is normal.
pub open spec fn sheet_plan(
    id: i64,
    staged: StagedFilesV,
    dmap: Seq<(Seq<char>, Seq<char>)>,
) -> Result<Seq<CellEntryV>, Seq<char>> {
    match rel_lookup(dmap, sheet_rels_name_spec(id)) {
        None => Ok(Seq::empty()),
        Some(dpath) => {
            let dbase = basename_spec(dpath);
            match doc_lookup(staged.drawings, dbase) {
                None => Err(dpath),
                Some(d) => match d.content {
                    None => Err(dpath),
                    Some(t) => match (ns_decls_of(t), nodes_of(t)) {
                        (Some(decls), Some(nodes)) => Ok(
                            index_from(
                                resolved_of(
                                    drawing_anchors(decls, nodes),
                                    rid_map_spec(drawing_rels_content(staged.drawing_rels, dbase)),
                                ),
                                staged.media_dir,
                            ),
                        ),
                        _ => Err(dpath),
                    },
                },
            }
        },
    }
}

/// The resolved anchors one worksheet's drawing yields; empty on any of
/// the conditions under which the worksheet contributes no index.
pub open spec fn sheet_resolved(
    id: i64,
    staged: StagedFilesV,
    dmap: Seq<(Seq<char>, Seq<char>)>,
) -> Seq<ResolvedV> {
    match rel_lookup(dmap, sheet_rels_name_spec(id)) {
        None => Seq::empty(),
        Some(dpath) => {
            let dbase = basename_spec(dpath);
            match doc_lookup(staged.drawings, dbase) {
                None => Seq::empty(),
                Some(d) => match d.content {
                    None => Seq::empty(),
                    Some(t) => match (ns_decls_of(t), nodes_of(t)) {
                        (Some(decls), Some(nodes)) => resolved_of(
                            drawing_anchors(decls, nodes),
                            rid_map_spec(drawing_rels_content(staged.drawing_rels, dbase)),
                        ),
                        _ => Seq::empty(),
                    },
                },
            }
        },
    }
}

pub ghost struct SheetItemV {
    pub id: i64,
    pub name: Seq<char>,
    pub index: Seq<CellEntryV>,
}

/// The whole load's plan over the manifest's worksheets, in manifest
/// order; the earliest fatal drawing document wins.
pub open spec fn sheets_plan(
    sheets: Seq<(i64, Seq<char>)>,
    staged: StagedFilesV,
    dmap: Seq<(Seq<char>, Seq<char>)>,
) -> Result<Seq<SheetItemV>, Seq<char>>
    decreases sheets.len(),
{
    if sheets.len() == 0 {
        Ok(Seq::empty())
    } else {
        match sheets_plan(sheets.drop_last(), staged, dmap) {
            Err(e) => Err(e),
            Ok(front) => match sheet_plan(sheets.last().0, staged, dmap) {
                Err(p) => Err(p),
                Ok(idx) => Ok(
                    front.push(
                        SheetItemV { id: sheets.last().0, name: sheets.last().1, index: idx },
                    ),
                ),
            },
        }
    }
}

/// When every worksheet before position `i` contributes an index and the
/// worksheet at `i` fails fatally, that failure is the whole plan's.
pub proof fn lemma_sheets_plan_first_err(
    sheets: Seq<(i64, Seq<char>)>,
    staged: StagedFilesV,
    dmap: Seq<(Seq<char>, Seq<char>)>,
    i: int,
    p: Seq<char>,
)
    requires
        0 <= i < sheets.len(),
        sheets_plan(sheets.take(i), staged, dmap) is Ok,
        sheet_plan(sheets[i].0, staged, dmap) == Err::<Seq<CellEntryV>, Seq<char>>(p),
    ensures
        sheets_plan(sheets, staged, dmap) == Err::<Seq<SheetItemV>, Seq<char>>(p),
    decreases sheets.len(),
{
    if i == sheets.len() - 1 {
        assert(sheets.drop_last() =~= sheets.take(i));
    } else {
        assert(sheets.drop_last().take(i) =~= sheets.take(i));
        assert(sheets.drop_last()[i] == sheets[i]);
        lemma_sheets_plan_first_err(sheets.drop_last(), staged, dmap, i, p);
    }
}

/// Law: one package staged into two directories — same files, different
/// media directory — plans the same worksheets to the same outcome: the
/// same fatal path, or sheet for sheet the same ids, names and keys,
/// with path lists equal but for the media-directory prefix.
pub proof fn lemma_plan_media_prefix(
    sheets: Seq<(i64, Seq<char>)>,
    staged1: StagedFilesV,
    staged2: StagedFilesV,
    dmap: Seq<(Seq<char>, Seq<char>)>,
)
    requires
        staged1.drawing_dir == staged2.drawing_dir,
        staged1.workbook_xml == staged2.workbook_xml,
        staged1.worksheet_rels == staged2.worksheet_rels,
        staged1.drawings == staged2.drawings,
        staged1.drawing_rels == staged2.drawing_rels,
    ensures
        match (sheets_plan(sheets, staged1, dmap), sheets_plan(sheets, staged2, dmap)) {
            (Ok(it1), Ok(it2)) => it1.len() == it2.len() && forall|i: int|
                0 <= i < it1.len() ==> (#[trigger] it1[i].id) == it2[i].id && it1[i].name
                    == it2[i].name && crate::parse_xml::index_corr(
                    it1[i].index,
                    it2[i].index,
                    staged1.media_dir,
                    staged2.media_dir,
                ),
            (Err(p1), Err(p2)) => p1 == p2,
            _ => false,
        },
    decreases sheets.len(),
{
    if sheets.len() > 0 {
        lemma_plan_media_prefix(sheets.drop_last(), staged1, staged2, dmap);
        lemma_sheet_plan_media(sheets.last().0, staged1, staged2, dmap);
        match (sheets_plan(sheets.drop_last(), staged1, dmap), sheets_plan(
            sheets.drop_last(),
            staged2,
            dmap,
        )) {
            (Ok(f1), Ok(f2)) => {
                match (sheet_plan(sheets.last().0, staged1, dmap), sheet_plan(
                    sheets.last().0,
                    staged2,
                    dmap,
                )) {
                    (Ok(i1), Ok(i2)) => {
                        let it1 = f1.push(
                            SheetItemV {
                                id: sheets.last().0,
                                name: sheets.last().1,
                                index: i1,
                            },
                        );
                        let it2 = f2.push(
                            SheetItemV {
                                id: sheets.last().0,
                                name: sheets.last().1,
                                index: i2,
                            },
                        );
                        assert forall|i: int| 0 <= i < it1.len() implies (#[trigger] it1[i].id)
                            == it2[i].id && it1[i].name == it2[i].name
                            && crate::parse_xml::index_corr(
                            it1[i].index,
                            it2[i].index,
                            staged1.media_dir,
                            staged2.media_dir,
                        ) by {
                            if i < f1.len() {
                                assert(it1[i] == f1[i] && it2[i] == f2[i]);
                            }
                        }
                    },
                    _ => {},
                }
            },
            _ => {},
        }
    }
}

/// One worksheet's plan under two media directories: the same fatal
/// path, or indexes equal but for the media prefix.
proof fn lemma_sheet_plan_media(
    id: i64,
    staged1: StagedFilesV,
    staged2: StagedFilesV,
    dmap: Seq<(Seq<char>, Seq<char>)>,
)
    requires
        staged1.drawing_dir == staged2.drawing_dir,
        staged1.workbook_xml == staged2.workbook_xml,
        staged1.worksheet_rels == staged2.worksheet_rels,
        staged1.drawings == staged2.drawings,
        staged1.drawing_rels == staged2.drawing_rels,
    ensures
        match (sheet_plan(id, staged1, dmap), sheet_plan(id, staged2, dmap)) {
            (Ok(i1), Ok(i2)) => crate::parse_xml::index_corr(
                i1,
                i2,
                staged1.media_dir,
                staged2.media_dir,
            ),
            (Err(p1), Err(p2)) => p1 == p2,
            _ => false,
        },
{
    match rel_lookup(dmap, sheet_rels_name_spec(id)) {
        None => {
            assert(crate::parse_xml::index_corr(
                Seq::<CellEntryV>::empty(),
                Seq::<CellEntryV>::empty(),
                staged1.media_dir,
                staged2.media_dir,
            ));
        },
        Some(dpath) => {
            let dbase = basename_spec(dpath);
            match doc_lookup(staged1.drawings, dbase) {
                None => {},
                Some(d) => match d.content {
                    None => {},
                    Some(t) => match (ns_decls_of(t), nodes_of(t)) {
                        (Some(decls), Some(nodes)) => {
                            crate::parse_xml::lemma_index_media_prefix(
                                resolved_of(
                                    drawing_anchors(decls, nodes),
                                    rid_map_spec(
                                        drawing_rels_content(staged1.drawing_rels, dbase),
                                    ),
                                ),
                                staged1.media_dir,
                                staged2.media_dir,
                            );
                        },
                        _ => {},
                    },
                },
            }
        },
    }
}

/// The name-keyed view of the plan's items.
pub open spec fn name_keyed(items: Seq<SheetItemV>) -> Seq<(Seq<char>, Seq<CellEntryV>)> {
    items.map_values(|it: SheetItemV| (it.name, it.index))
}

/// The id-keyed view of the plan's items.
pub open spec fn id_keyed(items: Seq<SheetItemV>) -> Seq<(i64, Seq<CellEntryV>)> {
    items.map_values(|it: SheetItemV| (it.id, it.index))
}

/// Law: the name-keyed and the id-keyed views of one load hold, position
/// by position, structurally equal cell-to-image indexes: both are
/// populated from a single pass over the plan's items.
pub proof fn lemma_both_views_equal(items: Seq<SheetItemV>)
    ensures
        name_keyed(items).len() == id_keyed(items).len(),
        forall|i: int| 0 <= i < items.len() ==> #[trigger] name_keyed(items)[i].1 == id_keyed(
            items,
        )[i].1,
        forall|i: int| 0 <= i < items.len() ==> #[trigger] name_keyed(items)[i].0 == items[i].name
            && id_keyed(items)[i].0 == items[i].id,
{
}

// ---------------------------------------------------------------------------
// The result object
// ---------------------------------------------------------------------------

/// The immutable result of one load: the validated input path, the
/// staging directory, the manifest's id/name pairs, and the
/// cell-to-image index of every worksheet, keyed both by name and by id.
pub struct ImgLoader {
    pub xlsx_path: XlsxPath,
    pub unzip_dir: String,
    pub worksheet_name_id_map: Vec<(i64, String)>,
    pub worksheet_name_img_map: Vec<(String, CellImageIndex)>,
    pub worksheet_id_img_map: Vec<(i64, CellImageIndex)>,
}

impl ImgLoader {
    /// Builds the result object from the staged package's files: reads
    /// the manifest, discovers each worksheet's drawing by the
    /// `sheet{id}.xml.rels` naming convention, extracts its anchors in
    /// the dialect the drawing announces, joins them with the drawing's
    /// relationship map, and fills both worksheet-keyed views in one
    /// pass. Manifest corruption, an unreadable or unparsable drawing
    /// document, and a referenced image file missing from the media
    /// directory abort the load.
    #[verifier::loop_isolation(false)]
    pub fn new(xlsx_path: &XlsxPath, unzip_dir: &str, files: &StagedFiles) -> (r: Result<
        ImgLoader,
        IoError,
    >)
        ensures
            r matches Ok(l) ==> ({
                let staged = files.deep_view();
                let dmap = sheet_drawing_map(staged.worksheet_rels, staged.drawing_dir);
                &&& l.xlsx_path@ == xlsx_path@
                &&& l.unzip_dir@ == unzip_dir@
                &&& staged.workbook_xml matches Some(wbt)
                &&& nodes_of(wbt) matches Some(wnodes)
                &&& sheet_entries(wnodes, 0) matches Some(sheets)
                &&& l.worksheet_name_id_map.deep_view() == sheets
                &&& sheets_plan(sheets, staged, dmap) matches Ok(items)
                &&& l.worksheet_name_img_map.deep_view() == name_keyed(items)
                &&& l.worksheet_id_img_map.deep_view() == id_keyed(items)
            }),
            r matches Err(e) ==> ({
                let staged = files.deep_view();
                let dmap = sheet_drawing_map(staged.worksheet_rels, staged.drawing_dir);
                match e {
                    IoError::ManifestError { .. } => match staged.workbook_xml {
                        None => true,
                        Some(wbt) => match nodes_of(wbt) {
                            None => true,
                            Some(wnodes) => sheet_entries(wnodes, 0) is None,
                        },
                    },
                    IoError::DrawingError { path } => match staged.workbook_xml {
                        Some(wbt) => match nodes_of(wbt) {
                            Some(wnodes) => match sheet_entries(wnodes, 0) {
                                Some(sheets) => sheets_plan(sheets, staged, dmap) == Err::<
                                    Seq<SheetItemV>,
                                    Seq<char>,
                                >(path@),
                                None => false,
                            },
                            None => false,
                        },
                        None => false,
                    },
                    IoError::MissingImage { path } => match staged.workbook_xml {
                        Some(wbt) => match nodes_of(wbt) {
                            Some(wnodes) => match sheet_entries(wnodes, 0) {
                                Some(sheets) => exists|si: int, k: int|
                                    0 <= si < sheets.len() && 0 <= k < sheet_resolved(
                                        sheets[si].0,
                                        staged,
                                        dmap,
                                    ).len() && path@ == join_spec(
                                        staged.media_dir,
                                        sheet_resolved(sheets[si].0, staged, dmap)[k].basename,
                                    ),
                                None => false,
                            },
                            None => false,
                        },
                        None => false,
                    },
                    _ => false,
                }
            }),
    {
        let ghost staged = files.deep_view();
        let wb_text: &String = match &files.workbook_xml {
            None => {
                return Err(
                    IoError::ManifestError { msg: "workbook manifest is missing".to_owned() },
                );
            },
            Some(t) => t,
        };
        let sheets: Vec<(i64, String)> = match get_worksheet_name_id_map(wb_text.as_str()) {
            Err(e) => {
                return Err(e);
            },
            Ok(v) => v,
        };
        let ghost sheetsv = sheets.deep_view();
        let dmap: Vec<(String, String)> = get_sheet_and_drawing_xml_map(
            &files.worksheet_rels,
            files.drawing_dir.as_str(),
        );
        let ghost dmapv = dmap.deep_view();
        proof {
            assert(dmapv == sheet_drawing_map(staged.worksheet_rels, staged.drawing_dir));
        }
        let n: usize = sheets.len();
        let mut name_map: Vec<(String, CellImageIndex)> = Vec::new();
        let mut id_map: Vec<(i64, CellImageIndex)> = Vec::new();
        let mut i: usize = 0;
        proof {
            assert(sheetsv.take(0) =~= Seq::<(i64, Seq<char>)>::empty());
            assert(name_map.deep_view() =~= Seq::<(Seq<char>, Seq<CellEntryV>)>::empty());
            assert(id_map.deep_view() =~= Seq::<(i64, Seq<CellEntryV>)>::empty());
            assert(name_keyed(Seq::<SheetItemV>::empty()) =~= Seq::<
                (Seq<char>, Seq<CellEntryV>),
            >::empty());
            assert(id_keyed(Seq::<SheetItemV>::empty()) =~= Seq::<(i64, Seq<CellEntryV>)>::empty());
        }
        while i < n
            invariant
                0 <= i <= n,
                sheets_plan(sheetsv.take(i as int), staged, dmapv) matches Ok(items)
                    && name_map.deep_view() == name_keyed(items) && id_map.deep_view() == id_keyed(
                    items,
                ),
            decreases n - i,
        {
            proof {
                assert(sheetsv[i as int] == sheets@[i as int].deep_view());
                assert(sheetsv.take(i as int + 1).drop_last() =~= sheetsv.take(i as int));
                assert(sheetsv.take(i as int + 1).last() == sheetsv[i as int]);
            }
            let id: i64 = sheets[i].0;
            let name: &String = &sheets[i].1;
            let mut rels_name: String = "sheet".to_owned();
            rels_name.append(i64_to_string(id).as_str());
            rels_name.append(".xml.rels");
            proof {
                assert(rels_name@ == sheet_rels_name_spec(id));
            }
            let idx: CellImageIndex = match rel_lookup_x(&dmap, rels_name.as_str()) {
                None => {
                    proof {
                        assert(sheet_plan(id, staged, dmapv) == Ok::<Seq<CellEntryV>, Seq<char>>(
                            Seq::empty(),
                        ));
                    }
                    let empty_idx: CellImageIndex = CellImageIndex { entries: Vec::new() };
                    proof {
                        assert(empty_idx.deep_view() =~= Seq::<CellEntryV>::empty());
                    }
                    empty_idx
                },
                Some(dpath) => {
                    let dbase: &str = basename_of(dpath.as_str());
                    let found: Option<usize> = doc_find(&files.drawings, dbase);
                    let k: usize = match found {
                        None => {
                            proof {
                                assert(sheet_plan(id, staged, dmapv) == Err::<
                                    Seq<CellEntryV>,
                                    Seq<char>,
                                >(dpath@));
                                lemma_sheets_plan_first_err(
                                    sheetsv,
                                    staged,
                                    dmapv,
                                    i as int,
                                    dpath@,
                                );
                            }
                            return Err(IoError::DrawingError { path: dpath });
                        },
                        Some(k) => k,
                    };
                    proof {
                        assert(staged.drawings[k as int] == files.drawings@[k as int].deep_view());
                    }
                    let text: &String = match &files.drawings[k].content {
                        None => {
                            proof {
                                assert(sheet_plan(id, staged, dmapv) == Err::<
                                    Seq<CellEntryV>,
                                    Seq<char>,
                                >(dpath@));
                                lemma_sheets_plan_first_err(
                                    sheetsv,
                                    staged,
                                    dmapv,
                                    i as int,
                                    dpath@,
                                );
                            }
                            return Err(IoError::DrawingError { path: dpath });
                        },
                        Some(t) => t,
                    };
                    let anchors = match extract_drawing_anchors(text.as_str()) {
                        None => {
                            proof {
                                assert(sheet_plan(id, staged, dmapv) == Err::<
                                    Seq<CellEntryV>,
                                    Seq<char>,
                                >(dpath@));
                                lemma_sheets_plan_first_err(
                                    sheetsv,
                                    staged,
                                    dmapv,
                                    i as int,
                                    dpath@,
                                );
                            }
                            return Err(IoError::DrawingError { path: dpath });
                        },
                        Some(a) => a,
                    };
                    let mut drels_name: String = dbase.to_owned();
                    drels_name.append(".rels");
                    let rels_content: Option<&str> = match doc_find(
                        &files.drawing_rels,
                        drels_name.as_str(),
                    ) {
                        None => None,
                        Some(j) => {
                            proof {
                                assert(staged.drawing_rels[j as int]
                                    == files.drawing_rels@[j as int].deep_view());
                            }
                            match &files.drawing_rels[j].content {
                                None => None,
                                Some(c) => Some(c.as_str()),
                            }
                        },
                    };
                    proof {
                        assert(rels_content.deep_view() == drawing_rels_content(
                            staged.drawing_rels,
                            dbase@,
                        ));
                    }
                    let rid: Vec<(String, String)> = get_rid_img_dict(rels_content);
                    match generate_col_row_abs_img_dict(
                        &anchors,
                        &rid,
                        files.media_dir.as_str(),
                    ) {
                        Err(e) => {
                            proof {
                                let rsv = resolved_of(anchors.deep_view(), rid.deep_view());
                                assert(sheet_resolved(id, staged, dmapv) == rsv);
                                assert(sheetsv[i as int].0 == id);
                                match &e {
                                    IoError::MissingImage { path } => {
                                        let k = choose|k: int|
                                            0 <= k < rsv.len() && path@ == join_spec(
                                                staged.media_dir,
                                                rsv[k].basename,
                                            );
                                        assert(0 <= k < sheet_resolved(
                                            sheetsv[i as int].0,
                                            staged,
                                            dmapv,
                                        ).len() && path@ == join_spec(
                                            staged.media_dir,
                                            sheet_resolved(
                                                sheetsv[i as int].0,
                                                staged,
                                                dmapv,
                                            )[k].basename,
                                        ));
                                    },
                                    _ => {},
                                }
                            }
                            return Err(e);
                        },
                        Ok(built) => {
                            proof {
                                assert(sheet_plan(id, staged, dmapv) == Ok::<
                                    Seq<CellEntryV>,
                                    Seq<char>,
                                >(built.deep_view()));
                            }
                            built
                        },
                    }
                },
            };
            let idx2: CellImageIndex = idx.duplicate();
            let ghost namev = name@;
            let ghost idxv = idx.deep_view();
            let ghost items0 = match sheets_plan(sheetsv.take(i as int), staged, dmapv) {
                Ok(its) => its,
                Err(_) => Seq::empty(),
            };
            let ghost nm0 = name_map.deep_view();
            let ghost im0 = id_map.deep_view();
            name_map.push((name.clone(), idx2));
            id_map.push((id, idx));
            proof {
                let item = SheetItemV { id: id, name: namev, index: idxv };
                let items1 = items0.push(item);
                assert(sheets_plan(sheetsv.take(i as int + 1), staged, dmapv) == Ok::<
                    Seq<SheetItemV>,
                    Seq<char>,
                >(items1));
                assert(name_map.deep_view() =~= nm0.push((namev, idxv)));
                assert(id_map.deep_view() =~= im0.push((id, idxv)));
                assert forall|m: int| 0 <= m < items1.len() implies name_keyed(items1)[m]
                    == name_map.deep_view()[m] && id_keyed(items1)[m] == id_map.deep_view()[m] by {
                    if m < items0.len() {
                        assert(items1[m] == items0[m]);
                        assert(name_keyed(items0)[m] == (items0[m].name, items0[m].index));
                        assert(id_keyed(items0)[m] == (items0[m].id, items0[m].index));
                    } else {
                        assert(items1[m] == item);
                    }
                }
                assert(name_map.deep_view() =~= name_keyed(items1));
                assert(id_map.deep_view() =~= id_keyed(items1));
            }
            i = i + 1;
        }
        proof {
            assert(sheetsv.take(n as int) =~= sheetsv);
        }
        Ok(
            ImgLoader {
                xlsx_path: XlsxPath { inner: xlsx_path.inner.clone() },
                unzip_dir: unzip_dir.to_owned(),
                worksheet_name_id_map: sheets,
                worksheet_name_img_map: name_map,
                worksheet_id_img_map: id_map,
            },
        )
    }

    /// The cell-to-image index of the worksheet with this name, first
    /// manifest entry winning.
    pub fn get_img_map_by_name(&self, name: &str) -> (r: Option<&CellImageIndex>)
        ensures
            match name_assoc(self.worksheet_name_img_map.deep_view(), name@) {
                Some(idxv) => r matches Some(idx) && idx.deep_view() == idxv,
                None => r is None,
            },
    {
        let ghost mv = self.worksheet_name_img_map.deep_view();
        let n: usize = self.worksheet_name_img_map.len();
        let mut i: usize = 0;
        proof {
            assert(mv.skip(0) =~= mv);
        }
        while i < n
            invariant
                0 <= i <= n,
                n == self.worksheet_name_img_map@.len(),
                mv == self.worksheet_name_img_map.deep_view(),
                name_assoc(mv, name@) == name_assoc(mv.skip(i as int), name@),
            decreases n - i,
        {
            proof {
                assert(mv.skip(i as int)[0] == mv[i as int]);
                assert(mv[i as int] == self.worksheet_name_img_map@[i as int].deep_view());
                assert(mv.skip(i as int).drop_first() =~= mv.skip(i as int + 1));
            }
            if str_eq(self.worksheet_name_img_map[i].0.as_str(), name) {
                return Some(&self.worksheet_name_img_map[i].1);
            }
            i = i + 1;
        }
        proof {
            assert(mv.skip(n as int) =~= Seq::<(Seq<char>, Seq<CellEntryV>)>::empty());
        }
        None
    }

    /// The cell-to-image index of the worksheet with this id, first
    /// manifest entry winning.
    pub fn get_img_map_by_id(&self, id: i64) -> (r: Option<&CellImageIndex>)
        ensures
            match id_assoc(self.worksheet_id_img_map.deep_view(), id) {
                Some(idxv) => r matches Some(idx) && idx.deep_view() == idxv,
                None => r is None,
            },
    {
        let ghost mv = self.worksheet_id_img_map.deep_view();
        let n: usize = self.worksheet_id_img_map.len();
        let mut i: usize = 0;
        proof {
            assert(mv.skip(0) =~= mv);
        }
        while i < n
            invariant
                0 <= i <= n,
                n == self.worksheet_id_img_map@.len(),
                mv == self.worksheet_id_img_map.deep_view(),
                id_assoc(mv, id) == id_assoc(mv.skip(i as int), id),
            decreases n - i,
        {
            proof {
                assert(mv.skip(i as int)[0] == mv[i as int]);
                assert(mv[i as int] == self.worksheet_id_img_map@[i as int].deep_view());
                assert(mv.skip(i as int).drop_first() =~= mv.skip(i as int + 1));
            }
            if self.worksheet_id_img_map[i].0 == id {
                return Some(&self.worksheet_id_img_map[i].1);
            }
            i = i + 1;
        }
        proof {
            assert(mv.skip(n as int) =~= Seq::<(i64, Seq<CellEntryV>)>::empty());
        }
        None
    }
}

/// The index keyed by the first entry with this worksheet name.
pub open spec fn name_assoc(m: Seq<(Seq<char>, Seq<CellEntryV>)>, name: Seq<char>) -> Option<
    Seq<CellEntryV>,
>
    decreases m.len(),
{
    if m.len() == 0 {
        None
    } else if m[0].0 == name {
        Some(m[0].1)
    } else {
        name_assoc(m.drop_first(), name)
    }
}

/// The index keyed by the first entry with this worksheet id.
pub open spec fn id_assoc(m: Seq<(i64, Seq<CellEntryV>)>, id: i64) -> Option<Seq<CellEntryV>>
    decreases m.len(),
{
    if m.len() == 0 {
        None
    } else if m[0].0 == id {
        Some(m[0].1)
    } else {
        id_assoc(m.drop_first(), id)
    }
}

} // verus!
