//! End-to-end and per-pass tests of the conversion pipeline, driven
//! through real zip archives and in-memory entry sets.

use std::io::Read;
use std::io::Write;

use epub_converter::entries::get_file_from_files;
use epub_converter::entries::get_name_from_data;
use epub_converter::entries::BinaryFileData;
use epub_converter::entries::EpubError;
use epub_converter::entries::FileData;
use epub_converter::epub_converter::convert_epub;
use epub_converter::epub_converter::EpubConverter;

fn v(s: &str) -> Vec<u8> {
    s.as_bytes().to_vec()
}

fn make_zip(entries: &[(&str, &[u8])]) -> Vec<u8> {
    let mut w = zip::ZipWriter::new(std::io::Cursor::new(Vec::new()));
    let options = zip::write::SimpleFileOptions::default();
    for (name, data) in entries {
        w.start_file(*name, options).unwrap();
        w.write_all(data).unwrap();
    }
    w.finish().unwrap().into_inner()
}

fn read_zip(bytes: &[u8]) -> Vec<(String, Vec<u8>)> {
    let mut a = zip::ZipArchive::new(std::io::Cursor::new(bytes.to_vec())).unwrap();
    let mut out = Vec::new();
    for i in 0..a.len() {
        let mut f = a.by_index(i).unwrap();
        let name = f.name().to_string();
        let mut d = Vec::new();
        f.read_to_end(&mut d).unwrap();
        out.push((name, d));
    }
    out
}

fn count_sub(hay: &[u8], needle: &[u8]) -> usize {
    let mut n = 0;
    let mut i = 0;
    while i + needle.len() <= hay.len() {
        if &hay[i..i + needle.len()] == needle {
            n += 1;
            i += needle.len();
        } else {
            i += 1;
        }
    }
    n
}

const CONTAINER_EN: &str = "<?xml version=\"1.0\"?>\n<container><rootfiles><rootfile full-path=\"content.opf\" media-type=\"application/oebps-package+xml\"/></rootfiles></container>";

fn opf_with(lang_element: &str) -> String {
    format!(
        "<?xml version=\"1.0\"?>\n<package><metadata><dc:title>T</dc:title>{}</metadata></package>",
        lang_element
    )
}

#[test]
fn encoding_prepends_declaration() {
    let page = FileData::new(v("ch1.xhtml"), v("<html><body id=\"c1\">Hi</body></html>"));
    let mut c = EpubConverter::from_parts(vec![page], Vec::new());
    c.fix_encoding();
    let fixed = c.altered_content(&v("ch1.xhtml")).unwrap();
    assert_eq!(
        fixed,
        v("<?xml version=\"1.0\" encoding=\"utf-8\"?>\n<html><body id=\"c1\">Hi</body></html>")
    );
    assert_eq!(
        c.fixed_problems,
        vec![v("Prefixed correct encoding to html for ch1.xhtml")]
    );
}

#[test]
fn encoding_keeps_existing_declaration() {
    let content = "  \n<?xml version=\"1.0\" encoding=\"UTF-8\"?>\n<html></html>";
    let page = FileData::new(v("a.html"), v(content));
    let mut c = EpubConverter::from_parts(vec![page], Vec::new());
    c.fix_encoding();
    let fixed = c.altered_content(&v("a.html")).unwrap();
    assert_eq!(
        fixed,
        v("<?xml version=\"1.0\" encoding=\"UTF-8\"?>\n<html></html>")
    );
    assert!(c.fixed_problems.is_empty());
}

#[test]
fn encoding_single_quotes_accepted() {
    let content = "<?xml version='1.0' encoding='iso-8859-1' standalone='yes'?><html></html>";
    let page = FileData::new(v("a.xhtml"), v(content));
    let mut c = EpubConverter::from_parts(vec![page], Vec::new());
    c.fix_encoding();
    assert_eq!(c.altered_content(&v("a.xhtml")).unwrap(), v(content));
    assert!(c.fixed_problems.is_empty());
}

#[test]
fn encoding_ignores_non_page_entries() {
    let css = FileData::new(v("style.css"), v("body { color: red }"));
    let mut c = EpubConverter::from_parts(vec![css], Vec::new());
    c.fix_encoding();
    assert!(c.altered_content(&v("style.css")).is_none());
    assert!(c.fixed_problems.is_empty());
}

#[test]
fn link_repair_replaces_token() {
    let a = FileData::new(v("a.xhtml"), v("<html><body id=\"anchor1\">A</body></html>"));
    let b = FileData::new(
        v("b.xhtml"),
        v("<html><body><a href=\"a.xhtml + # + anchor1\">go</a></body></html>"),
    );
    let mut c = EpubConverter::from_parts(vec![a, b], Vec::new());
    c.fix_body_id_link();
    let fixed = c.altered_content(&v("b.xhtml")).unwrap();
    assert_eq!(
        fixed,
        v("<html><body><a href=\"a.xhtml\">go</a></body></html>")
    );
    assert_eq!(
        c.fixed_problems,
        vec![v("Replaced link target with a.xhtml + # + anchor1 in a.xhtml in file b.xhtml")]
    );
}

#[test]
fn link_repair_no_token_no_change() {
    let a = FileData::new(v("a.xhtml"), v("<html><body>A</body></html>"));
    let b = FileData::new(v("b.xhtml"), v("<html><body>B</body></html>"));
    let mut c = EpubConverter::from_parts(vec![a, b], Vec::new());
    c.fix_body_id_link();
    assert!(c.altered_content(&v("a.xhtml")).is_none());
    assert!(c.altered_content(&v("b.xhtml")).is_none());
    assert!(c.fixed_problems.is_empty());
}

#[test]
fn language_replaced_when_unsupported() {
    let container = FileData::new(v("META-INF/container.xml"), v(CONTAINER_EN));
    let opf = FileData::new(
        v("content.opf"),
        opf_with("<dc:language>fr</dc:language>").into_bytes(),
    );
    let mut c = EpubConverter::from_parts(vec![container, opf], Vec::new());
    assert_eq!(c.fix_book_language(), Ok(()));
    let fixed = c.altered_content(&v("content.opf")).unwrap();
    assert_eq!(count_sub(&fixed, b"<dc:language>en</dc:language>"), 1);
    assert_eq!(count_sub(&fixed, b"<dc:language>fr</dc:language>"), 0);
    assert_eq!(
        c.fixed_problems,
        vec![v("Fixed language to be supported language from fr")]
    );
}

#[test]
fn language_kept_when_supported() {
    let container = FileData::new(v("META-INF/container.xml"), v(CONTAINER_EN));
    let opf = FileData::new(
        v("content.opf"),
        opf_with("<dc:language>en</dc:language>").into_bytes(),
    );
    let mut c = EpubConverter::from_parts(vec![container, opf], Vec::new());
    assert_eq!(c.fix_book_language(), Ok(()));
    assert!(c.altered_content(&v("content.opf")).is_none());
    assert!(c.fixed_problems.is_empty());
}

#[test]
fn language_added_when_missing() {
    let container = FileData::new(v("META-INF/container.xml"), v(CONTAINER_EN));
    let opf = FileData::new(v("content.opf"), opf_with("").into_bytes());
    let mut c = EpubConverter::from_parts(vec![container, opf], Vec::new());
    assert_eq!(c.fix_book_language(), Ok(()));
    let fixed = c.altered_content(&v("content.opf")).unwrap();
    assert_eq!(count_sub(&fixed, b"<dc:language>en</dc:language>"), 1);
    assert_eq!(c.fixed_problems, vec![v("Added missing language tag")]);
}

#[test]
fn language_missing_container_is_fatal() {
    let page = FileData::new(v("a.xhtml"), v("<html></html>"));
    let mut c = EpubConverter::from_parts(vec![page], Vec::new());
    assert_eq!(c.fix_book_language(), Err(EpubError::MissingContainer));
    assert!(c.fixed_problems.is_empty());
}

#[test]
fn language_missing_rootfile_is_fatal() {
    let container = FileData::new(
        v("META-INF/container.xml"),
        v("<container><rootfiles><rootfile full-path=\"content.opf\" media-type=\"text/plain\"/></rootfiles></container>"),
    );
    let opf = FileData::new(v("content.opf"), opf_with("").into_bytes());
    let mut c = EpubConverter::from_parts(vec![container, opf], Vec::new());
    assert_eq!(c.fix_book_language(), Err(EpubError::MissingRootfile));
}

#[test]
fn language_missing_opf_is_fatal() {
    let container = FileData::new(v("META-INF/container.xml"), v(CONTAINER_EN));
    let mut c = EpubConverter::from_parts(vec![container], Vec::new());
    assert_eq!(c.fix_book_language(), Err(EpubError::MissingOpf));
}

#[test]
fn language_missing_metadata_is_fatal() {
    let container = FileData::new(v("META-INF/container.xml"), v(CONTAINER_EN));
    let opf = FileData::new(v("content.opf"), v("<package><spine></spine></package>"));
    let mut c = EpubConverter::from_parts(vec![container, opf], Vec::new());
    assert_eq!(c.fix_book_language(), Err(EpubError::MissingMetadata));
}

#[test]
fn convert_full_pipeline() {
    let opf = opf_with("<dc:language>fr</dc:language>");
    let input = make_zip(&[
        ("mimetype", b"application/epub+zip"),
        ("META-INF/container.xml", CONTAINER_EN.as_bytes()),
        ("content.opf", opf.as_bytes()),
        ("ch1.xhtml", b"<html><body id=\"c1\">Hi</body></html>"),
        ("img.png", &[137u8, 80, 78, 71, 0, 1, 2, 3]),
    ]);
    let (out, problems) = convert_epub(&input).unwrap();
    let entries = read_zip(&out);
    let names: Vec<&str> = entries.iter().map(|e| e.0.as_str()).collect();
    assert_eq!(
        names,
        vec!["mimetype", "META-INF/container.xml", "content.opf", "ch1.xhtml", "img.png"]
    );
    assert_eq!(entries[4].1, vec![137u8, 80, 78, 71, 0, 1, 2, 3]);
    assert_eq!(
        entries[3].1,
        v("<?xml version=\"1.0\" encoding=\"utf-8\"?>\n<html><body id=\"c1\">Hi</body></html>")
    );
    assert_eq!(count_sub(&entries[2].1, b"<dc:language>en</dc:language>"), 1);
    assert_eq!(
        problems,
        vec![
            v("Prefixed correct encoding to html for ch1.xhtml"),
            v("Fixed language to be supported language from fr"),
        ]
    );
}

#[test]
fn convert_second_run_is_identity() {
    let opf = opf_with("<dc:language>fr</dc:language>");
    let input = make_zip(&[
        ("mimetype", b"application/epub+zip"),
        ("META-INF/container.xml", CONTAINER_EN.as_bytes()),
        ("content.opf", opf.as_bytes()),
        ("ch1.xhtml", b"<html><body>Hi</body></html>"),
        ("img.png", &[1u8, 2, 3]),
    ]);
    let (out1, problems1) = convert_epub(&input).unwrap();
    assert_eq!(problems1.len(), 2);
    let (out2, problems2) = convert_epub(&out1).unwrap();
    assert!(problems2.is_empty());
    assert_eq!(read_zip(&out1), read_zip(&out2));
}

#[test]
fn convert_rejects_garbage_input() {
    let garbage = vec![0u8, 1, 2, 3, 4, 5];
    assert_eq!(convert_epub(&garbage), Err(EpubError::BadArchive));
}

#[test]
fn convert_missing_container_is_fatal() {
    let input = make_zip(&[("mimetype", b"application/epub+zip")]);
    assert_eq!(convert_epub(&input), Err(EpubError::MissingContainer));
}

#[test]
fn reader_classifies_and_skips_directories() {
    let mut w = zip::ZipWriter::new(std::io::Cursor::new(Vec::new()));
    let options = zip::write::SimpleFileOptions::default();
    w.add_directory("imgs", options).unwrap();
    w.start_file("style.css", options).unwrap();
    w.write_all(b"body {}").unwrap();
    w.start_file("imgs/pic.png", options).unwrap();
    w.write_all(&[9u8, 9, 9]).unwrap();
    let input = w.finish().unwrap().into_inner();

    let mut c = EpubConverter::new();
    c.read_epub(&input).unwrap();
    let out = c.compose_output_entries();
    assert_eq!(out.len(), 2);
    assert_eq!(out[0].name, v("style.css"));
    assert_eq!(out[0].data, v("body {}"));
    assert_eq!(out[1].name, v("imgs/pic.png"));
    assert_eq!(out[1].data, vec![9u8, 9, 9]);
}

#[test]
fn reader_degrades_invalid_utf8_text_to_empty() {
    let input = make_zip(&[("broken.xml", &[0xffu8, 0xfe, 0x00])]);
    let mut c = EpubConverter::new();
    c.read_epub(&input).unwrap();
    let out = c.compose_output_entries();
    assert_eq!(out.len(), 1);
    assert_eq!(out[0].name, v("broken.xml"));
    assert!(out[0].data.is_empty());
}

#[test]
fn overlay_last_write_wins() {
    let page = FileData::new(v("a.xhtml"), v("x + # + y"));
    let bin = BinaryFileData::new(v("b.bin"), vec![1u8, 2]);
    let mut c = EpubConverter::from_parts(vec![page], vec![bin]);
    c.fix_encoding();
    let after_enc = c.altered_content(&v("a.xhtml")).unwrap();
    assert!(after_enc.starts_with(b"<?xml"));
    let out = c.compose_output_entries();
    assert_eq!(out[0].data, after_enc);
    assert_eq!(out[1].data, vec![1u8, 2]);
}

#[test]
fn helper_name_and_lookup() {
    let a = FileData::new(v("x.css"), v("a"));
    let b = FileData::new(v("x.css"), v("b"));
    assert_eq!(get_name_from_data(&a), v("x.css"));
    let files = vec![a, b];
    let found = get_file_from_files(&files, &v("x.css")).unwrap();
    assert_eq!(found.file_data, v("a"));
    assert!(get_file_from_files(&files, &v("y.css")).is_none());
}

#[test]
fn suffix_match_classifies_bare_suffix_as_text() {
    let input = make_zip(&[
        ("img.png", &[5u8, 6]),
        ("fooxhtml", b"plain"),
    ]);
    let mut c = EpubConverter::new();
    c.read_epub(&input).unwrap();
    let out = c.compose_output_entries();
    assert_eq!(out[0].name, v("fooxhtml"));
    assert_eq!(out[1].name, v("img.png"));
}
