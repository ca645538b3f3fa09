use fortune_generator::pipeline::{check_valid_and_existing_svg, SvgFile};
use std::io::Write;
use std::path::PathBuf;
use tempfile::{NamedTempFile, TempDir};

struct TempFile {
    _file: NamedTempFile,
    path: PathBuf,
}

fn create_temp_file(name: &str, contents: &str) -> TempFile {
    let (stem, ext) = name.split_once('.').unwrap();
    let suffix = format!(".{}", ext);
    let mut file = tempfile::Builder::new().prefix(stem).suffix(&suffix).tempfile().unwrap();
    file.write_all(contents.as_bytes()).unwrap();
    let path = file.path().to_path_buf();
    TempFile { _file: file, path }
}

fn open_svg(path: &PathBuf) -> Option<SvgFile> {
    SvgFile::new(path.to_string_lossy().into_owned(), path.is_file()).ok()
}

#[test]
fn test_svg_file_new_with_valid_svg() {
    let temp_file = create_temp_file("test.svg", "test");
    let svg_file = open_svg(&temp_file.path).unwrap();
    assert_eq!(PathBuf::from(&svg_file.path), temp_file.path);
}

#[test]
fn test_svg_file_new_with_txt_expect_error() {
    let temp_file = create_temp_file("test.txt", "test");
    assert!(open_svg(&temp_file.path).is_none());
}

#[test]
fn test_svg_file_new_with_non_existent_svg_expect_error() {
    let temp_dir = TempDir::new().unwrap();
    let path = temp_dir.path().join("nonexistent.svg");
    assert!(open_svg(&path).is_none());
}

#[test]
fn test_svg_file_to_pdf_same_name() {
    let temp_file = create_temp_file("test.svg", "test");
    let svg_file = open_svg(&temp_file.path).unwrap();
    let mut pdf_path = temp_file.path.clone();
    pdf_path.set_extension("pdf");
    assert_eq!(PathBuf::from(svg_file.pdf_path_same_name()), pdf_path);
}

#[test]
fn test_svg_file_display() {
    let temp_file = create_temp_file("test.svg", "test");
    let svg_file = open_svg(&temp_file.path).unwrap();
    assert_eq!(svg_file.display(), temp_file.path.to_string_lossy());
}

#[test]
fn svg_check_needs_an_existing_file() {
    assert!(check_valid_and_existing_svg("dir/page.svg", true));
    assert!(!check_valid_and_existing_svg("dir/page.svg", false));
    assert!(!check_valid_and_existing_svg("dir/page.svgz", true));
    assert!(!check_valid_and_existing_svg("dir/page", true));
}
