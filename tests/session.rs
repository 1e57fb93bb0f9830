use kompari::difference::FileContents;
use kompari::listing::{find_file, list_image_names, DirScan, ImageDir, ImageFile};
use kompari::pair::pairs_from_paths;
use kompari::report::{embed_png_url, html_size};
use kompari::{CompareConfig, Difference, Error, ImageDiff, ImageInfoResult, Pair, ReportConfig, Size};
use std::io::Cursor;

fn png(width: u32, height: u32, pixel: [u8; 3]) -> Vec<u8> {
    let image = image::RgbImage::from_pixel(width, height, image::Rgb(pixel));
    let mut out = Vec::new();
    image
        .write_to(&mut Cursor::new(&mut out), image::ImageFormat::Png)
        .unwrap();
    out
}

fn dir(path: &str, files: &[(&str, [u8; 3])]) -> ImageDir {
    ImageDir {
        path: path.to_string(),
        scan: DirScan::Files(
            files
                .iter()
                .map(|(name, pixel)| ImageFile {
                    name: name.to_string(),
                    contents: FileContents::Bytes(png(2, 2, *pixel)),
                })
                .collect(),
        ),
    }
}

fn titles(pairs: &[Pair]) -> Vec<String> {
    pairs.iter().map(|p| p.title.clone()).collect()
}

#[test]
fn dummy_test_until_we_have_a_real_test() {}

#[test]
fn pairs_are_sorted_and_deduplicated() {
    let left = dir("left", &[("c.png", [0; 3]), ("a.png", [0; 3])]);
    let right = dir("right/", &[("b.png", [0; 3]), ("a.png", [0; 3])]);
    let pairs = pairs_from_paths(&left, &right, None).unwrap();
    assert_eq!(titles(&pairs), vec!["a.png", "b.png", "c.png"]);
    assert_eq!(pairs[0].left, "left/a.png");
    assert_eq!(pairs[0].right, "right/a.png");
}

#[test]
fn pairing_ignores_listing_order() {
    let l1 = dir("l", &[("x.png", [0; 3]), ("b.png", [0; 3]), ("ab.png", [0; 3])]);
    let l2 = dir("l", &[("ab.png", [0; 3]), ("x.png", [0; 3]), ("b.png", [0; 3])]);
    let r1 = dir("r", &[("b.png", [0; 3]), ("a.png", [0; 3])]);
    let r2 = dir("r", &[("a.png", [0; 3]), ("b.png", [0; 3])]);
    let p1 = pairs_from_paths(&l1, &r1, None).unwrap();
    let p2 = pairs_from_paths(&l2, &r2, None).unwrap();
    assert_eq!(titles(&p1), titles(&p2));
    assert_eq!(titles(&p1), vec!["a.png", "ab.png", "b.png", "x.png"]);
}

#[test]
fn filter_keeps_names_containing_text() {
    let left = dir("l", &[("button_red.png", [0; 3]), ("label.png", [0; 3])]);
    let right = dir("r", &[("button_blue.png", [0; 3]), ("Button.png", [0; 3])]);
    let pairs = pairs_from_paths(&left, &right, Some("button")).unwrap();
    assert_eq!(titles(&pairs), vec!["button_blue.png", "button_red.png"]);
    let all = pairs_from_paths(&left, &right, Some("")).unwrap();
    assert_eq!(all.len(), 4);
}

#[test]
fn not_directory_left_comes_first() {
    let left = ImageDir { path: "nowhere".to_string(), scan: DirScan::NotDirectory };
    let right = ImageDir { path: "other".to_string(), scan: DirScan::NotDirectory };
    match pairs_from_paths(&left, &right, None) {
        Err(Error::NotDirectory(p)) => assert_eq!(p, "nowhere"),
        other => panic!("unexpected {:?}", other),
    }
    let left = dir("l", &[]);
    match pairs_from_paths(&left, &right, None) {
        Err(Error::NotDirectory(p)) => assert_eq!(p, "other"),
        other => panic!("unexpected {:?}", other),
    }
}

#[test]
fn unlistable_directory_is_io_error() {
    let left = dir("l", &[]);
    let right = ImageDir { path: "r".to_string(), scan: DirScan::Unreadable };
    assert!(matches!(pairs_from_paths(&left, &right, None), Err(Error::IoError)));
}

#[test]
fn left_only_file_is_missing_on_right() {
    let left = dir("l", &[("only.png", [1, 2, 3]), ("same.png", [1, 1, 1])]);
    let right = dir("r", &[("same.png", [1, 1, 1])]);
    let mut session = ImageDiff::default();
    session.compare_directories(&CompareConfig::default(), &left, &right).unwrap();
    let diffs = session.diffs();
    assert_eq!(diffs.len(), 2);
    assert_eq!(diffs[0].pair.title, "only.png");
    assert!(matches!(diffs[0].right_info, ImageInfoResult::Missing));
    assert!(matches!(diffs[0].difference, Difference::MissingFile));
    assert!(matches!(diffs[1].difference, Difference::Identical));

    let mut config = CompareConfig::default();
    config.set_ignore_right_missing(true);
    let mut filtered = ImageDiff::default();
    filtered.compare_directories(&config, &left, &right).unwrap();
    assert_eq!(filtered.diffs().len(), 1);
    assert_eq!(filtered.diffs()[0].pair.title, "same.png");
}

#[test]
fn session_filters_each_batch_and_accumulates() {
    let left = dir("l", &[("a.png", [1, 1, 1]), ("b.png", [1, 1, 1])]);
    let right = dir("r", &[("a.png", [1, 1, 1]), ("b.png", [9, 9, 9]), ("c.png", [0; 3])]);
    let mut session = ImageDiff::new();
    let mut config = CompareConfig::default();
    config.set_ignore_match(true);
    config.set_ignore_left_missing(true);
    session.compare_directories(&config, &left, &right).unwrap();
    assert_eq!(session.diffs().len(), 1);
    assert_eq!(session.diffs()[0].pair.title, "b.png");
    session
        .compare_directories(&CompareConfig::default(), &left, &right)
        .unwrap();
    assert_eq!(session.diffs().len(), 4);
    let err = session.compare_directories(
        &CompareConfig::default(),
        &ImageDir { path: "x".to_string(), scan: DirScan::NotDirectory },
        &right,
    );
    assert!(matches!(err, Err(Error::NotDirectory(_))));
    assert_eq!(session.diffs().len(), 4);
}

#[test]
fn session_filter_name_applies() {
    let left = dir("l", &[("a.png", [1, 1, 1]), ("b.png", [1, 1, 1])]);
    let right = dir("r", &[("a.png", [1, 1, 1]), ("b.png", [1, 1, 1])]);
    let mut config = CompareConfig::default();
    config.set_filter_name(Some("b"));
    assert_eq!(config.filter(), Some("b"));
    let mut session = ImageDiff::default();
    session.compare_directories(&config, &left, &right).unwrap();
    assert_eq!(session.diffs().len(), 1);
    assert_eq!(session.diffs()[0].pair.right, "r/b.png");
    config.set_filter_name(None);
    assert_eq!(config.filter(), None);
}

#[test]
fn lookup_finds_first_file_of_name() {
    let d = dir("d", &[("a.png", [0; 3]), ("b.png", [0; 3])]);
    assert!(find_file(&d, "b.png").is_some());
    assert!(find_file(&d, "c.png").is_none());
    let unreadable = ImageDir { path: "u".to_string(), scan: DirScan::Unreadable };
    assert!(find_file(&unreadable, "a.png").is_none());
}

#[test]
fn image_names_by_extension() {
    let entries: Vec<String> = ["a.png", "b.PnG", "c.jpg", ".png", "..png", "png", "d.png.txt"]
        .iter()
        .map(|s| s.to_string())
        .collect();
    assert_eq!(list_image_names(&entries), vec!["a.png", "b.PnG", "..png"]);
}

#[test]
fn report_titles_default_and_set() {
    let mut config = ReportConfig::default();
    assert_eq!(config.left_title(), "Left image");
    assert_eq!(config.right_title(), "Right image");
    config.set_left_title("Current test");
    config.set_right_title("Snapshot");
    assert_eq!(config.left_title(), "Current test");
    assert_eq!(config.right_title(), "Snapshot");
}

#[test]
fn html_size_caps_longer_side() {
    assert_eq!(html_size(&Size::new(800, 100), 400), (Some(400), None));
    assert_eq!(html_size(&Size::new(100, 300), 400), (None, Some(300)));
    assert_eq!(html_size(&Size::new(500, 500), 400), (None, Some(400)));
}

#[test]
fn embedded_url_is_base64() {
    assert_eq!(embed_png_url(b"abc"), "data:image/png;base64,YWJj");
    assert_eq!(embed_png_url(b"ab"), "data:image/png;base64,YWI=");
}
