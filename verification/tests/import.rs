use texture_merger::decode::make_png_rgba8;
use texture_merger::import::{has_png_extension, import_one, import_paths, scan_png_files, ImportSource};
use texture_merger::model::ImportItem;

fn path(parts: &[&str]) -> Vec<Vec<u8>> {
    parts.iter().map(|p| p.as_bytes().to_vec()).collect()
}

fn source(path: &str, contents: Result<Vec<u8>, String>) -> ImportSource {
    ImportSource {
        path: path.to_string(),
        name: path.trim_end_matches(".png").to_string(),
        contents,
    }
}

#[test]
fn scan_folder_recursive_finds_png() {
    let paths = vec![
        path(&["tmp", "tm_scan", "a.PNG"]),
        path(&["tmp", "tm_scan", "b.png"]),
        path(&["tmp", "tm_scan", "c.jpg"]),
        path(&["tmp", "tm_scan", "sub", "d.png"]),
    ];
    let order = scan_png_files(&paths);
    let names: Vec<String> = order
        .iter()
        .map(|&i| String::from_utf8(paths[i].last().unwrap().clone()).unwrap())
        .collect();
    assert!(names.contains(&"a.PNG".into()));
    assert!(names.contains(&"b.png".into()));
    assert!(names.contains(&"d.png".into()));
    assert!(!names.contains(&"c.jpg".into()));
}

#[test]
fn import_bad_file_reports_error_item() {
    let good = source("good.png", Ok(make_png_rgba8(2, 2, &[0u8; 16])));
    let bad = source("bad.png", Ok(b"not png".to_vec()));
    let items = import_paths(&vec![good, bad], 0);
    assert_eq!(items.len(), 2);
    assert!(items.iter().any(|i| matches!(i, ImportItem::Loaded { .. })));
    assert!(items.iter().any(|i| matches!(i, ImportItem::Error { .. })));
}

#[test]
fn scan_sorts_by_components() {
    let paths = vec![
        path(&["r", "b.png"]),
        path(&["r", "a-b.png"]),
        path(&["r", "a", "z.png"]),
        path(&["r", "A.png"]),
        path(&["r", "notes.txt"]),
    ];
    let order = scan_png_files(&paths);
    // Component order: "A.png" < "a" < "a-b.png" < "b.png".
    assert_eq!(order, vec![3, 2, 1, 0]);
}

#[test]
fn scan_result_does_not_depend_on_walk_order() {
    let walk1 = vec![
        path(&["r", "b.png"]),
        path(&["r", "x.jpg"]),
        path(&["r", "sub", "c.PNG"]),
        path(&["r", "a.png"]),
    ];
    let walk2 = vec![walk1[3].clone(), walk1[2].clone(), walk1[1].clone(), walk1[0].clone()];
    let listed = |walk: &Vec<Vec<Vec<u8>>>| scan_png_files(walk).iter().map(|&i| walk[i].clone()).collect::<Vec<_>>();
    assert_eq!(listed(&walk1), listed(&walk2));
    assert_eq!(listed(&walk1), vec![path(&["r", "a.png"]), path(&["r", "b.png"]), path(&["r", "sub", "c.PNG"])]);
}

#[test]
fn png_extension_rules() {
    assert!(has_png_extension(b"x.png"));
    assert!(has_png_extension(b"x.PnG"));
    assert!(has_png_extension(b"a.b.png"));
    assert!(!has_png_extension(b".png"));
    assert!(has_png_extension(b"..png"));
    assert!(!has_png_extension(b"png"));
    assert!(!has_png_extension(b"x.png.bak"));
    assert!(!has_png_extension(b"x.pngg"));
    assert!(!has_png_extension(b".."));
    assert!(!has_png_extension(b""));
}

#[test]
fn import_assigns_consecutive_ids_and_reports_reasons() {
    let items = import_paths(
        &vec![
            source("one.png", Ok(make_png_rgba8(3, 2, &[9u8; 24]))),
            source("two.png", Err("打开失败: gone".to_string())),
            source("three.png", Ok(make_png_rgba8(1, 1, &[1, 2, 3, 4]))),
        ],
        7,
    );
    match &items[0] {
        ImportItem::Loaded { id, path, name, width, height, has_alpha, thumbnail } => {
            assert_eq!((*id, *width, *height, *has_alpha), (7, 3, 2, true));
            assert_eq!(path, "one.png");
            assert_eq!(name, "one");
            assert!(thumbnail.starts_with("data:image/png;base64,"));
        },
        other => panic!("unexpected {:?}", other),
    }
    match &items[1] {
        ImportItem::Error { path, reason } => {
            assert_eq!(path, "two.png");
            assert_eq!(reason, "打开失败: gone");
        },
        other => panic!("unexpected {:?}", other),
    }
    assert!(matches!(&items[2], ImportItem::Loaded { id: 9, .. }));
}

#[test]
fn import_one_reports_header_error() {
    let err = import_one(&source("bad.png", Ok(b"garbage".to_vec())), 0).unwrap_err();
    assert!(err.starts_with("读取PNG信息失败: "));
}

#[test]
fn each_item_depends_only_on_its_own_file() {
    let good = || source("good.png", Ok(make_png_rgba8(2, 2, &[0u8; 16])));
    let bad = || source("bad.png", Ok(b"not png".to_vec()));
    let missing = || source("gone.png", Err("打开失败: gone".to_string()));
    let all = import_paths(&vec![good(), bad(), missing()], 5);
    let alone = [
        import_paths(&vec![good()], 5).remove(0),
        import_paths(&vec![bad()], 6).remove(0),
        import_paths(&vec![missing()], 7).remove(0),
    ];
    for (a, b) in all.iter().zip(alone.iter()) {
        assert_eq!(format!("{a:?}"), format!("{b:?}"));
    }
    assert!(matches!(&all[2], ImportItem::Error { reason, .. } if reason == "打开失败: gone"));
}
