use rusty_broom::clock::Timestamp;
use rusty_broom::path::FsPath;
use rusty_broom::size::{file_size, measure, DirStat, Found, Item, ItemKind, Leaf};

fn leaf(bytes: u64, at: i64) -> Leaf {
    Leaf { bytes: Some(bytes), modified: Some(Timestamp::new(at, 0)) }
}

fn item(name: &str, kind: ItemKind) -> Item {
    Item { name: name.as_bytes().to_vec(), kind }
}

#[test]
fn missing_path_is_zero() {
    let measurement = measure(&FsPath::from_text("/definitely/not/here"), Found::Missing);
    assert!(measurement.pending().is_none());
    assert_eq!(measurement.finish(), DirStat::default());
}

#[test]
fn a_file_is_counted_by_itself() {
    let measurement = measure(&FsPath::from_text("/a/f"), Found::Other(leaf(512, 7)));
    assert!(measurement.pending().is_none());
    let stat = measurement.finish();
    assert_eq!(stat, DirStat { bytes: 512, files: 1, newest: Some(Timestamp::new(7, 0)) });
}

#[test]
fn measures_a_tree() {
    let base = FsPath::from_text("/tmp/rb-size");
    let mut measurement = measure(&base, Found::Dir);
    while let Some(dir) = measurement.pending() {
        let listing = match dir.relative_to(&base).to_text().as_str() {
            "" => vec![item("a", ItemKind::Dir)],
            "a" => vec![item("b", ItemKind::Dir)],
            "a/b" => vec![item("data.bin", ItemKind::File(leaf(file_size(8), 3)))],
            other => panic!("{other}"),
        };
        measurement.absorb(Some(listing));
    }
    let stat = measurement.finish();
    assert_eq!(stat.files, 1);
    assert!(stat.bytes >= 4096, "got {} bytes", stat.bytes);
    assert!(stat.newest.is_some());
}

#[test]
fn trees_are_counted_once() {
    let mut measurement = measure(&FsPath::from_text("/a"), Found::Dir);
    let mut asked = Vec::new();
    while let Some(dir) = measurement.pending() {
        asked.push(dir.to_text());
        let listing = match dir.to_text().as_str() {
            "/a" => Some(vec![
                item("b", ItemKind::Dir),
                item("data", ItemKind::File(leaf(4096, 30))),
                item("link", ItemKind::Link(leaf(512, 10))),
                item("odd", ItemKind::Unknown),
                item("c", ItemKind::Dir),
            ]),
            "/a/b" => Some(vec![
                item("x", ItemKind::File(leaf(1024, 40))),
                item("y", ItemKind::File(Leaf { bytes: None, modified: None })),
            ]),
            _ => None,
        };
        assert!(measurement.can_absorb(&listing));
        measurement.absorb(listing);
    }
    // The last subdirectory comes first.
    assert_eq!(asked, ["/a", "/a/c", "/a/b"]);
    let stat = measurement.finish();
    assert_eq!(stat, DirStat { bytes: 5632, files: 3, newest: Some(Timestamp::new(40, 0)) });
}

#[test]
fn totals_that_do_not_fit_are_told_apart() {
    let mut measurement = measure(&FsPath::from_text("/a"), Found::Dir);
    let huge = Some(vec![
        item("x", ItemKind::File(leaf(u64::MAX, 0))),
        item("y", ItemKind::File(leaf(1, 0))),
    ]);
    assert!(!measurement.can_absorb(&huge));
    let large = Some(vec![item("x", ItemKind::File(leaf(u64::MAX, 0)))]);
    assert!(measurement.can_absorb(&large));
    measurement.absorb(large);
    assert_eq!(measurement.finish().bytes, u64::MAX);
}

#[test]
fn blocks_are_half_kilobytes() {
    assert_eq!(file_size(8), 4096);
    let mut stat = DirStat { bytes: 1, files: 2, newest: None };
    stat.merge(DirStat { bytes: 10, files: 20, newest: Some(Timestamp::new(1, 0)) });
    assert_eq!(stat, DirStat { bytes: 11, files: 22, newest: Some(Timestamp::new(1, 0)) });
}
