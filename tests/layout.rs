use diskonaut::tiles::{pack, Rect, Tile};
use diskonaut::tree::{ChildInfo, FileType};

fn file(name: &str, size: u64) -> ChildInfo {
    ChildInfo { name: name.to_string(), size, file_type: FileType::File, num_descendants: 0 }
}

fn area(width: u16, height: u16) -> Rect {
    Rect { x: 0, y: 0, width, height }
}

fn tiles_area(tiles: &[Tile]) -> u64 {
    tiles.iter().map(|t| t.width as u64 * t.height as u64).sum()
}

fn region_area(r: Option<Rect>) -> u64 {
    r.map(|q| q.width as u64 * q.height as u64).unwrap_or(0)
}

#[test]
fn two_children_share_area_by_size() {
    let children = vec![file("a", 100), file("b", 50)];
    let p = pack(&children, area(30, 10), 0);
    assert_eq!(p.tiles.len(), 2);
    assert!(p.small_files.is_none());
    assert_eq!(p.tiles[0].name, "a");
    assert_eq!(p.tiles[1].name, "b");
    let a = p.tiles[0].width as u64 * p.tiles[0].height as u64;
    let b = p.tiles[1].width as u64 * p.tiles[1].height as u64;
    assert_eq!(a, 200);
    assert_eq!(b, 100);
    assert_eq!(a + b, 300);
}

#[test]
fn fifty_equal_children_in_small_viewport() {
    let children: Vec<ChildInfo> = (0..50).map(|i| file(&format!("f{}", i), 10)).collect();
    let view = area(10, 4);
    let p = pack(&children, view, 0);
    for t in &p.tiles {
        assert!(t.width > 0 && t.height > 0);
        assert!(t.x + t.width <= 10 && t.y + t.height <= 4);
    }
    assert!(p.tiles.len() < 50);
    let small = p.small_files.expect("small files are folded into one region");
    assert!(small.x + small.width <= 10 && small.y + small.height <= 4);
    assert_eq!(tiles_area(&p.tiles) + region_area(p.small_files), 40);
}

#[test]
fn packing_conserves_area() {
    let children = vec![file("a", 700), file("b", 300), file("c", 120), file("d", 90), file("e", 3), file("f", 1)];
    for (w, h) in [(80u16, 24u16), (13, 37), (200, 50), (7, 7)] {
        let view = Rect { x: 2, y: 3, width: w, height: h };
        let p = pack(&children, view, 0);
        assert_eq!(tiles_area(&p.tiles) + region_area(p.small_files), w as u64 * h as u64);
        for t in &p.tiles {
            assert!(t.x >= 2 && t.y >= 3 && t.x + t.width <= 2 + w && t.y + t.height <= 3 + h);
        }
    }
}

#[test]
fn packing_is_deterministic() {
    let children = vec![file("a", 5), file("b", 5), file("c", 9), file("d", 1), file("e", 5)];
    let first = pack(&children, area(40, 12), 0);
    let second = pack(&children, area(40, 12), 0);
    assert_eq!(first.tiles, second.tiles);
    assert_eq!(first.small_files, second.small_files);
    let names: Vec<&str> = first.tiles.iter().map(|t| t.name.as_str()).collect();
    assert_eq!(names[0], "c");
    assert_eq!(&names[1..4], &["a", "b", "e"]);
}

#[test]
fn empty_children_and_empty_viewport() {
    let p = pack(&vec![], area(10, 10), 0);
    assert!(p.tiles.is_empty() && p.small_files.is_none());
    let p = pack(&vec![file("a", 1)], area(0, 10), 0);
    assert!(p.tiles.is_empty() && p.small_files.is_none());
}

#[test]
fn magnification_places_no_fewer_tiles() {
    let children: Vec<ChildInfo> = (0..30).map(|i| file(&format!("f{}", i), 100 - i as u64)).collect();
    let mut last = 0;
    for zoom in 0..4u16 {
        let p = pack(&children, area(60, 20), zoom);
        assert!(p.tiles.len() >= last);
        last = p.tiles.len();
        assert_eq!(tiles_area(&p.tiles) + region_area(p.small_files), 1200);
    }
}

#[test]
fn zero_sized_children_left_after_last_strip_get_no_region() {
    let children = vec![file("a", 10), file("b", 0), file("c", 0)];
    let p = pack(&children, area(20, 10), 0);
    assert_eq!(p.tiles.len(), 1);
    assert_eq!(tiles_area(&p.tiles), 200);
    assert!(p.small_files.is_none());
}

fn overlaps(a: (u16, u16, u16, u16), b: (u16, u16, u16, u16)) -> bool {
    a.0 < b.0 + b.2 && b.0 < a.0 + a.2 && a.1 < b.1 + b.3 && b.1 < a.1 + a.3
}

#[test]
fn tiles_do_not_overlap() {
    let children = vec![file("a", 700), file("b", 300), file("c", 120), file("d", 90), file("e", 3), file("f", 1)];
    for (w, h) in [(80u16, 24u16), (13, 37), (200, 50), (30, 30)] {
        let p = pack(&children, area(w, h), 0);
        let mut rects: Vec<(u16, u16, u16, u16)> = p.tiles.iter().map(|t| (t.x, t.y, t.width, t.height)).collect();
        if let Some(s) = p.small_files {
            rects.push((s.x, s.y, s.width, s.height));
        }
        for i in 0..rects.len() {
            for j in i + 1..rects.len() {
                assert!(!overlaps(rects[i], rects[j]));
            }
        }
    }
}

#[test]
fn fifty_equal_children_fold_completely() {
    let children: Vec<ChildInfo> = (0..50).map(|i| file(&format!("f{}", i), 10)).collect();
    let p = pack(&children, area(10, 4), 0);
    assert!(p.tiles.len() <= 40);
    assert!(p.small_files.is_some());
    for zoom in 0..4u16 {
        let p = pack(&children, area(10, 4), zoom);
        assert!(p.tiles.len() < 50 && p.small_files.is_some());
    }
}
