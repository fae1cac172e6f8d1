use nbv::adapter::CellKind;
use nbv::key::CellKey;
use nbv::layout::{Geometry, Item, Layout, Viewport};

fn geometry(height: u16) -> Geometry {
    Geometry { viewport: Viewport { row: 0, col: 0, width: 40, height } }
}

fn item(key: &str, kind: CellKind, lines: usize, outputs: usize) -> Item {
    Item { key: CellKey::new(key), kind, lines, outputs }
}

fn layout() -> Layout {
    // Heights: a = 3 + 0, b = 5 + 3 + 1, c = 12 + 0.
    Layout::new(&vec![
        item("a", CellKind::Code, 1, 0),
        item("b", CellKind::Code, 3, 3),
        item("c", CellKind::Markdown, 10, 0),
    ])
}

#[test]
fn blocks_stack() {
    let l = layout();
    let tops: Vec<usize> = l.blocks.iter().map(|b| b.top).collect();
    assert_eq!(tops, [0, 3, 12]);
    assert_eq!(l.total, 24);
    assert_eq!(Layout::new(&vec![item("e", CellKind::Code, 0, 0)]).blocks[0].lines, 1);
}

#[test]
fn editors_are_clipped_with_topline() {
    let l = layout();
    let g = geometry(11); // header + 10 rows
    // Scrolled to 5: `b`'s body rows 4..7 show rows 5, 6 → lines 2..3 of b.
    let eds = l.editors(&g, 5, None);
    let b = eds.iter().find(|e| e.key.as_str() == "b").unwrap();
    assert_eq!((b.row, b.height, b.topline), (1, 2, 2));
    // `c`'s body starts at 13 → screen row 1 + 8 = 9; two rows fit.
    let c = eds.iter().find(|e| e.key.as_str() == "c").unwrap();
    assert_eq!((c.row, c.height, c.topline), (9, 2, 1));
    assert!(!eds.iter().any(|e| e.key.as_str() == "a"));
    // The active cell, clipped, scrolls itself.
    let eds = l.editors(&g, 5, Some(&CellKey::new("b")));
    assert_eq!(eds.iter().find(|e| e.key.as_str() == "b").unwrap().topline, 0);
}

#[test]
fn reveal_moves_as_little_as_possible() {
    let l = layout();
    assert_eq!(l.bring_into_view(0, 10, 1, false), 2, "b's block ends at 12");
    assert_eq!(l.bring_into_view(0, 10, 1, true), 0, "b's box already fits");
    assert_eq!(l.bring_into_view(20, 10, 0, false), 0);
    assert_eq!(l.bring_into_view(0, 10, 2, true), 12, "a box taller than the area shows its top");
    assert_eq!(l.bring_into_view(12, 10, 2, false), 12);
}

#[test]
fn rows_map_to_blocks() {
    let l = layout();
    let g = geometry(11);
    assert_eq!(l.at_row(&g, 0, 0), None, "header");
    assert_eq!(l.at_row(&g, 0, 1), Some(0));
    assert_eq!(l.at_row(&g, 0, 4), Some(1));
    assert_eq!(l.at_row(&g, 3, 1), Some(1));
    assert_eq!(l.at_row(&g, 0, 11), None, "below the area");
}

#[test]
fn windows_stay_in_the_area_at_every_offset() {
    let l = layout();
    let g = geometry(9);
    for scroll in 0..=l.max_scroll(8) {
        let eds = l.editors(&g, scroll, None);
        let mut row = 1;
        for e in &eds {
            assert!(e.row >= row && e.height > 0 && e.row + e.height <= 9);
            row = e.row + e.height;
        }
    }
    assert_eq!(l.max_scroll(8), 16);
    assert_eq!(l.index_of(&CellKey::new("c")), Some(2));
    assert_eq!(l.index_of(&CellKey::new("x")), None);
    assert_eq!(g.box_x(), (7, 32));
    assert_eq!(g.inner_x(), (8, 30));
}

#[test]
fn a_viewport_fits_if_its_boxes_do() {
    let g = |row: u16, col: u16, width: u16, height: u16| Geometry { viewport: Viewport { row, col, width, height } };
    assert!(g(0, 0, 40, 11).fits());
    assert!(g(65534, 0, 40, 1).fits() && !g(65535, 0, 40, 0).fits());
    assert!(g(1, 0, 40, 65534).fits() && !g(2, 0, 40, 65534).fits());
    // The columns alone decide where the box stands.
    assert_eq!(g(65535, 0, 40, 1).box_x(), (7, 32));
    assert_eq!(g(65535, 0, 40, 1).inner_x(), (8, 30));
    assert!(g(0, 0, 65535, 11).fits());
    assert!(g(0, 65000, 535, 11).fits() && !g(0, 65000, 536, 11).fits());
    assert!(!g(0, 65534, 1, 11).fits(), "the narrowest box ends beyond the screen");
}
