use nbv::grid::Grid;
use nbv::redraw::{HlAttr, LineCell, RedrawEvent};

fn line(row: usize, text: &str) -> RedrawEvent {
    RedrawEvent::GridLine {
        grid: 1,
        row,
        col: 0,
        cells: text.chars().map(|c| LineCell { text: c.to_string(), hl: Some(0), repeat: 1 }).collect(),
    }
}

#[test]
fn lines_and_scrolling() {
    let mut g = Grid::default();
    g.apply(RedrawEvent::GridResize { grid: 1, width: 3, height: 3 });
    for (r, t) in ["abc", "def", "ghi"].iter().enumerate() {
        g.apply(line(r, t));
    }
    g.apply(RedrawEvent::GridScroll { grid: 1, top: 0, bot: 3, left: 0, right: 3, rows: 1 });
    assert_eq!(g.row_text(0), "def");
    assert_eq!(g.row_text(1), "ghi");
    g.apply(RedrawEvent::GridScroll { grid: 1, top: 0, bot: 3, left: 0, right: 3, rows: -2 });
    assert_eq!(g.row_text(2), "def");
}

#[test]
fn placeholder_highlights_map_to_slots() {
    let mut g = Grid::default();
    let attr = HlAttr { names: vec!["NbvOutputSlot7".into()], ..Default::default() };
    g.apply(RedrawEvent::HlAttrDefine { id: 42, attr });
    g.apply(RedrawEvent::GridResize { grid: 1, width: 2, height: 1 });
    g.apply(RedrawEvent::GridLine {
        grid: 1,
        row: 0,
        col: 0,
        cells: vec![LineCell { text: " ".into(), hl: Some(42), repeat: 2 }],
    });
    assert_eq!(g.slot_at(0, 1), Some(7));
}

#[test]
fn only_events_that_fit_are_accepted() {
    let mut g = Grid::default();
    g.apply(RedrawEvent::GridResize { grid: 1, width: 3, height: 3 });
    assert!(g.accepts(&RedrawEvent::Flush));
    assert!(!g.accepts(&RedrawEvent::GridResize { grid: 1, width: usize::MAX, height: 2 }));
    let bad = RedrawEvent::GridScroll { grid: 1, top: 0, bot: 3, left: 5, right: 3, rows: 1 };
    assert!(!g.accepts(&bad));
    let still = RedrawEvent::GridScroll { grid: 1, top: 0, bot: 3, left: 5, right: 3, rows: 3 };
    assert!(g.accepts(&still));
    assert!(!g.accepts(&RedrawEvent::GridScroll { grid: 1, top: 0, bot: 3, left: 0, right: 3, rows: i64::MIN }));
    assert!(g.apply(RedrawEvent::Flush));
}

#[test]
fn the_last_highlight_carries_over() {
    let mut g = Grid::default();
    g.apply(RedrawEvent::GridResize { grid: 1, width: 4, height: 1 });
    let attr = HlAttr { bold: true, ..Default::default() };
    g.apply(RedrawEvent::HlAttrDefine { id: 5, attr });
    g.apply(RedrawEvent::GridLine {
        grid: 1,
        row: 0,
        col: 1,
        cells: vec![
            LineCell { text: "a".into(), hl: Some(5), repeat: 1 },
            LineCell { text: "b".into(), hl: None, repeat: 2 },
        ],
    });
    assert_eq!(g.row_text(0), " abb");
    assert_eq!(g.cell(0, 3).hl, 5);
    assert!(g.attr(5).unwrap().bold);
    assert!(g.attr(6).is_none());
    g.apply(RedrawEvent::GridClear { grid: 1 });
    assert_eq!(g.row_text(0), "    ");
}
