use nbv::compose::{draw_grid, draw_output, drawn_at, find_runs, row_tag, style_of, Drawn, Run, Slice};
use nbv::grid::Grid;
use nbv::outputs::{Block, OutputView};
use nbv::redraw::{HlAttr, LineCell, RedrawEvent};
use nbv::style::{Color, Line, Style};

fn grid_with(rows: &[(usize, &str, u32)], width: usize, height: usize) -> Grid {
    let mut g = Grid::default();
    g.apply(RedrawEvent::GridResize { grid: 1, width, height });
    for (slot, id) in [(3u16, 10u32), (4, 11)] {
        let attr = HlAttr { names: vec![format!("NbvOutputSlot{slot}")], ..Default::default() };
        g.apply(RedrawEvent::HlAttrDefine { id, attr });
    }
    for (row, text, hl) in rows {
        let cells = text.chars().map(|c| LineCell { text: c.to_string(), hl: Some(*hl), repeat: 1 }).collect();
        g.apply(RedrawEvent::GridLine { grid: 1, row: *row, col: 2, cells });
    }
    g
}

#[test]
fn runs_read_offsets_from_row_tags() {
    // Output of slot 3 (height 5) scrolled so rows 2..5 are visible at screen rows 0..3.
    let g = grid_with(&[(0, "#2#   ", 10), (1, "#3#   ", 10), (2, "#4#   ", 10), (4, "#0#  ", 11)], 10, 6);
    let heights: Vec<Option<usize>> = (0..64).map(|s| Some(if s == 3 { 5 } else { 3 })).collect();
    let runs = find_runs(&g, &heights);
    assert_eq!(runs.len(), 2);
    let r3 = runs.iter().find(|r| r.slot == 3).unwrap();
    assert_eq!((r3.top, r3.len, r3.x0, r3.x1, r3.offset), (0, 3, 2, 8, 2));
    let r4 = runs.iter().find(|r| r.slot == 4).unwrap();
    assert_eq!((r4.top, r4.len, r4.offset), (4, 1, 0));
}

#[test]
fn a_float_hiding_the_tag_falls_back_to_other_rows() {
    // Row 1's tag is covered by a float (not placeholder cells), row 2's is intact.
    let mut g = grid_with(&[(0, "#5#   ", 10), (1, "#6#   ", 10), (2, "#7#   ", 10)], 10, 3);
    g.apply(RedrawEvent::GridLine {
        grid: 1,
        row: 0,
        col: 2,
        cells: vec![LineCell { text: "x".into(), hl: Some(0), repeat: 3 }],
    });
    let runs = find_runs(&g, &vec![Some(10); 64]);
    // Row 0 lost its tag under the float but still belongs to the run; row 1's tag places it.
    assert_eq!(runs.len(), 1);
    assert_eq!((runs[0].top, runs[0].len, runs[0].x0, runs[0].offset), (0, 3, 2, 5));
}

#[test]
fn tags_write_rows() {
    assert_eq!(row_tag(0), "#0#");
    assert_eq!(row_tag(120), "#120#");
}

#[test]
fn highlights_become_styles() {
    let base = style_of(None, Some(0x010203), None);
    assert_eq!(base.fg, Some(Color::Rgb(1, 2, 3)));
    assert_eq!(base.bg, Some(Color::Reset));
    let attr = HlAttr { fg: Some(0xff0000), reverse: true, undercurl: true, sp: Some(0x00ff00), ..Default::default() };
    let s = style_of(Some(&attr), None, Some(0x000010));
    assert_eq!(s.bg, Some(Color::Rgb(255, 0, 0)));
    assert_eq!(s.fg, Some(Color::Rgb(0, 0, 16)));
    assert_eq!(s.underline_color, Some(Color::Rgb(0, 255, 0)));
    assert!(s.added.underlined);
}

#[test]
fn the_window_of_an_output_is_drawn() {
    let text = |n: usize| Block::Text((0..n).map(|i| Line::styled(format!("{i}"), Style::default())).collect());
    let view = OutputView {
        blocks: vec![text(2), Block::Image { source: String::new(), cols: 4, rows: 3 }, text(2)],
        height: 7,
        width: 10,
    };
    let run = Run { slot: 0, top: 10, len: 4, x0: 0, x1: 10, offset: 1 };
    assert_eq!(
        draw_output(&run, &view),
        vec![Slice::Text { block: 0, line: 1, y: 10 }, Slice::Image { block: 1, above: 0, below: 1 }]
    );
    let run = Run { slot: 0, top: 10, len: 3, x0: 0, x1: 10, offset: 4 };
    assert_eq!(
        draw_output(&run, &view),
        vec![
            Slice::Image { block: 1, above: 2, below: 0 },
            Slice::Text { block: 2, line: 0, y: 11 },
            Slice::Text { block: 2, line: 1, y: 12 },
        ]
    );
}

#[test]
fn placeholders_are_transparent() {
    let mut g = grid_with(&[(0, "#0#", 10)], 6, 1);
    assert_eq!(drawn_at(&g, 0, 2), Drawn::Transparent);
    g.apply(RedrawEvent::GridLine {
        grid: 1,
        row: 0,
        col: 0,
        cells: vec![
            LineCell { text: "é".into(), hl: Some(0), repeat: 1 },
            LineCell { text: "".into(), hl: Some(0), repeat: 1 },
        ],
    });
    assert_eq!(drawn_at(&g, 0, 1), Drawn::Half);
    let puts = draw_grid(&g, 10, 5);
    assert_eq!(puts.len(), 3, "two cells of text and the last column");
    assert_eq!(puts[0].text.as_ref().unwrap().0, "é");
    assert_eq!((puts[1].col, puts[1].text.is_none()), (1, true));
    assert_eq!((puts[2].row, puts[2].col), (0, 5));
    assert_eq!(draw_grid(&g, 1, 1).len(), 1);
}

#[test]
fn a_float_on_the_first_row_does_not_split_a_run() {
    let mut g = grid_with(&[(0, "#0#   ", 10), (1, "#1#   ", 10)], 10, 2);
    g.apply(RedrawEvent::GridLine {
        grid: 1,
        row: 0,
        col: 5,
        cells: vec![LineCell { text: "x".into(), hl: Some(0), repeat: 2 }],
    });
    let mut heights = vec![None; 64];
    heights[3] = Some(2);
    assert_eq!(find_runs(&g, &heights), [Run { slot: 3, top: 0, len: 2, x0: 2, x1: 8, offset: 0 }]);
}

#[test]
fn runs_are_the_placeholders() {
    let mut g = grid_with(&[(0, "#0#   ", 10), (1, "#1#   ", 10), (2, "#0#  ", 11), (4, "#5#", 10)], 10, 6);
    g.apply(RedrawEvent::GridLine {
        grid: 1,
        row: 1,
        col: 4,
        cells: vec![LineCell { text: "x".into(), hl: Some(0), repeat: 1 }],
    });
    let runs = find_runs(&g, &vec![None; 64]);
    let inside = |r: &Run, row: usize, col: usize| {
        (r.top as usize..(r.top + r.len) as usize).contains(&row) && (r.x0 as usize..r.x1 as usize).contains(&col)
    };
    for row in 0..6 {
        for col in 0..10 {
            if let Some(slot) = g.slot_at(row, col) {
                assert!(runs.iter().any(|r| r.slot == slot && inside(r, row, col)), "{row} {col}");
            }
        }
    }
    for r in &runs {
        for row in r.top..r.top + r.len {
            assert!((r.x0..r.x1).any(|c| g.slot_at(row as usize, c as usize) == Some(r.slot)));
        }
    }
    assert_eq!(runs.len(), 3);
}
