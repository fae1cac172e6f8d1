use nbv::adapter::CellKind;
use nbv::notebook::Notebook;
use nbv::projection::Buffer;
use nbv::structure::{add, delete, merge, next_cell_line, set_type, split, swap, Direction, Plan};

struct Doc {
    nb: Notebook,
    buf: Buffer,
}

fn nb() -> Doc {
    let json = br##"{"cells":[
        {"cell_type":"code","execution_count":1,"id":"a","metadata":{},"outputs":[{"output_type":"stream","name":"stdout","text":["x"]}],"source":["a1\n","a2"]},
        {"cell_type":"markdown","id":"b","metadata":{},"source":["# B"]},
        {"cell_type":"code","execution_count":null,"id":"c","metadata":{},"outputs":[],"source":["c1"]}
    ],"metadata":{},"nbformat":4,"nbformat_minor":5}"##;
    let nb = Notebook::from_bytes("t.ipynb", json, Default::default()).unwrap();
    let buf = Buffer::project(&nb);
    Doc { nb, buf }
}

fn apply(d: &mut Doc, plan: Plan) {
    for e in plan.edits {
        let r = d.buf.apply_edit(&mut d.nb, e).unwrap();
        assert!(r.normalise.is_empty(), "structural edits are already normalised: {:?}", r.normalise);
    }
}

fn keys(d: &Doc) -> Vec<&str> {
    d.nb.order().iter().map(|k| k.as_str()).collect()
}

#[test]
fn add_below_and_above() {
    let mut n = nb();
    let p = add(&mut n.nb, &n.buf, 1, false);
    assert_eq!(p.cursor, Some(4));
    apply(&mut n, p);
    assert_eq!(n.nb.order().len(), 4);
    assert_eq!(n.nb.order()[0].as_str(), "a");
    let new = n.nb.order()[1].clone();
    assert!(n.nb.cell(&new).unwrap().source().is_empty());
    let p = add(&mut n.nb, &n.buf, 0, true);
    apply(&mut n, p);
    assert_eq!(n.nb.order()[1].as_str(), "a");
}

#[test]
fn delete_split_merge() {
    let mut n = nb();
    let p = split(&mut n.nb, &n.buf, 2);
    apply(&mut n, p);
    assert_eq!(n.nb.cell(&n.nb.order()[0].clone()).unwrap().source(), "a1");
    assert_eq!(n.nb.cell(&n.nb.order()[1].clone()).unwrap().source(), "a2");
    assert_eq!(n.nb.cell(&n.nb.order()[0].clone()).unwrap().outputs().len(), 1, "first half keeps outputs");
    let p = merge(&n.buf, 1);
    apply(&mut n, p);
    assert_eq!(keys(&n), ["a", "b", "c"]);
    assert_eq!(n.nb.cell(&n.nb.order()[0].clone()).unwrap().source(), "a1\na2");
    let p = delete(&n.buf, 3);
    apply(&mut n, p);
    assert_eq!(keys(&n), ["a", "c"]);
}

#[test]
fn move_keeps_identity_and_outputs() {
    let mut n = nb();
    let p = swap(&n.buf, 1, Direction::Down);
    assert_eq!(p.cursor, Some(3));
    apply(&mut n, p);
    assert_eq!(keys(&n), ["b", "a", "c"]);
    assert_eq!(n.nb.cell(&n.nb.order()[1].clone()).unwrap().outputs().len(), 1);
    let p = swap(&n.buf, 0, Direction::Up);
    assert!(p.edits.is_empty());
}

#[test]
fn change_type_reprojects_body() {
    let mut n = nb();
    let p = set_type(&n.buf, 0, CellKind::Markdown);
    apply(&mut n, p);
    let a = n.nb.cell(&n.nb.order()[0].clone()).unwrap();
    assert_eq!(a.kind(), CellKind::Markdown);
    assert_eq!(a.source(), "a1\na2");
    assert_eq!(n.buf.mirror()[1], "# a1");
    let p = set_type(&n.buf, 0, CellKind::Code);
    apply(&mut n, p);
    assert_eq!(n.nb.cell(&n.nb.order()[0].clone()).unwrap().outputs().len(), 1, "outputs restored");
}

#[test]
fn nothing_to_do_at_the_edges() {
    let mut n = nb();
    assert!(merge(&n.buf, 6).edits.is_empty(), "the last cell has no next");
    assert!(split(&mut n.nb, &n.buf, 0).edits.is_empty(), "a marker line is no body");
    assert!(swap(&n.buf, 6, Direction::Down).edits.is_empty());
    assert!(set_type(&n.buf, 0, CellKind::Code).edits.is_empty());
    assert_eq!(next_cell_line(&n.buf, 1), Some(4));
    assert_eq!(next_cell_line(&n.buf, 6), None);
    let p = swap(&n.buf, 6, Direction::Up);
    assert_eq!(p.cursor, Some(4));
    let d = delete(&n.buf, 6);
    assert_eq!((d.edits[0].first, d.edits[0].last, d.cursor), (5, 7, Some(4)));
}

#[test]
fn an_empty_buffer_takes_a_first_cell() {
    let json = br#"{"cells":[],"metadata":{},"nbformat":4,"nbformat_minor":5}"#;
    let nb = Notebook::from_bytes("t.ipynb", json, Default::default()).unwrap();
    let buf = Buffer::project(&nb);
    let mut n = Doc { nb, buf };
    assert!(delete(&n.buf, 0).edits.is_empty());
    assert_eq!(delete(&n.buf, 0).cursor, None);
    let p = add(&mut n.nb, &n.buf, 0, false);
    assert_eq!(p.cursor, Some(1));
    apply(&mut n, p);
    assert_eq!(n.nb.order().len(), 1);
}
