use nbv::adapter::CellKind;
use nbv::json::{compact, Json};
use nbv::key::CellKey;
use nbv::notebook::Notebook;
use nbv::projection::{Buffer, CellSpan, LineEdit, OutOfRange, Reconciled};

const OUTPUTS: &str = r##"{"cells":[
 {"cell_type":"markdown","id":"e5f6a7b8","metadata":{},"source":["# Title"]},
 {"cell_type":"code","execution_count":1,"id":"a1b2c3d4","metadata":{},"outputs":[
  {"data":{"text/plain":["42"]},"execution_count":1,"metadata":{},"output_type":"execute_result"}],
  "source":["import numpy as np\n","np.arange(3)"]},
 {"cell_type":"code","execution_count":2,"id":"c9d0e1f2","metadata":{},"outputs":[
  {"name":"stdout","output_type":"stream","text":["x\n"]}],"source":["plot()"]},
 {"cell_type":"raw","id":"0a1b2c3d","metadata":{},"source":["as it is"]}
],"metadata":{},"nbformat":4,"nbformat_minor":5}"##;

const MAGICS: &str = r##"{"cells":[
 {"cell_type":"code","execution_count":null,"id":"m1","metadata":{},"outputs":[],"source":["%%bash\n","# %%\n","ls"]},
 {"cell_type":"code","execution_count":null,"id":"m2","metadata":{},"outputs":[],"source":[]},
 {"cell_type":"markdown","metadata":{},"source":"# %% [raw]\n\n%% id=\"x\""}
],"metadata":{},"nbformat":4,"nbformat_minor":4}"##;

struct Doc {
    nb: Notebook,
    buf: Buffer,
}

fn load(text: &str) -> Doc {
    let nb = Notebook::from_bytes("t.ipynb", text.as_bytes(), Default::default()).unwrap();
    let buf = Buffer::project(&nb);
    Doc { nb, buf }
}

impl Doc {
    fn apply(&mut self, e: LineEdit) -> Result<Reconciled, OutOfRange> {
        self.buf.apply_edit(&mut self.nb, e)
    }

    fn resync(&mut self, lines: Vec<String>) -> Reconciled {
        self.buf.resync(&mut self.nb, lines)
    }

    fn span(&self, i: usize) -> CellSpan {
        self.buf.layout()[i].clone()
    }

    fn order(&self) -> Vec<CellKey> {
        self.nb.order().to_vec()
    }

    fn mirror(&self) -> Vec<String> {
        self.buf.mirror().to_vec()
    }

    fn edit_normalised(&mut self, e: LineEdit) {
        let r = self.apply(e).unwrap();
        self.normalise(r.normalise);
    }

    fn normalise(&mut self, edits: Vec<LineEdit>) {
        let mut last = None;
        for e in edits {
            let r = self.apply(e).unwrap();
            assert!(!r.changed, "normalisation changed the document");
            last = Some(r);
        }
        if let Some(r) = last {
            assert!(r.normalise.is_empty(), "normalisation not idempotent: {:?}", r.normalise);
        }
    }
}

fn outputs_anywhere(nb: &Notebook, k: &CellKey) -> String {
    let c = nb.cell(k).unwrap();
    match c.raw.get("outputs").or_else(|| c.stash.get("outputs")) {
        Some(v) => compact(v),
        None => compact(&Json::Array(vec![])),
    }
}

fn snapshot(nb: &Notebook) -> Vec<(CellKey, CellKind, String, String)> {
    nb.order()
        .iter()
        .map(|k| {
            let c = nb.cell(k).unwrap();
            (k.clone(), c.kind(), c.source(), outputs_anywhere(nb, k))
        })
        .collect()
}

fn diff_edit(from: &[String], to: &[String]) -> LineEdit {
    let prefix = from.iter().zip(to).take_while(|(a, b)| a == b).count();
    let max_suffix = from.len().min(to.len()) - prefix;
    let suffix = from.iter().rev().zip(to.iter().rev()).take(max_suffix).take_while(|(a, b)| a == b).count();
    LineEdit { first: prefix, last: from.len() - suffix, lines: to[prefix..to.len() - suffix].to_vec() }
}

fn lines(s: &[&str]) -> Vec<String> {
    s.iter().map(|l| l.to_string()).collect()
}

#[test]
fn typing_inside_a_cell_edits_source_and_keeps_outputs() {
    let mut d = load(OUTPUTS);
    let span = d.span(1);
    let before = outputs_anywhere(&d.nb, &span.key);
    let r = d
        .apply(LineEdit { first: span.body, last: span.body + 1, lines: lines(&["import numpy as numpy"]) })
        .unwrap();
    assert!(r.changed && r.normalise.is_empty());
    assert_eq!(d.nb.cell(&span.key).unwrap().source(), "import numpy as numpy\nnp.arange(3)");
    assert_eq!(outputs_anywhere(&d.nb, &span.key), before);
    assert!(d.nb.cell(&span.key).unwrap().is_stale());
}

#[test]
fn whole_buffer_rewrite_preserving_comments_keeps_every_key() {
    let mut d = load(OUTPUTS);
    let before = snapshot(&d.nb);
    let rewritten: Vec<String> =
        d.mirror().into_iter().map(|l| if l.starts_with("# %%") { l } else { format!("{l}  ") }).collect();
    let r = d.resync(rewritten);
    assert!(r.changed && r.normalise.is_empty());
    let after = snapshot(&d.nb);
    assert_eq!(before.len(), after.len());
    for (b, a) in before.iter().zip(&after) {
        assert_eq!((&b.0, &b.1, &b.3), (&a.0, &a.1, &a.3));
    }
}

#[test]
fn yank_and_paste_makes_a_fresh_copy() {
    let mut d = load(OUTPUTS);
    let span = d.span(1);
    let cell_text = d.mirror()[span.marker.unwrap()..span.end].to_vec();
    let end = d.mirror().len();
    d.edit_normalised(LineEdit { first: end, last: end, lines: cell_text });
    let order = d.order();
    assert_eq!(order.len(), 5);
    assert_eq!(order[1], span.key, "original keeps its key");
    let copy = order[4].clone();
    assert_ne!(copy, span.key);
    assert_eq!(d.nb.cell(&copy).unwrap().source(), d.nb.cell(&span.key).unwrap().source());
    assert!(d.nb.cell(&copy).unwrap().outputs().is_empty());
    assert!(d.mirror().iter().any(|l| l.contains(copy.as_str())), "copy's marker normalised");
}

#[test]
fn yank_and_paste_above_the_original_keeps_the_original() {
    let mut d = load(OUTPUTS);
    let span = d.span(1);
    let cell_text = d.mirror()[span.marker.unwrap()..span.end].to_vec();
    d.edit_normalised(LineEdit { first: 0, last: 0, lines: cell_text });
    assert_eq!(d.order()[2], span.key);
    assert_ne!(d.order()[0], span.key);
}

#[test]
fn delete_then_paste_elsewhere_moves_with_outputs() {
    let mut d = load(OUTPUTS);
    let span = d.span(1);
    let outputs = outputs_anywhere(&d.nb, &span.key);
    let cell_text = d.mirror()[span.marker.unwrap()..span.end].to_vec();
    d.edit_normalised(LineEdit { first: span.marker.unwrap(), last: span.end, lines: vec![] });
    assert!(d.nb.is_tombstoned(&span.key));
    let end = d.mirror().len();
    d.edit_normalised(LineEdit { first: end, last: end, lines: cell_text });
    assert_eq!(d.order().last(), Some(&span.key));
    assert_eq!(outputs_anywhere(&d.nb, &span.key), outputs);
}

#[test]
fn delete_then_undo_resurrects_with_outputs() {
    let mut d = load(OUTPUTS);
    let before = snapshot(&d.nb);
    let text = d.mirror();
    let span = d.span(2);
    d.edit_normalised(LineEdit { first: span.marker.unwrap(), last: span.end, lines: vec![] });
    let undo = diff_edit(&d.mirror(), &text);
    d.edit_normalised(undo);
    assert_eq!(snapshot(&d.nb), before);
}

#[test]
fn deleting_a_marker_line_joins_body_to_previous_cell() {
    let mut d = load(OUTPUTS);
    let prev = d.span(1);
    let gone = d.span(2);
    let m = gone.marker.unwrap();
    d.edit_normalised(LineEdit { first: m, last: m + 1, lines: vec![] });
    assert!(d.nb.is_tombstoned(&gone.key));
    assert_eq!(d.nb.cell(&prev.key).unwrap().source(), "import numpy as np\nnp.arange(3)\nplot()");
}

#[test]
fn typing_a_bare_marker_creates_a_cell_and_normalises_it() {
    let mut d = load(OUTPUTS);
    let span = d.span(1);
    let r = d.apply(LineEdit { first: span.body + 1, last: span.body + 1, lines: lines(&["# %%"]) }).unwrap();
    assert!(r.changed);
    assert_eq!(d.order().len(), 5);
    let new_key = d.order()[2].clone();
    assert_eq!(r.normalise.len(), 1);
    assert_eq!(r.normalise[0].lines[0], format!("# %% id=\"{}\"", new_key.as_str()));

    // Until normalised (insert mode), edits elsewhere keep the pending key stable.
    let r2 = d.apply(LineEdit { first: span.body + 2, last: span.body + 2, lines: lines(&["y = 2"]) }).unwrap();
    assert_eq!(d.order()[2], new_key);
    d.normalise(r2.normalise);
    assert_eq!(d.order()[2], new_key);
    assert_eq!(d.nb.cell(&new_key).unwrap().source(), "y = 2\nnp.arange(3)");
}

#[test]
fn hand_editing_a_marker_to_a_live_key_gets_a_fresh_key() {
    let mut d = load(OUTPUTS);
    let a = d.span(1);
    let b = d.span(2);
    let b_outputs = outputs_anywhere(&d.nb, &b.key);
    let m = b.marker.unwrap();
    d.edit_normalised(LineEdit { first: m, last: m + 1, lines: vec![format!("# %% id=\"{}\"", a.key.as_str())] });
    assert_eq!(d.order()[1], a.key);
    assert!(d.nb.is_tombstoned(&b.key));
    let fresh = d.order()[2].clone();
    assert_ne!(fresh, a.key);
    assert_ne!(fresh, b.key);
    assert!(d.nb.cell(&fresh).unwrap().outputs().is_empty());
    assert_eq!(outputs_anywhere(&d.nb, &b.key), b_outputs, "tombstone keeps outputs");
}

#[test]
fn changing_marker_kind_changes_cell_type_and_back_restores() {
    let mut d = load(OUTPUTS);
    let before: serde_json::Value = serde_json::from_str(&compact(&d.nb.to_json())).unwrap();
    let span = d.span(1);
    let m = span.marker.unwrap();
    let md = vec![format!("# %% [markdown] id=\"{}\"", span.key.as_str())];
    d.edit_normalised(LineEdit { first: m, last: m + 1, lines: md });
    let cell = d.nb.cell(&span.key).unwrap();
    assert_eq!(cell.kind(), CellKind::Markdown);
    assert!(cell.raw.get("outputs").is_none() && cell.raw.get("execution_count").is_none());
    let code = vec![format!("# %% id=\"{}\"", span.key.as_str())];
    d.edit_normalised(LineEdit { first: m, last: m + 1, lines: code });
    let mut after: serde_json::Value = serde_json::from_str(&compact(&d.nb.to_json())).unwrap();
    // Mutation adds ids; the source document already had them.
    after["nbformat_minor"] = before["nbformat_minor"].clone();
    assert_eq!(after, before);
}

#[test]
fn leading_region_becomes_a_code_cell() {
    let mut d = load(OUTPUTS);
    let r = d.apply(LineEdit { first: 0, last: 0, lines: lines(&["import os"]) }).unwrap();
    assert!(r.changed);
    let lead = d.order()[0].clone();
    assert_eq!(d.nb.cell(&lead).unwrap().source(), "import os");
    // Still pending: more typing keeps the key.
    let r = d.apply(LineEdit { first: 0, last: 1, lines: lines(&["import sys"]) }).unwrap();
    assert_eq!(d.order()[0], lead);
    d.normalise(r.normalise);
    assert_eq!(d.mirror()[0], format!("# %% id=\"{}\"", lead.as_str()));
    assert_eq!(d.nb.cell(&lead).unwrap().source(), "import sys");
}

#[test]
fn whitespace_leading_region_is_ignored_and_empty_buffer_has_no_cells() {
    let mut d = load(OUTPUTS);
    let r = d.apply(LineEdit { first: 0, last: 0, lines: lines(&["", "   "]) }).unwrap();
    assert!(r.normalise.is_empty());
    assert_eq!(d.order().len(), 4);
    let r = d.resync(vec![]);
    assert!(r.changed);
    assert!(d.order().is_empty());
}

#[test]
fn out_of_range_edit_is_rejected() {
    let mut d = load(OUTPUTS);
    let before = snapshot(&d.nb);
    let len = d.mirror().len();
    assert!(d.apply(LineEdit { first: len, last: len + 1, lines: vec![] }).is_err());
    assert!(d.apply(LineEdit { first: 2, last: 1, lines: vec![] }).is_err());
    assert_eq!(snapshot(&d.nb), before);
    assert_eq!(d.mirror().len(), len);
}

#[test]
fn two_step_filter_insert_then_delete_keeps_every_key() {
    // Neovim's `:%!cmd` inserts the filtered text, then deletes the original, and the
    // normalisation computed in between is refused by the changedtick guard.
    let mut d = load(OUTPUTS);
    let before = snapshot(&d.nb);
    let text = d.mirror();
    let n = text.len();
    let filtered: Vec<String> =
        text.iter().map(|l| if l.starts_with("# %%") { l.clone() } else { format!("{l} ") }).collect();
    let r = d.apply(LineEdit { first: n, last: n, lines: filtered }).unwrap();
    assert!(!r.normalise.is_empty(), "copies are fresh cells until the originals go");
    let r = d.apply(LineEdit { first: 0, last: n, lines: vec![] }).unwrap();
    assert!(r.normalise.is_empty(), "{:?}", r.normalise);
    let after = snapshot(&d.nb);
    assert_eq!(before.len(), after.len());
    for (b, a) in before.iter().zip(&after) {
        assert_eq!((&b.0, &b.1, &b.3), (&a.0, &a.1, &a.3));
    }
}

#[test]
fn projection_reconciles_to_itself_across_corpus() {
    for text in [OUTPUTS, MAGICS] {
        let mut d = load(text);
        let before = snapshot(&d.nb);
        let lines = d.mirror();
        let r = d.resync(lines.clone());
        assert!(!r.changed && r.normalise.is_empty(), "{r:?}");
        assert_eq!(snapshot(&d.nb), before);
        assert!(!d.nb.is_mutated());
        assert_eq!(d.mirror(), lines);
    }
}

#[test]
fn reload_discards_tombstones_and_rebuilds() {
    let mut d = load(OUTPUTS);
    let original = d.mirror();
    let span = d.span(1);
    d.edit_normalised(LineEdit { first: span.marker.unwrap(), last: span.end, lines: vec![] });
    assert!(d.nb.is_tombstoned(&span.key));
    d.nb.reload(OUTPUTS.as_bytes()).unwrap();
    assert_eq!(Buffer::project(&d.nb).mirror(), original);
    assert!(d.nb.is_live(&span.key));
    assert!(!d.nb.is_mutated());
}

#[test]
fn bad_ids_get_synthesized_keys_and_are_rewritten_on_mutation() {
    let text = r##"{"cells":[
 {"cell_type":"markdown","id":"dup","metadata":{},"source":"0"},
 {"cell_type":"markdown","id":"dup","metadata":{},"source":"1"},
 {"cell_type":"markdown","metadata":{},"source":"2"},
 {"cell_type":"markdown","id":"not valid!","metadata":{},"source":"3"},
 {"cell_type":"markdown","id":7,"metadata":{},"source":"4"},
 {"cell_type":"markdown","id":"ok-id_1","metadata":{},"source":"5"}
],"metadata":{},"nbformat":4,"nbformat_minor":5}"##;
    let mut d = load(text);
    let keys: Vec<String> = d.order().iter().map(|k| k.as_str().to_string()).collect();
    assert_eq!(keys[5], "ok-id_1");
    for (i, k) in keys.iter().enumerate() {
        if i != 5 {
            assert_eq!(k.len(), 8, "{k}");
        }
    }
    let json: serde_json::Value = serde_json::from_str(&compact(&d.nb.to_json())).unwrap();
    assert!(json["cells"][0]["id"] == "dup", "unmutated document is untouched");
    let n = d.mirror().len();
    d.edit_normalised(LineEdit { first: n, last: n, lines: lines(&["# more"]) });
    let json: serde_json::Value = serde_json::from_str(&compact(&d.nb.to_json())).unwrap();
    for (c, k) in json["cells"].as_array().unwrap().iter().zip(&keys) {
        assert_eq!(c["id"], k.as_str());
    }
}

#[test]
fn typing_between_markers_keeps_keys_and_kinds() {
    let mut d = load(OUTPUTS);
    let before: Vec<(CellKey, CellKind)> = snapshot(&d.nb).into_iter().map(|s| (s.0, s.1)).collect();
    for i in 0..4 {
        let s = d.span(i);
        let r = d.apply(LineEdit { first: s.body, last: s.end, lines: lines(&["a", "", "b"]) }).unwrap();
        assert!(r.normalise.is_empty());
        let after: Vec<(CellKey, CellKind)> = snapshot(&d.nb).into_iter().map(|s| (s.0, s.1)).collect();
        assert_eq!(after, before);
    }
    assert_eq!(d.nb.cell(&d.order()[2]).unwrap().source(), "a\n\nb");
}

#[test]
fn a_pending_marker_is_normalised_later() {
    let mut d = load(OUTPUTS);
    let n = d.mirror().len();
    let r = d.apply(LineEdit { first: n, last: n, lines: lines(&["# %% [raw]", "new"]) }).unwrap();
    assert_eq!(d.buf.pending_normalisation(), r.normalise);
    assert_eq!(r.normalise[0].first, n);
    assert_eq!(r.normalise[0].last, n + 1);
    d.normalise(r.normalise);
    assert!(d.buf.pending_normalisation().is_empty());
}
