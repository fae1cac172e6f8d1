use nbv::adapter::CellKind;
use nbv::json::{compact, Json};
use nbv::key::{CellKey, KeyMinter};
use nbv::load::OpenError;
use nbv::notebook::{Change, CommitOptions, Notebook};
use nbv::save::CommitError;
use serde_json::Value;

const OUTPUTS: &str = r##"{
 "cells": [
  {
   "cell_type": "markdown",
   "id": "e5f6a7b8",
   "metadata": {},
   "source": [
    "# Title"
   ]
  },
  {
   "cell_type": "code",
   "execution_count": 1,
   "id": "a1b2c3d4",
   "metadata": {},
   "outputs": [
    {
     "data": {
      "text/plain": [
       "42"
      ]
     },
     "execution_count": 1,
     "metadata": {},
     "output_type": "execute_result"
    }
   ],
   "source": [
    "import numpy as np\n",
    "np.arange(3)"
   ]
  },
  {
   "cell_type": "code",
   "execution_count": 2,
   "id": "c9d0e1f2",
   "metadata": {},
   "outputs": [
    {
     "name": "stdout",
     "output_type": "stream",
     "text": [
      "é\n"
     ]
    }
   ],
   "source": [
    "plot()"
   ]
  }
 ],
 "metadata": {
  "kernelspec": {
   "display_name": "Python 3",
   "language": "python",
   "name": "python3"
  }
 },
 "nbformat": 4,
 "nbformat_minor": 5
}
"##;

const LEGACY: &str = r##"{
 "cells": [
  {
   "cell_type": "markdown",
   "metadata": {},
   "source": [
    "# Title"
   ]
  },
  {
   "cell_type": "code",
   "execution_count": 1,
   "metadata": {},
   "outputs": [],
   "source": [
    "import numpy as np\n",
    "print('hello')\n",
    "print('world')"
   ]
  }
 ],
 "metadata": {},
 "nbformat": 4,
 "nbformat_minor": 4
}
"##;

const ODD: &str = r#"{"nbformat_minor":2,"nbformat":4,"metadata":{"x":{"z":1,"a":[true,null,-5,18446744073709551615]}},
  "cells":[{"source":"a\nb","metadata":{"tags":["t"]},"cell_type":"raw"}],"extra":"kept"}"#;

fn open(text: &str) -> Notebook {
    Notebook::open("t.ipynb", text.as_bytes()).unwrap()
}

fn value(j: &Json) -> Value {
    serde_json::from_str(&compact(j)).unwrap()
}

fn read(bytes: &[u8]) -> Value {
    serde_json::from_slice(bytes).unwrap()
}

#[test]
fn unedited_save_is_semantically_lossless_across_corpus() {
    for text in [OUTPUTS, LEGACY, ODD] {
        let nb = open(text);
        let saved = nb.commit(CommitOptions::default(), Some(text.as_bytes())).unwrap();
        assert_eq!(read(text.as_bytes()), read(&saved), "{text} lost information");
    }
}

#[test]
fn jupyter_formatted_notebooks_save_byte_identical() {
    for text in [OUTPUTS, LEGACY] {
        let nb = open(text);
        let saved = nb.commit(CommitOptions::default(), Some(text.as_bytes())).unwrap();
        assert_eq!(String::from_utf8(saved).unwrap(), text);
    }
    let bare = OUTPUTS.trim_end();
    assert_eq!(open(bare).to_bytes(), bare.as_bytes(), "no newline is added");
}

#[test]
fn legacy_unedited_save_injects_nothing() {
    let nb = open(LEGACY);
    let v = read(&nb.commit(CommitOptions::default(), None).unwrap());
    assert_eq!(v["nbformat_minor"], 4);
    assert!(v["cells"].as_array().unwrap().iter().all(|c| c.get("id").is_none()));
}

#[test]
fn legacy_upgrades_on_first_mutation() {
    let before = read(LEGACY.as_bytes());
    let mut nb = open(LEGACY);
    let second = nb.order()[1].clone();
    nb.set_source(&second, "import numpy as np\nprint('hello')\nprint('world')\nx = 1");
    let keys: Vec<String> = nb.order().iter().map(|k| k.as_str().to_string()).collect();
    let after = read(&nb.commit(CommitOptions::default(), None).unwrap());
    assert_eq!(after["nbformat_minor"], 5);
    let cells = after["cells"].as_array().unwrap();
    for (c, k) in cells.iter().zip(&keys) {
        assert_eq!(c["id"], k.as_str());
    }
    // No other change beyond the mutation itself.
    let mut expected = before.clone();
    expected["nbformat_minor"] = 5.into();
    for (i, c) in expected["cells"].as_array_mut().unwrap().iter_mut().enumerate() {
        c["id"] = keys[i].clone().into();
    }
    expected["cells"][1]["source"] =
        read(b"[\"import numpy as np\\n\", \"print('hello')\\n\", \"print('world')\\n\", \"x = 1\"]");
    assert_eq!(after, expected);
}

#[test]
fn refuses_non_v4() {
    let text = br#"{"metadata":{},"nbformat":3,"nbformat_minor":0,"worksheets":[]}"#;
    let err = Notebook::open("old.ipynb", text).unwrap_err();
    assert!(matches!(err, OpenError::UnsupportedNbformat(..)), "{}", err.message());
    assert!(err.message().starts_with("old.ipynb is nbformat 3"), "{}", err.message());
}

#[test]
fn refusals_say_why() {
    let e = Notebook::open("n", b"{").unwrap_err();
    assert!(matches!(e, OpenError::Json(..)));
    assert!(e.message().starts_with("n is not valid JSON: "));
    assert!(matches!(Notebook::open("n", b"[1]").unwrap_err(), OpenError::NotANotebook(..)));
    let no_meta = br#"{"cells":[],"nbformat":4,"nbformat_minor":5}"#;
    assert!(matches!(Notebook::open("n", no_meta).unwrap_err(), OpenError::NotANotebook(..)));
    let odd = br#"{"cells":[{"cell_type":"heading","metadata":{},"source":""}],"metadata":{},"nbformat":4,"nbformat_minor":5}"#;
    let e = Notebook::open("n", odd).unwrap_err();
    assert!(matches!(e, OpenError::UnknownCellType(..)));
    assert!(e.message().contains("heading"), "{}", e.message());
}

#[test]
fn refuses_to_overwrite_a_notebook_changed_on_disk() {
    let mut nb = open(OUTPUTS);
    let other = b"{\"changed\": true}";
    let err = nb.commit(CommitOptions::default(), Some(other)).unwrap_err();
    assert!(matches!(err, CommitError::ChangedOnDisk(_)));
    assert!(err.message().starts_with("t.ipynb changed on disk"));
    let saved = nb.commit(CommitOptions { force: true }, Some(other)).unwrap();
    nb.committed(&saved);
    // After a successful write, the new content is the baseline.
    nb.commit(CommitOptions::default(), Some(&saved)).unwrap();
}

#[test]
fn split_then_merge_round_trips_every_line() {
    for src in ["", "a", "a\n", "a\nb", "\n\n", "a\n\nb\n"] {
        for line in 0..=src.split('\n').count() {
            let text = format!(
                "{{\"cells\": [{{\"cell_type\": \"code\", \"execution_count\": null, \"id\": \"a\", \"metadata\": {{}}, \"outputs\": [], \"source\": {}}}], \"metadata\": {{}}, \"nbformat\": 4, \"nbformat_minor\": 5}}",
                serde_json::to_string(src).unwrap()
            );
            let mut nb = Notebook::from_bytes("t.ipynb", text.as_bytes(), Default::default()).unwrap();
            let key = CellKey::new("a");
            let new = nb.new_cell(CellKind::Code, "");
            let valid = line > 0 && line < src.split('\n').count();
            assert_eq!(nb.edit(vec![Change::Split { key: key.clone(), line, new: new.clone() }]).is_some(), valid);
            if !valid {
                continue;
            }
            let (head, tail) = (nb.cell(&key).unwrap().source(), nb.cell(&new).unwrap().source());
            assert_eq!(format!("{head}\n{tail}"), src);
            nb.undo();
            assert_eq!(nb.cell(&key).unwrap().source(), src, "{src:?} at {line}: {head:?} + {tail:?}");
            assert_eq!(nb.order().len(), 1);
        }
    }
}

fn outputs_anywhere(nb: &Notebook, k: &CellKey) -> String {
    let c = nb.cell(k).unwrap();
    match c.raw.get("outputs").or_else(|| c.stash.get("outputs")) {
        Some(v) => compact(v),
        None => "[]".to_string(),
    }
}

fn snapshot(nb: &Notebook) -> Vec<(CellKey, CellKind, String, String)> {
    nb.order()
        .iter()
        .map(|k| {
            let c = nb.cell(k).unwrap();
            (k.clone(), c.kind(), c.source(), outputs_anywhere(nb, k))
        })
        .collect()
}

const KINDS: [CellKind; 3] = [CellKind::Code, CellKind::Markdown, CellKind::Raw];

/// One structural change, with positions taken from a number.
fn disturb(nb: &mut Notebook, n: usize) {
    let len = nb.order().len();
    let at = |i: usize| nb.order().get(i % len.max(1)).cloned();
    let (op, i, j) = (n % 7, n / 7 % 64, n / 448 % 64);
    match (op, at(i)) {
        (0, _) => {
            let key = nb.new_cell(KINDS[j % 3], "");
            nb.edit(vec![Change::Show { key, index: i % (len + 1) }]);
        }
        (1, Some(key)) => drop(nb.edit(vec![Change::Hide { key }])),
        (2, Some(key)) => drop(nb.edit(vec![Change::Move { key, index: j % len }])),
        (3, Some(key)) => drop(nb.edit(vec![Change::Kind { key, kind: KINDS[j % 3] }])),
        (4, Some(key)) => {
            let kind = nb.cell(&key).unwrap().kind();
            let new = nb.new_cell(kind, "");
            nb.edit(vec![Change::Split { key, line: j % 6, new }]);
        }
        (5, Some(key)) => {
            let next = nb.order().get(nb.index_of(&key).unwrap() + 1).cloned();
            if let Some(next) = next {
                nb.edit(vec![Change::Merge { key, next }]);
            }
        }
        (6, Some(src)) => {
            let raw = nb.cell(&src).unwrap().raw.clone();
            let key = nb.copy_cell(&raw);
            nb.edit(vec![Change::Show { key, index: j % (len + 1) }]);
        }
        _ => {}
    }
}

#[test]
fn undo_goes_back_through_every_state_and_redo_returns() {
    let mut seed: u64 = 12345;
    for _ in 0..40 {
        let mut nb = open(OUTPUTS);
        let start = snapshot(&nb);
        let originals: Vec<(CellKey, String)> = start.iter().map(|s| (s.0.clone(), s.3.clone())).collect();
        for _ in 0..20 {
            seed = seed.wrapping_mul(6364136223846793005).wrapping_add(1442695040888963407);
            disturb(&mut nb, (seed >> 33) as usize);
            for (k, outputs) in &originals {
                assert_eq!(&outputs_anywhere(&nb, k), outputs, "outputs survive every change");
            }
            for k in nb.order() {
                assert!(nb.is_live(k) && !nb.is_tombstoned(k));
            }
        }
        let end = snapshot(&nb);
        while nb.undo().is_some() {}
        assert_eq!(snapshot(&nb), start);
        while nb.redo().is_some() {}
        assert_eq!(snapshot(&nb), end);
    }
}

#[test]
fn keys_are_never_minted_twice() {
    let mut m = KeyMinter::default();
    assert!(m.reserve(&CellKey::new("0000002a")));
    assert!(!m.reserve(&CellKey::new("0000002a")));
    assert!(m.mint_drawn(42).is_none());
    assert_eq!(m.mint_drawn(43).unwrap().as_str(), "0000002b");
    let (a, b) = (m.mint(), m.mint());
    assert_ne!(a, b);
    assert!(CellKey::is_valid_nbformat_id(a.as_str()) && a.as_str().len() == 8);
    assert!(m.is_used(&a));
    assert!(!CellKey::is_valid_nbformat_id("") && !CellKey::is_valid_nbformat_id("a b"));
    assert!(!CellKey::is_valid_nbformat_id(&"x".repeat(65)) && CellKey::is_valid_nbformat_id(&"x".repeat(64)));
}

#[test]
fn keys_survive_saving() {
    let mut nb = open(LEGACY);
    let first = nb.order()[0].clone();
    nb.set_source(&first, "changed");
    let saved = nb.to_bytes();
    let again = Notebook::open("t.ipynb", &saved).unwrap();
    assert_eq!(again.order(), nb.order());
    assert_eq!(value(&again.to_json()), value(&nb.to_json()));
}

#[test]
fn the_kernel_is_recorded() {
    let mut nb = open(OUTPUTS);
    assert_eq!(nb.kernel_name(), Some("python3"));
    nb.set_kernelspec("python3", "Python 3", "python");
    assert!(!nb.is_mutated(), "it is recorded already");
    nb.set_kernelspec("ir", "R", "r");
    assert!(nb.is_mutated());
    assert_eq!(value(&nb.to_json())["metadata"]["kernelspec"]["language"], "r");
}

#[test]
fn a_refused_reload_keeps_the_notebook() {
    let mut nb = open(OUTPUTS);
    let before = snapshot(&nb);
    assert!(nb.reload(b"[]").is_err());
    assert_eq!(snapshot(&nb), before);
    nb.reload(LEGACY.as_bytes()).unwrap();
    assert_eq!(nb.order().len(), 2);
    assert_eq!(nb.path(), "t.ipynb");
}

#[test]
fn a_disturbed_notebook_opens_again_with_its_cells() {
    for seed in 0..20usize {
        let mut nb = open(OUTPUTS);
        for step in 0..12usize {
            disturb(&mut nb, seed * 7919 + step * 104_729);
        }
        if !nb.is_mutated() {
            continue;
        }
        let again = Notebook::open("t.ipynb", &nb.to_bytes()).unwrap();
        let shown = |n: &Notebook| -> Vec<(CellKey, CellKind, String, usize)> {
            n.order()
                .iter()
                .map(|k| {
                    let c = n.cell(k).unwrap();
                    (k.clone(), c.kind(), c.source(), c.outputs().len())
                })
                .collect()
        };
        assert_eq!(shown(&again), shown(&nb), "seed {seed}");
    }
}

fn three() -> Notebook {
    open(
        r#"{"cells":[
            {"cell_type":"raw","id":"a","metadata":{},"source":"1"},
            {"cell_type":"raw","id":"b","metadata":{},"source":"2"},
            {"cell_type":"raw","id":"c","metadata":{},"source":"3"}
        ],"metadata":{},"nbformat":4}"#,
    )
}

fn listed(nb: &Notebook) -> Vec<(String, String)> {
    nb.order().iter().map(|k| (k.as_str().to_string(), nb.cell(k).unwrap().source())).collect()
}

fn pair(k: &str, s: &str) -> (String, String) {
    (k.to_string(), s.to_string())
}

#[test]
fn undoing_a_merge_puts_the_second_cell_back_where_it_was() {
    let all = vec![pair("a", "1"), pair("b", "2"), pair("c", "3")];
    let mut nb = three();
    nb.edit(vec![Change::Merge { key: CellKey::new("a"), next: CellKey::new("c") }]);
    assert_eq!(listed(&nb), [pair("a", "1\n3"), pair("b", "2")]);
    assert!(nb.undo().is_some());
    assert_eq!(listed(&nb), all);
    assert!(nb.redo().is_some());
    assert_eq!(listed(&nb), [pair("a", "1\n3"), pair("b", "2")]);
    assert!(nb.undo().is_some());
    assert_eq!(listed(&nb), all);
    // A cell above the one it is merged into goes back above it.
    nb.edit(vec![Change::Merge { key: CellKey::new("c"), next: CellKey::new("a") }]);
    assert_eq!(listed(&nb), [pair("b", "2"), pair("c", "3\n1")]);
    assert!(nb.undo().is_some());
    assert_eq!(listed(&nb), all);
}

#[test]
fn an_unmerge_divides_a_cell_and_places_the_rest() {
    let (a, b, c) = (CellKey::new("a"), CellKey::new("b"), CellKey::new("c"));
    let mut nb = three();
    nb.set_source(&a, "1\nx\ny");
    nb.edit(vec![
        Change::Hide { key: c.clone() },
        Change::Unmerge { key: a.clone(), line: 1, next: c.clone(), index: 2 },
    ]);
    assert_eq!(listed(&nb), [pair("a", "1"), pair("b", "2"), pair("c", "x\ny")]);
    // There is no such line, and no such cell to put the rest in.
    assert_eq!(nb.edit(vec![Change::Unmerge { key: b.clone(), line: 1, next: c.clone(), index: 0 }]), None);
    let none = CellKey::new("z");
    assert_eq!(nb.edit(vec![Change::Unmerge { key: b, line: 0, next: none, index: 0 }]), None);
}

#[test]
fn there_is_an_end_to_undo_and_an_edit_forgets_what_was_undone() {
    let mut nb = three();
    assert_eq!((nb.undo(), nb.redo()), (None, None));
    nb.edit(vec![Change::Hide { key: CellKey::new("b") }]);
    assert!(nb.undo().is_some());
    assert_eq!(nb.undo(), None);
    nb.edit(vec![Change::Hide { key: CellKey::new("nothing") }]);
    assert!(nb.redo().is_some(), "a group that does nothing leaves the history");
    assert!(nb.undo().is_some());
    nb.edit(vec![Change::Hide { key: CellKey::new("a") }]);
    let before = listed(&nb);
    assert_eq!(nb.redo(), None);
    assert_eq!(listed(&nb), before);
}

#[test]
fn made_keys_are_eight_hex_digits() {
    let hex = |k: &str| k.len() == 8 && k.chars().all(|c| c.is_ascii_digit() || ('a'..='f').contains(&c));
    let mut nb = open(LEGACY);
    assert!(nb.order().iter().all(|k| hex(k.as_str())), "the file has no ids");
    let raw = nb.cell(&nb.order()[0].clone()).unwrap().raw.clone();
    let made = [nb.new_cell(CellKind::Code, ""), nb.copy_cell(&raw), nb.mint_key()];
    assert!(made.iter().all(|k| hex(k.as_str())));
}

#[test]
fn what_is_written_depends_on_whether_anything_changed() {
    let mut nb = open(LEGACY);
    let before = read(LEGACY.as_bytes());
    let first = nb.order()[0].clone();
    let source = nb.cell(&first).unwrap().source();
    let key = nb.new_cell(CellKind::Code, "spare");
    nb.set_source(&first, &source);
    nb.edit(vec![Change::Show { key: first.clone(), index: 0 }]);
    assert_eq!((nb.undo(), nb.redo()), (None, None));
    nb.runtime_mut(&first).unwrap().state = nbv::document::ExecState::Done;
    assert!(!nb.is_mutated());
    assert_eq!(value(&nb.to_json()), before);
    nb.edit(vec![Change::Show { key: key.clone(), index: 1 }]);
    nb.undo();
    assert!(nb.is_mutated(), "it has changed, and was changed back");
    let after = value(&nb.to_json());
    assert_eq!(after["nbformat_minor"], 5);
    let ids: Vec<&str> = after["cells"].as_array().unwrap().iter().map(|c| c["id"].as_str().unwrap()).collect();
    assert_eq!(ids, nb.order().iter().map(|k| k.as_str()).collect::<Vec<_>>());
    assert!(nb.is_tombstoned(&key) && !nb.is_live(&key), "made cells stay");
}

fn merged_and_reused() -> (Notebook, CellKey, Vec<Change>) {
    let mut nb = open(
        r#"{"cells":[
            {"cell_type":"raw","id":"a","metadata":{},"source":"1"},
            {"cell_type":"raw","id":"k","metadata":{},"source":"k1\nk2"},
            {"cell_type":"raw","id":"x","metadata":{},"source":"h\nt1\nt2"}
        ],"metadata":{},"nbformat":4}"#,
    );
    let m = nb.new_cell(CellKind::Raw, "");
    let key = CellKey::new;
    let group = vec![
        Change::Merge { key: key("a"), next: key("k") },
        Change::Show { key: key("k"), index: 1 },
        Change::Split { key: key("k"), line: 1, new: m.clone() },
        Change::Hide { key: key("k") },
        Change::Split { key: key("x"), line: 1, new: key("k") },
    ];
    (nb, m, group)
}

#[test]
fn redo_needs_the_lines_that_a_group_split() {
    let (mut nb, m, group) = merged_and_reused();
    let start = listed(&nb);
    nb.edit(group);
    let name = m.as_str().to_string();
    let end = [pair("a", "1\nk1\nk2"), pair(&name, "k2"), pair("x", "h"), pair("k", "t1\nt2")];
    assert_eq!(listed(&nb), end);
    assert!(nb.undo().is_some());
    assert_eq!(listed(&nb), start);
    // Undoing joined two lines to the one that was split off, so there is no third to split at.
    assert!(nb.redo().is_some());
    assert_eq!(listed(&nb), [pair("a", "1\nk1\nk2"), pair("x", "h"), pair("k", "t1\nt2")]);
    assert!(nb.is_tombstoned(&m));
}

#[test]
fn undo_and_redo_restore_a_group_that_splits_into_new_cells() {
    let (mut nb, m, mut group) = merged_and_reused();
    let n = nb.new_cell(CellKind::Raw, "");
    group[4] = Change::Split { key: CellKey::new("x"), line: 1, new: n.clone() };
    let start = listed(&nb);
    nb.edit(group);
    let end = listed(&nb);
    assert_eq!(
        end,
        [pair("a", "1\nk1\nk2"), pair(m.as_str(), "k2"), pair("x", "h"), pair(n.as_str(), "t1\nt2")]
    );
    for _ in 0..3 {
        assert!(nb.undo().is_some());
        assert_eq!(listed(&nb), start);
        assert!(nb.redo().is_some());
        assert_eq!(listed(&nb), end);
    }
}

#[test]
fn undo_needs_the_lines_that_a_group_overwrote() {
    let mut nb = three();
    nb.set_source(&CellKey::new("a"), "1\nx");
    nb.edit(vec![
        Change::Hide { key: CellKey::new("b") },
        Change::Split { key: CellKey::new("a"), line: 1, new: CellKey::new("b") },
    ]);
    assert!(nb.undo().is_some());
    assert_eq!(listed(&nb), [pair("a", "1\nx"), pair("b", "x"), pair("c", "3")]);
}
