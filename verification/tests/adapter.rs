use nbv::adapter::{CellKind, LanguageProjection, Marker, PythonProjection};
use nbv::key::CellKey;

fn py() -> PythonProjection {
    PythonProjection
}

#[test]
fn marker_grammar() {
    let p = py();
    assert_eq!(p.parse_marker("# %%"), Some(Marker { kind: CellKind::Code, key: None }));
    assert_eq!(
        p.parse_marker("# %% [markdown] id=\"ab\""),
        Some(Marker { kind: CellKind::Markdown, key: Some(CellKey::new("ab")) })
    );
    assert_eq!(p.parse_marker("# %% [raw]").unwrap().kind, CellKind::Raw);
    for not in [
        "# %% Load data",
        "# %% id=\"x\" tags=[\"a\"]",
        "# %% ",
        " # %%",
        "# %% id= \"x\"",
        "# %% id=\"x\" ",
        "# %% [code]",
        "#%%",
        "# %% id=x",
    ] {
        assert_eq!(p.parse_marker(not), None, "{not:?}");
    }
    let k = CellKey::new("we\"ird\\id");
    let m = p.format_marker(CellKind::Raw, &k);
    assert_eq!(m, "# %% [raw] id=\"we\\\"ird\\\\id\"");
    assert_eq!(p.parse_marker(&m), Some(Marker { kind: CellKind::Raw, key: Some(k) }));
}

#[test]
fn magics_round_trip() {
    let p = py();
    let src = "%matplotlib inline\n  !ls -la\nx = !pwd\n# %time\n%%bash\nprint(1)\na != b";
    let buf = p.to_buffer(CellKind::Code, src);
    assert_eq!(buf[0], "# %matplotlib inline");
    assert_eq!(buf[1], "  # !ls -la");
    assert_eq!(buf[2], "# x = !pwd");
    assert_eq!(buf[3], "# # %time");
    assert_eq!(buf[5], "print(1)");
    assert_eq!(buf[6], "a != b");
    assert_eq!(p.from_buffer(CellKind::Code, &buf), src);
}

#[test]
fn marker_like_lines_are_escaped() {
    let p = py();
    for kind in [CellKind::Code, CellKind::Markdown, CellKind::Raw] {
        let src = "# %%\n# # %% id=\"k\"\n%%\n%% [raw]";
        let buf = p.to_buffer(kind, src);
        assert!(buf.iter().all(|l| p.parse_marker(l).is_none()), "{kind:?} {buf:?}");
        assert_eq!(p.from_buffer(kind, &buf), src);
    }
}

#[test]
fn markdown_accepts_uncommented_text() {
    let p = py();
    let lines = vec!["# Title".to_string(), "#".into(), "typed raw".into()];
    assert_eq!(p.from_buffer(CellKind::Markdown, &lines), "Title\n\ntyped raw");
}

#[test]
fn every_source_comes_back_from_the_buffer() {
    let p = py();
    let sources = ["", "\n", "a\n", "# %%", "# # %% [raw]", "%%time\nx", "!ls", "x=!ls", "#", "# a", "?x", "x?"];
    for kind in [CellKind::Code, CellKind::Markdown, CellKind::Raw] {
        for s in sources {
            let buf = p.to_buffer(kind, s);
            assert_eq!(p.from_buffer(kind, &buf), s, "{kind:?} {s:?}");
            assert!(buf.iter().all(|l| p.parse_marker(l).is_none()), "{kind:?} {s:?}");
        }
    }
}

#[test]
fn kinds_are_named_and_read_back() {
    for kind in [CellKind::Code, CellKind::Markdown, CellKind::Raw] {
        assert_eq!(CellKind::from_nbformat(kind.as_nbformat()), Some(kind));
    }
    assert_eq!(CellKind::Markdown.as_nbformat(), "markdown");
    assert_eq!(CellKind::from_nbformat("heading"), None);
}

#[test]
fn the_buffer_is_a_python_file() {
    assert_eq!(py().filetype(), "python");
    assert_eq!(py().buffer_suffix(), ".py");
    assert_eq!(nbv::editor::buffer_path("/n/a.ipynb"), "/n/a.ipynb.py");
}

#[test]
fn nothing_stands_around_a_marker() {
    let p = py();
    for kind in [CellKind::Code, CellKind::Markdown, CellKind::Raw] {
        let m = p.format_marker(kind, &CellKey::new("a\"b"));
        assert!(p.parse_marker(&m).is_some());
        for c in ['"', ' ', 'x', '#', '\t', '\\'] {
            assert_eq!(p.parse_marker(&format!("{m}{c}")), None, "{c:?} behind");
            assert_eq!(p.parse_marker(&format!("{c}{m}")), None, "{c:?} before");
        }
        assert_eq!(p.parse_marker(&format!("{m} \"")), None);
    }
}
