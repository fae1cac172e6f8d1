use nbv::kernel::KernelCommand;
use nbv::memory::{state_file, KernelMemory, MemoryError};
use nbv::path::{file_name, is_path_less, is_same_path};

fn cmd(name: &str) -> KernelCommand {
    KernelCommand {
        argv: vec!["/venv/bin/python".into(), "-m".into(), "ipykernel_launcher".into()],
        env: Default::default(),
        interrupt_via_message: false,
        display_name: name.into(),
        language: "python".into(),
        spec_name: None,
    }
}

#[test]
fn remembers_across_sessions_and_follows_renames() {
    let file = "/state/nbv/kernels.json";
    let (a, b) = ("/n/a.ipynb", "/n/b.ipynb");
    let mut m = KernelMemory::at(file, None).unwrap();
    assert!(m.get(a).is_none());
    m.remember(a, &cmd("first"));
    let text = m.remember(a, &cmd("second"));
    assert_eq!(KernelMemory::at(file, Some(&text)).unwrap().get(a), Some(&cmd("second")));

    let text = m.renamed(a, b).unwrap();
    let m = KernelMemory::at(file, Some(&text)).unwrap();
    assert!(m.get(a).is_none());
    assert_eq!(m.get(b), Some(&cmd("second")));
}

#[test]
fn a_damaged_file_is_an_error() {
    let r = KernelMemory::at("kernels.json", Some(b"not json"));
    assert!(matches!(r, Err(MemoryError::Invalid(..))));
    assert!(r.unwrap_err().message().contains("kernels.json"));
    assert!(matches!(KernelMemory::at("k", Some(b"{\"a\": 3}")), Err(MemoryError::Invalid(..))));
    assert!(matches!(KernelMemory::at("k", Some(b"[]")), Err(MemoryError::Invalid(..))));
}

#[test]
fn every_field_comes_back() {
    let mut m = KernelMemory::at("f", None).unwrap();
    let full = KernelCommand {
        argv: vec!["a b".into(), "\"quoted\"".into(), "{connection_file}".into()],
        env: vec![("X".into(), "1".into()), ("Y".into(), "é".into())],
        interrupt_via_message: true,
        display_name: "R".into(),
        language: "r".into(),
        spec_name: Some("ir".into()),
    };
    m.remember("/n/z.ipynb", &cmd("plain"));
    let text = m.remember("/n/b.ipynb", &full);
    let again = KernelMemory::at("f", Some(&text)).unwrap();
    assert_eq!(again.get("/n/b.ipynb"), Some(&full));
    assert_eq!(again.get("/n/z.ipynb"), Some(&cmd("plain")));
    assert_eq!(again.to_bytes(), text);
    assert!(again.get("/n/c.ipynb").is_none());
}

#[test]
fn renaming_what_was_never_picked_writes_nothing() {
    let mut m = KernelMemory::at("f", None).unwrap();
    m.remember("/a", &cmd("a"));
    assert!(m.renamed("/other", "/b").is_none());
    assert_eq!(m.get("/a"), Some(&cmd("a")));
}

#[test]
fn the_file_is_in_the_state_directory() {
    assert_eq!(state_file(Some("/s"), Some("/h")).unwrap(), "/s/nbv/kernels.json");
    assert_eq!(state_file(None, Some("/h")).unwrap(), "/h/.local/state/nbv/kernels.json");
    let e = state_file(None, None).unwrap_err();
    assert!(matches!(e, MemoryError::NoStateDir));
    assert!(!e.message().is_empty());
}

#[test]
fn paths_are_compared_by_their_parts() {
    let mut m = KernelMemory::at("f", None).unwrap();
    m.remember("/n//a.ipynb", &cmd("first"));
    m.remember("/n/./a.ipynb", &cmd("second"));
    assert_eq!(m.get("/n/a.ipynb"), Some(&cmd("second")));
    assert!(m.get("n/a.ipynb").is_none());
    assert_eq!(m.kernels.len(), 1);
    assert_eq!(m.kernels[0].0, "/n//a.ipynb", "the path keeps its text");
    m.renamed("/n/a.ipynb/", "/n/b.ipynb").unwrap();
    assert!(m.get("/n/a.ipynb").is_none());
    assert_eq!(m.get("/n/b.ipynb"), Some(&cmd("second")));
}

#[test]
fn paths_are_in_the_order_of_their_parts() {
    let mut m = KernelMemory::at("f", None).unwrap();
    for p in ["b", "/a-b/x", "../c", "/a/x", "./c", "/a"] {
        m.remember(p, &cmd(p));
    }
    let text = m.to_bytes();
    let again = KernelMemory::at("f", Some(&text)).unwrap();
    let order: Vec<&str> = again.kernels.iter().map(|k| k.0.as_str()).collect();
    assert_eq!(order, ["/a", "/a/x", "/a-b/x", "./c", "../c", "b"]);
    assert_eq!(again.kernels, m.kernels);
    // The same order as the standard library gives paths.
    let mut sorted: Vec<std::path::PathBuf> = order.iter().map(std::path::PathBuf::from).collect();
    sorted.sort();
    assert_eq!(sorted, order.iter().map(std::path::PathBuf::from).collect::<Vec<_>>());
}

#[test]
fn the_last_part_of_a_path_is_its_name() {
    for path in
        ["t.ipynb", "/n/t.ipynb", "t.ipynb/.", "t.ipynb//", "..", "a/..", "/", "", ".", "./", "./a", "/a/./b/", ".x", "..."]
    {
        let std = std::path::Path::new(path).file_name().map(|n| n.to_string_lossy().into_owned()).unwrap_or_default();
        assert_eq!(file_name(path), std, "{path:?}");
    }
    assert_eq!(file_name("t.ipynb/."), "t.ipynb");
    assert_eq!(file_name(".."), "");
}

#[test]
fn paths_compare_as_the_standard_library_compares_them() {
    let paths = ["", ".", "./", "/", "//", "a", "a/", "./a", "a/.", "a/b", "a//b", "a/./b", "a-b", "..", "../a", "/a", "é", "a/.b"];
    for a in paths {
        for b in paths {
            let (x, y) = (std::path::Path::new(a), std::path::Path::new(b));
            assert_eq!(is_same_path(a, b), x == y, "{a:?} {b:?}");
            assert_eq!(is_path_less(a, b), x < y, "{a:?} {b:?}");
        }
    }
}
