use nbv::executor::Content;
use nbv::kernel::{
    choices, command_line, connection_file_name, first_kernel, from_spec, install_command, is_input_request, keep_tail, launcher_python,
    new_session, new_signing_key, path_python, resolve, session_name, signing_key, spec_wanted, tail_text, venv,
    KernelCommand, KernelError, Kernelspec, TAIL,
};

fn spec(name: &str) -> Kernelspec {
    Kernelspec {
        kernel_name: name.into(),
        argv: vec!["run".into(), "-f".into(), "{connection_file}".into()],
        env: Some(vec![("A".into(), "1".into())]),
        interrupt_mode: Some("message".into()),
        display_name: format!("Kernel {name}"),
        language: "Python".into(),
    }
}

#[test]
fn a_kernelspec_becomes_a_command() {
    let c = from_spec(&spec("k"));
    assert_eq!(c.spec_name.as_deref(), Some("k"));
    assert!(c.interrupt_via_message);
    assert_eq!(c.language, "python");
    let (program, args) = command_line(&c, "/run/c.json").unwrap();
    assert_eq!((program.as_str(), args), ("run", vec!["-f".to_string(), "/run/c.json".to_string()]));
    let empty = KernelCommand { argv: vec![], ..from_spec(&spec("k")) };
    assert_eq!(command_line(&empty, "f").unwrap_err().message(), "no kernel for \"Kernel k\": empty argv");
}

#[test]
fn python_notebooks_prefer_virtualenvs() {
    let v = venv("/v", "/v/bin/python");
    assert_eq!(v.display_name, "Python (/v)");
    assert_eq!(v.argv[0], "/v/bin/python");
    let p = path_python("/usr/bin/python3");
    assert_eq!(p.display_name, "Python 3 (/usr/bin/python3)");
    let s = spec("python3");
    assert_eq!(resolve(None, Some(&v), Some(&p), Ok(&s), None).unwrap(), v);
    assert_eq!(resolve(Some("python3"), None, Some(&v), Ok(&s), None).unwrap(), v);
    assert_eq!(resolve(Some("ir"), Some(&v), Some(&v), Ok(&s), None).unwrap(), from_spec(&s));
    assert_eq!(resolve(None, None, None, Err("none"), Some(&p)).unwrap(), p);
    let e = resolve(Some("ir"), None, None, Err("not installed"), Some(&p)).unwrap_err();
    assert_eq!(e.message(), "no kernel for \"ir\": not installed");
    assert_eq!(spec_wanted(None), "python3");
    assert_eq!(spec_wanted(Some("ir")), "ir");
}

#[test]
fn choices_are_in_order_and_sorted() {
    let v = venv("/v", "/v/bin/python");
    let l = venv("/l", "/l/bin/python");
    let p = path_python("/usr/bin/python3");
    let all = choices(Some(&v), &vec![l.clone()], &vec![spec("b"), spec("a")], Some(&p));
    let names: Vec<&str> = all.iter().map(|c| c.display_name.as_str()).collect();
    assert_eq!(names, ["Python (/v)", "Python (/l)", "Kernel a", "Kernel b", "Python 3 (/usr/bin/python3)"]);
    assert!(choices(None, &vec![], &vec![], None).is_empty());
}

#[test]
fn only_the_tail_of_stderr_is_kept() {
    let mut tail = vec![];
    for i in 0..TAIL + 5 {
        keep_tail(&mut tail, format!("{i}"));
    }
    assert_eq!(tail.len(), TAIL);
    assert_eq!(tail[0], "5");
    assert!(tail_text(&tail).ends_with("23\n24"));
}

#[test]
fn names_are_drawn() {
    assert_eq!(session_name(255), "nbv-00000000000000ff");
    assert_eq!(connection_file_name("s"), "kernel-s.json");
    assert_eq!(signing_key(1, 2), "00000000000000010000000000000002");
    assert_ne!(new_session(), new_session());
    assert_eq!(new_signing_key().len(), 32);
}

#[test]
fn errors_say_what_happened() {
    assert_eq!(KernelError::Spawn("x".into()).message(), "cannot start kernel: x");
    assert_eq!(KernelError::Connection("x".into()).message(), "kernel connection: x");
    assert_eq!(KernelError::Timeout(30, ":\nlast".into()).message(), "kernel did not answer within 30s:\nlast");
    assert_eq!(
        KernelError::NotFound("a\"b".into(), "no".into()).message(),
        "no kernel for \"a\\\"b\": no"
    );
}

#[test]
fn ipykernel_is_installed_with_pip_or_uv() {
    assert_eq!(launcher_python(&path_python("py")).as_deref(), Some("py"));
    let other = KernelCommand { argv: vec!["R".into(), "ipykernel".into()], ..path_python("py") };
    assert_eq!(launcher_python(&other), None);
    assert_eq!(launcher_python(&KernelCommand { argv: vec![], ..path_python("py") }), None);
    assert_eq!(install_command("py", true), ["py", "-m", "pip", "install", "ipykernel"]);
    assert_eq!(install_command("py", false), ["uv", "pip", "install", "--python", "py", "ipykernel"]);
    assert!(is_input_request(&Content::InputRequest { prompt: String::new(), password: false }));
    assert!(!is_input_request(&Content::Other));
}

#[test]
fn the_kernel_picked_last_time_comes_first() {
    let picked = from_spec(&spec("picked"));
    let found = from_spec(&spec("found"));
    assert_eq!(first_kernel(Some(&picked), Ok(found.clone())).unwrap(), picked);
    assert_eq!(first_kernel(Some(&picked), Err(KernelError::Spawn("x".into()))).unwrap(), picked);
    assert_eq!(first_kernel(None, Ok(found.clone())).unwrap(), found);
    assert!(matches!(first_kernel(None, Err(KernelError::Spawn("x".into()))), Err(KernelError::Spawn(_))));
}
