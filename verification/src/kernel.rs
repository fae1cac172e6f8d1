//! Kernels: which one a notebook runs on, how it is started, and what is said when it is not.

use crate::document::opt_text;
use crate::executor::Content;
use crate::key::hex_digit;
use crate::text::{
    append_chars, cat, cat3, chars_of, copy_strings, decimal, decimal_chars, has_prefix, is_less,
    join, join_lines, lemma_text_total, lemma_text_trans, lowercased, one, starts_with, str_eq, string_of, text_less, texts,
    to_lowercase,
};
use vstd::prelude::*;

verus! {

/// How to start a kernel.
#[derive(Debug, PartialEq)]
pub struct KernelCommand {
    /// `{connection_file}` is replaced with the connection file path.
    pub argv: Vec<String>,
    /// Variables set for the kernel, each with its value.
    pub env: Vec<(String, String)>,
    pub interrupt_via_message: bool,
    pub display_name: String,
    /// The language of code cells, lowercased as editors name it (`python`, `r`).
    pub language: String,
    /// The installed kernelspec this comes from, if any.
    pub spec_name: Option<String>,
}

/// What a [`KernelCommand`] holds.
pub struct CommandV {
    pub argv: Seq<Seq<char>>,
    pub env: Seq<(Seq<char>, Seq<char>)>,
    pub interrupt_via_message: bool,
    pub display_name: Seq<char>,
    pub language: Seq<char>,
    pub spec_name: Option<Seq<char>>,
}

pub open spec fn pairs(v: Seq<(String, String)>) -> Seq<(Seq<char>, Seq<char>)> {
    Seq::new(v.len(), |i: int| (v[i].0@, v[i].1@))
}

impl View for KernelCommand {
    type V = CommandV;

    open spec fn view(&self) -> CommandV {
        CommandV {
            argv: texts(self.argv@),
            env: pairs(self.env@),
            interrupt_via_message: self.interrupt_via_message,
            display_name: self.display_name@,
            language: self.language@,
            spec_name: opt_text(self.spec_name),
        }
    }
}

/// Whether a command sets each variable once.
pub open spec fn sets_once(c: CommandV) -> bool {
    forall|i: int, j: int|
        0 <= i < j < c.env.len() ==> (#[trigger] c.env[i]).0 != (#[trigger] c.env[j]).0
}

/// Whether every command sets each variable once.
pub open spec fn all_set_once(s: Seq<CommandV>) -> bool {
    forall|i: int| 0 <= i < s.len() ==> sets_once(#[trigger] s[i])
}

pub(crate) fn copy_pairs(v: &Vec<(String, String)>) -> (r: Vec<(String, String)>)
    ensures
        pairs(r@) == pairs(v@),
{
    let mut out: Vec<(String, String)> = Vec::new();
    let mut i: usize = 0;
    while i < v.len()
        invariant
            i <= v@.len(),
            out@.len() == i,
            forall|j: int|
                0 <= j < i ==> (#[trigger] out@[j]).0@ == v@[j].0@ && out@[j].1@ == v@[j].1@,
        decreases v@.len() - i,
    {
        out.push((v[i].0.clone(), v[i].1.clone()));
        i += 1;
    }
    assert(pairs(out@) =~= pairs(v@));
    out
}

fn copy_opt(s: &Option<String>) -> (r: Option<String>)
    ensures
        opt_text(r) == opt_text(*s),
{
    match s {
        Some(s) => Some(s.clone()),
        None => None,
    }
}

impl Clone for KernelCommand {
    fn clone(&self) -> (r: Self)
        ensures
            r@ == self@,
    {
        KernelCommand {
            argv: copy_strings(&self.argv),
            env: copy_pairs(&self.env),
            interrupt_via_message: self.interrupt_via_message,
            display_name: self.display_name.clone(),
            language: self.language.clone(),
            spec_name: copy_opt(&self.spec_name),
        }
    }
}

/// An installed kernelspec.
#[derive(Debug)]
pub struct Kernelspec {
    pub kernel_name: String,
    pub argv: Vec<String>,
    pub env: Option<Vec<(String, String)>>,
    pub interrupt_mode: Option<String>,
    pub display_name: String,
    pub language: String,
}

/// What a [`Kernelspec`] holds.
pub struct SpecV {
    pub kernel_name: Seq<char>,
    pub argv: Seq<Seq<char>>,
    pub env: Option<Seq<(Seq<char>, Seq<char>)>>,
    pub interrupt_mode: Option<Seq<char>>,
    pub display_name: Seq<char>,
    pub language: Seq<char>,
}

impl View for Kernelspec {
    type V = SpecV;

    open spec fn view(&self) -> SpecV {
        SpecV {
            kernel_name: self.kernel_name@,
            argv: texts(self.argv@),
            env: match self.env {
                Some(e) => Some(pairs(e@)),
                None => None,
            },
            interrupt_mode: opt_text(self.interrupt_mode),
            display_name: self.display_name@,
            language: self.language@,
        }
    }
}

/// Why there is no working kernel.
#[derive(Debug)]
pub enum KernelError {
    NotFound(String, String),
    Spawn(String),
    /// No answer within so many seconds.
    Timeout(u64, String),
    Connection(String),
}

/// A text in quotes, escaped as Rust writes it.
pub uninterp spec fn quoted(s: Seq<char>) -> Seq<char>;

/// `str`'s `Debug` writes a text in quotes, escaped.
#[verifier::external_body]
fn quote(s: &str) -> (r: String)
    ensures
        r@ == quoted(s@),
{
    format!("{s:?}")
}

impl KernelError {
    pub open spec fn shown(&self) -> Seq<char> {
        match *self {
            KernelError::NotFound(name, why) => "no kernel for "@ + quoted(name@) + ": "@ + why@,
            KernelError::Spawn(why) => "cannot start kernel: "@ + why@,
            KernelError::Timeout(secs, tail) => "kernel did not answer within "@ + decimal(
                secs as nat,
            ) + "s"@ + tail@,
            KernelError::Connection(why) => "kernel connection: "@ + why@,
        }
    }

    pub fn message(&self) -> (r: String)
        ensures
            r@ == self.shown(),
    {
        match self {
            KernelError::NotFound(name, why) => {
                let head = cat3("no kernel for ", quote(name.as_str()).as_str(), ": ");
                cat(head.as_str(), why.as_str())
            },
            KernelError::Spawn(why) => cat("cannot start kernel: ", why.as_str()),
            KernelError::Timeout(secs, tail) => {
                let mut out = chars_of("kernel did not answer within ");
                append_chars(&mut out, &decimal_chars(*secs));
                append_chars(&mut out, &chars_of("s"));
                append_chars(&mut out, &chars_of(tail.as_str()));
                string_of(&out)
            },
            KernelError::Connection(why) => cat("kernel connection: ", why.as_str()),
        }
    }
}

/// The command that runs IPython's kernel with a Python.
pub open spec fn launched(python: Seq<char>, display_name: Seq<char>) -> CommandV {
    CommandV {
        argv: seq![python, "-m"@, "ipykernel_launcher"@, "-f"@, "{connection_file}"@],
        env: Seq::empty(),
        interrupt_via_message: false,
        display_name,
        language: "python"@,
        spec_name: None,
    }
}

fn launcher(python: &str, display_name: String) -> (r: KernelCommand)
    ensures
        r@ == launched(python@, display_name@),
{
    let mut argv: Vec<String> = Vec::new();
    argv.push(python.to_string());
    argv.push("-m".to_string());
    argv.push("ipykernel_launcher".to_string());
    argv.push("-f".to_string());
    argv.push("{connection_file}".to_string());
    let r = KernelCommand {
        argv,
        env: Vec::new(),
        interrupt_via_message: false,
        display_name,
        language: "python".to_string(),
        spec_name: None,
    };
    assert(r@.argv =~= launched(python@, display_name@).argv);
    assert(r@.env =~= Seq::empty());
    r
}

/// The command of an installed kernelspec.
pub open spec fn spec_command(s: SpecV) -> CommandV {
    CommandV {
        argv: s.argv,
        env: match s.env {
            Some(e) => e,
            None => Seq::empty(),
        },
        interrupt_via_message: s.interrupt_mode == Some("message"@),
        display_name: s.display_name,
        language: lowercased(s.language),
        spec_name: Some(s.kernel_name),
    }
}

pub fn from_spec(s: &Kernelspec) -> (r: KernelCommand)
    ensures
        r@ == spec_command(s@),
{
    let env = match &s.env {
        Some(e) => copy_pairs(e),
        None => {
            let none: Vec<(String, String)> = Vec::new();
            assert(pairs(none@) =~= Seq::empty());
            none
        },
    };
    let interrupt_via_message = match &s.interrupt_mode {
        Some(m) => str_eq(m.as_str(), "message"),
        None => false,
    };
    KernelCommand {
        argv: copy_strings(&s.argv),
        env,
        interrupt_via_message,
        display_name: s.display_name.clone(),
        language: to_lowercase(s.language.as_str()),
        spec_name: Some(s.kernel_name.clone()),
    }
}

/// A virtualenv's Python, found at `python`.
pub fn venv(dir: &str, python: &str) -> (r: KernelCommand)
    ensures
        r@ == launched(python@, "Python ("@ + dir@ + ")"@),
{
    launcher(python, cat3("Python (", dir, ")"))
}

/// The `python3` of `PATH`, found at `python`.
pub fn path_python(python: &str) -> (r: KernelCommand)
    ensures
        r@ == launched(python@, "Python 3 ("@ + python@ + ")"@),
{
    launcher(python, cat3("Python 3 (", python, ")"))
}

/// Whether a notebook that names this kernel is a Python notebook.
pub open spec fn is_python(kernel_name: Option<Seq<char>>) -> bool {
    match kernel_name {
        Some(n) => starts_with(n, "python"@),
        None => true,
    }
}

/// The kernelspec to look for.
pub open spec fn wanted_spec(kernel_name: Option<Seq<char>>) -> Seq<char> {
    match kernel_name {
        Some(n) => n,
        None => "python3"@,
    }
}

pub open spec fn opt_str(s: Option<&str>) -> Option<Seq<char>> {
    match s {
        Some(s) => Some(s@),
        None => None,
    }
}

pub open spec fn opt_command(c: Option<&KernelCommand>) -> Option<CommandV> {
    match c {
        Some(c) => Some(c@),
        None => None,
    }
}

/// The name of the kernelspec to look for.
pub fn spec_wanted(kernel_name: Option<&str>) -> (r: String)
    ensures
        r@ == wanted_spec(opt_str(kernel_name)),
{
    match kernel_name {
        Some(n) => n.to_string(),
        None => "python3".to_string(),
    }
}

/// The kernel chosen for a notebook, or what was looked for and why it was not found.
pub open spec fn resolved(
    kernel_name: Option<Seq<char>>,
    active: Option<CommandV>,
    local: Option<CommandV>,
    found: Result<SpecV, Seq<char>>,
    on_path: Option<CommandV>,
) -> Result<CommandV, (Seq<char>, Seq<char>)> {
    let python = is_python(kernel_name);
    if python && active is Some {
        Ok(active->0)
    } else if python && local is Some {
        Ok(local->0)
    } else {
        match found {
            Ok(s) => Ok(spec_command(s)),
            Err(why) => if python && on_path is Some {
                Ok(on_path->0)
            } else {
                Err((wanted_spec(kernel_name), why))
            },
        }
    }
}

/// What choosing a kernel came to.
pub open spec fn resolution(r: Result<KernelCommand, KernelError>) -> Result<
    CommandV,
    (Seq<char>, Seq<char>),
> {
    match r {
        Ok(c) => Ok(c@),
        Err(KernelError::NotFound(n, w)) => Err((n@, w@)),
        Err(e) => Err(("error"@, e.shown())),
    }
}

/// Chooses the kernel for a notebook, as Jupyter picks one automatically: for a Python
/// notebook the active virtualenv first, then one in the working directory, then the
/// notebook's kernelspec (`found`, or why there is none), then `python3` from `PATH`. The
/// choice is shown to the user, who can change it.
pub fn resolve(
    kernel_name: Option<&str>,
    active: Option<&KernelCommand>,
    local: Option<&KernelCommand>,
    found: Result<&Kernelspec, &str>,
    on_path: Option<&KernelCommand>,
) -> (r: Result<KernelCommand, KernelError>)
    ensures
        resolution(r) == resolved(
            opt_str(kernel_name),
            opt_command(active),
            opt_command(local),
            match found {
                Ok(s) => Ok(s@),
                Err(why) => Err(why@),
            },
            opt_command(on_path),
        ),
        r is Err ==> r->Err_0 is NotFound,
{
    let python = match kernel_name {
        Some(n) => has_prefix(&chars_of(n), "python"),
        None => true,
    };
    if python {
        if let Some(k) = active {
            return Ok(k.clone());
        }
        if let Some(k) = local {
            return Ok(k.clone());
        }
    }
    match found {
        Ok(s) => Ok(from_spec(s)),
        Err(why) => {
            if python {
                if let Some(k) = on_path {
                    return Ok(k.clone());
                }
            }
            Err(KernelError::NotFound(spec_wanted(kernel_name), why.to_string()))
        },
    }
}

/// A command put among commands in the order of their kernelspecs' names, after its equals.
pub open spec fn placed(s: Seq<SpecV>, x: SpecV) -> Seq<SpecV>
    decreases s.len(),
{
    if s.len() > 0 && text_less(x.kernel_name, s.last().kernel_name) {
        placed(s.drop_last(), x).push(s.last())
    } else {
        s.push(x)
    }
}

/// Kernelspecs in the order of their names; equals keep their order.
pub open spec fn by_name(s: Seq<SpecV>) -> Seq<SpecV>
    decreases s.len(),
{
    if s.len() == 0 {
        s
    } else {
        placed(by_name(s.drop_last()), s.last())
    }
}

pub open spec fn specs_view(v: Seq<Kernelspec>) -> Seq<SpecV> {
    Seq::new(v.len(), |i: int| v[i]@)
}

pub open spec fn commands_view(v: Seq<KernelCommand>) -> Seq<CommandV> {
    Seq::new(v.len(), |i: int| v[i]@)
}

fn copy_spec(s: &Kernelspec) -> (r: Kernelspec)
    ensures
        r@ == s@,
{
    let env = match &s.env {
        Some(e) => Some(copy_pairs(e)),
        None => None,
    };
    Kernelspec {
        kernel_name: s.kernel_name.clone(),
        argv: copy_strings(&s.argv),
        env,
        interrupt_mode: copy_opt(&s.interrupt_mode),
        display_name: s.display_name.clone(),
        language: s.language.clone(),
    }
}

fn place(out: &mut Vec<Kernelspec>, x: Kernelspec)
    ensures
        specs_view(final(out)@) == placed(specs_view(old(out)@), x@),
{
    let ghost before = specs_view(out@);
    let ghost xv = x@;
    let mut i: usize = out.len();
    assert(before.take(i as int) =~= before);
    assert(before.skip(i as int) =~= Seq::empty());
    assert(placed(before, xv) =~= placed(before.take(i as int), xv) + before.skip(i as int));
    while i > 0 && is_less(x.kernel_name.as_str(), out[i - 1].kernel_name.as_str())
        invariant
            i <= out@.len(),
            before == specs_view(out@),
            xv == x@,
            placed(before, xv) == placed(before.take(i as int), xv) + before.skip(i as int),
        decreases i,
    {
        let ghost t = before.take(i as int);
        assert(t.last() == out@[i - 1]@);
        assert(t.drop_last() =~= before.take(i - 1));
        assert(placed(t, xv) + before.skip(i as int) =~= placed(t.drop_last(), xv) + before.skip(
            i - 1,
        ));
        i -= 1;
    }
    assert(placed(before.take(i as int), xv) == before.take(i as int).push(xv)) by {
        if i > 0 {
            assert(before.take(i as int).last() == out@[i - 1]@);
        }
    }
    out.insert(i, x);
    assert(specs_view(out@) =~= before.take(i as int).push(xv) + before.skip(i as int));
}

/// The kernel that a session starts with, of the one remembered and the one found.
pub open spec fn started_with(
    remembered: Option<CommandV>,
    found: Result<CommandV, (Seq<char>, Seq<char>)>,
) -> Result<CommandV, (Seq<char>, Seq<char>)> {
    match remembered {
        Some(c) => Ok(c),
        None => found,
    }
}

/// The kernel that a session starts with: the one picked last time comes before any other.
pub fn first_kernel(
    remembered: Option<&KernelCommand>,
    resolved: Result<KernelCommand, KernelError>,
) -> (r: Result<KernelCommand, KernelError>)
    ensures
        match remembered {
            Some(c) => r is Ok && r->Ok_0@ == c@,
            None => r == resolved,
        },
        resolution(r) == started_with(opt_command(remembered), resolution(resolved)),
{
    match remembered {
        Some(c) => Ok(c.clone()),
        None => resolved,
    }
}

/// Every kernel the user can pick: the active virtualenv, the virtualenvs in the working
/// directory, each installed kernelspec by name, and `python3` from `PATH`.
pub fn choices(
    active: Option<&KernelCommand>,
    local: &Vec<KernelCommand>,
    specs: &Vec<Kernelspec>,
    on_path: Option<&KernelCommand>,
) -> (r: Vec<KernelCommand>)
    ensures
        commands_view(r@) == offered(
            opt_command(active),
            commands_view(local@),
            specs_view(specs@),
            opt_command(on_path),
        ),
{
    let mut sorted: Vec<Kernelspec> = Vec::new();
    let ghost all = specs_view(specs@);
    let mut i: usize = 0;
    assert(specs_view(sorted@) =~= by_name(all.take(0)));
    while i < specs.len()
        invariant
            i <= specs@.len(),
            all == specs_view(specs@),
            specs_view(sorted@) == by_name(all.take(i as int)),
        decreases specs@.len() - i,
    {
        assert(all.take(i + 1).drop_last() =~= all.take(i as int));
        assert(all.take(i + 1).last() == specs@[i as int]@);
        place(&mut sorted, copy_spec(&specs[i]));
        i += 1;
    }
    assert(all.take(i as int) =~= all);
    let mut out: Vec<KernelCommand> = Vec::new();
    if let Some(k) = active {
        out.push(k.clone());
    }
    let ghost first = opt_seq(opt_command(active));
    assert(commands_view(out@) =~= first);
    let ghost near = commands_view(local@);
    i = 0;
    assert(first + near.take(0) =~= first);
    while i < local.len()
        invariant
            i <= local@.len(),
            near == commands_view(local@),
            commands_view(out@) == first + near.take(i as int),
        decreases local@.len() - i,
    {
        let ghost before = commands_view(out@);
        out.push(local[i].clone());
        assert(commands_view(out@) =~= before.push(local@[i as int]@));
        assert(first + near.take(i + 1) =~= (first + near.take(i as int)).push(
            local@[i as int]@,
        ));
        i += 1;
    }
    assert(near.take(i as int) =~= near);
    let ghost f = |s: SpecV| spec_command(s);
    let ghost listed = by_name(all).map_values(f);
    i = 0;
    assert(first + near + listed.take(0) =~= first + near);
    while i < sorted.len()
        invariant
            i <= sorted@.len(),
            specs_view(sorted@) == by_name(all),
            f == (|s: SpecV| spec_command(s)),
            listed == by_name(all).map_values(f),
            commands_view(out@) == first + near + listed.take(i as int),
        decreases sorted@.len() - i,
    {
        let ghost before = commands_view(out@);
        let c = from_spec(&sorted[i]);
        let ghost cv = c@;
        out.push(c);
        assert(specs_view(sorted@)[i as int] == sorted@[i as int]@);
        assert(listed[i as int] == cv);
        assert(commands_view(out@) =~= before.push(cv));
        assert(first + near + listed.take(i + 1) =~= (first + near + listed.take(i as int)).push(
            cv,
        ));
        i += 1;
    }
    assert(listed.take(i as int) =~= listed);
    let ghost before = commands_view(out@);
    if let Some(k) = on_path {
        out.push(k.clone());
    }
    assert(commands_view(out@) =~= before + opt_seq(opt_command(on_path)));
    out
}

pub open spec fn opt_seq(c: Option<CommandV>) -> Seq<CommandV> {
    match c {
        Some(c) => seq![c],
        None => Seq::empty(),
    }
}

pub open spec fn offered(
    active: Option<CommandV>,
    local: Seq<CommandV>,
    specs: Seq<SpecV>,
    on_path: Option<CommandV>,
) -> Seq<CommandV> {
    opt_seq(active) + local + by_name(specs).map_values(|s: SpecV| spec_command(s)) + opt_seq(
        on_path,
    )
}

/// The arguments of a kernel's program: `{connection_file}` stands for the file's path.
pub open spec fn filled(args: Seq<Seq<char>>, file: Seq<char>) -> Seq<Seq<char>> {
    args.map_values(
        |a: Seq<char>|
            if a == "{connection_file}"@ {
                file
            } else {
                a
            },
    )
}

/// The program to start, and its arguments. An empty command starts nothing.
pub fn command_line(cmd: &KernelCommand, file: &str) -> (r: Result<
    (String, Vec<String>),
    KernelError,
>)
    ensures
        match r {
            Ok((program, args)) => {
                &&& cmd@.argv.len() > 0
                &&& program@ == cmd@.argv[0]
                &&& texts(args@) == filled(cmd@.argv.skip(1), file@)
            },
            Err(e) => {
                &&& cmd@.argv.len() == 0
                &&& e matches KernelError::NotFound(n, w) && n@ == cmd.display_name@ && w@
                    == "empty argv"@
            },
        },
{
    if cmd.argv.len() == 0 {
        return Err(KernelError::NotFound(cmd.display_name.clone(), "empty argv".to_string()));
    }
    let mut args: Vec<String> = Vec::new();
    let mut i: usize = 1;
    while i < cmd.argv.len()
        invariant
            1 <= i <= cmd.argv@.len(),
            args@.len() == i - 1,
            forall|j: int|
                0 <= j < i - 1 ==> (#[trigger] args@[j])@ == if cmd.argv@[j + 1]@
                    == "{connection_file}"@ {
                    file@
                } else {
                    cmd.argv@[j + 1]@
                },
        decreases cmd.argv@.len() - i,
    {
        if str_eq(cmd.argv[i].as_str(), "{connection_file}") {
            args.push(file.to_string());
        } else {
            args.push(cmd.argv[i].clone());
        }
        i += 1;
    }
    assert(texts(args@) =~= filled(cmd@.argv.skip(1), file@));
    Ok((cmd.argv[0].clone(), args))
}

/// The number of lines kept of what a kernel writes to its standard error.
pub const TAIL: usize = 20;

/// The last lines of `s`.
pub open spec fn tail_of(s: Seq<Seq<char>>) -> Seq<Seq<char>> {
    if s.len() > TAIL {
        s.skip(s.len() - TAIL)
    } else {
        s
    }
}

/// Adds a line to the tail that is kept for the death notice.
pub fn keep_tail(tail: &mut Vec<String>, line: String)
    requires
        old(tail)@.len() <= TAIL,
    ensures
        texts(final(tail)@) == tail_of(texts(old(tail)@).push(line@)),
        final(tail)@.len() <= TAIL,
{
    let ghost before = texts(tail@);
    let ghost l = line@;
    tail.push(line);
    assert(texts(tail@) =~= before.push(l));
    if tail.len() > TAIL {
        let _ = tail.remove(0);
        assert(texts(tail@) =~= before.push(l).skip(1));
    }
}

/// The tail that is kept is the end of all that was written.
pub proof fn tail_is_the_end(all: Seq<Seq<char>>, line: Seq<char>)
    ensures
        tail_of(tail_of(all).push(line)) == tail_of(all.push(line)),
{
    assert(tail_of(tail_of(all).push(line)) =~= tail_of(all.push(line)));
}

/// The tail as a text.
pub fn tail_text(tail: &Vec<String>) -> (r: String)
    ensures
        r@ == join(texts(tail@), one('\n')),
{
    join_lines(tail)
}

/// Whether a message is an `input_request`, which the frontend answers.
pub fn is_input_request(content: &Content) -> (r: bool)
    ensures
        r == (content is InputRequest),
{
    match content {
        Content::InputRequest { .. } => true,
        _ => false,
    }
}

/// The hexadecimal digits of `n` from the `count`th on.
pub open spec fn hex_digits(n: int, count: nat) -> Seq<char>
    decreases count,
{
    if count == 0 {
        Seq::empty()
    } else {
        hex_digits(n / 16, (count - 1) as nat).push(hex_digit(n % 16))
    }
}

fn hex_text(n: u64, count: u8) -> (r: Vec<char>)
    ensures
        r@ == hex_digits(n as int, count as nat),
    decreases count,
{
    if count == 0 {
        let none: Vec<char> = Vec::new();
        none
    } else {
        let mut out = hex_text(n / 16, count - 1);
        out.push(crate::key::hex_char((n % 16) as u32));
        out
    }
}

/// `rand::random` draws any number.
#[verifier::external_body]
fn random_u64() -> (r: u64) {
    rand::random::<u64>()
}

/// A session's name.
pub open spec fn session_named(draw: u64) -> Seq<char> {
    "nbv-"@ + hex_digits(draw as int, 16)
}

/// The name of the session drawn.
pub fn session_name(draw: u64) -> (r: String)
    ensures
        r@ == session_named(draw),
{
    let mut out = chars_of("nbv-");
    append_chars(&mut out, &hex_text(draw, 16));
    string_of(&out)
}

/// A name for a new session.
pub fn new_session() -> (r: String)
    ensures
        exists|draw: u64| r@ == session_named(draw),
{
    let draw = random_u64();
    session_name(draw)
}

/// The name of a session's connection file.
pub fn connection_file_name(session: &str) -> (r: String)
    ensures
        r@ == "kernel-"@ + session@ + ".json"@,
{
    cat3("kernel-", session, ".json")
}

/// The key of the draws: 32 hexadecimal digits.
pub fn signing_key(high: u64, low: u64) -> (r: String)
    ensures
        r@ == hex_digits(high as int, 16) + hex_digits(low as int, 16),
{
    let mut out = hex_text(high, 16);
    append_chars(&mut out, &hex_text(low, 16));
    string_of(&out)
}

/// A key for a new connection: 32 random hexadecimal digits.
pub fn new_signing_key() -> (r: String)
    ensures
        exists|high: u64, low: u64|
            r@ == #[trigger] hex_digits(high as int, 16) + #[trigger] hex_digits(low as int, 16),
{
    let high = random_u64();
    let low = random_u64();
    signing_key(high, low)
}

/// The Python that a command has to find `ipykernel` in, if it launches that.
pub fn launcher_python(cmd: &KernelCommand) -> (r: Option<String>)
    ensures
        match r {
            Some(p) => cmd@.argv.contains("ipykernel_launcher"@) && p@ == cmd@.argv[0],
            None => !cmd@.argv.contains("ipykernel_launcher"@),
        },
{
    let mut i: usize = 0;
    while i < cmd.argv.len()
        invariant
            i <= cmd.argv@.len(),
            cmd@.argv.len() == cmd.argv@.len(),
            forall|j: int| 0 <= j < i ==> #[trigger] cmd@.argv[j] != "ipykernel_launcher"@,
        decreases cmd.argv@.len() - i,
    {
        assert(cmd@.argv[i as int] == cmd.argv@[i as int]@);
        if str_eq(cmd.argv[i].as_str(), "ipykernel_launcher") {
            assert(cmd@.argv[0] == cmd.argv@[0]@);
            return Some(cmd.argv[0].clone());
        }
        i += 1;
    }
    None
}

/// What gives a Python the kernel it lacks.
pub open spec fn installs(python: Seq<char>, has_pip: bool) -> Seq<Seq<char>> {
    if has_pip {
        seq![python, "-m"@, "pip"@, "install"@, "ipykernel"@]
    } else {
        seq!["uv"@, "pip"@, "install"@, "--python"@, python, "ipykernel"@]
    }
}

/// An install is of ipykernel and for the Python that lacks it: it runs that Python's own pip,
/// or names it to `uv`.
pub proof fn install_is_for_that_python(python: Seq<char>, has_pip: bool)
    ensures
        ({
            let argv = installs(python, has_pip);
            &&& argv.last() == "ipykernel"@
            &&& argv.contains("pip"@)
            &&& argv.contains("install"@)
            &&& has_pip ==> argv[0] == python
            &&& !has_pip ==> argv[0] == "uv"@ && exists|i: int|
                0 <= i < argv.len() - 1 && argv[i] == "--python"@ && #[trigger] argv[i + 1] == python
        }),
{
    let argv = installs(python, has_pip);
    if has_pip {
        assert(argv[2] == "pip"@ && argv[3] == "install"@);
    } else {
        assert(argv[1] == "pip"@ && argv[2] == "install"@);
        assert(argv[3] == "--python"@ && argv[3int + 1] == python);
    }
}

/// The command that gives a Python the kernel it lacks: that Python's pip, or `uv` for a
/// virtualenv without pip.
pub fn install_command(python: &str, has_pip: bool) -> (r: Vec<String>)
    ensures
        texts(r@) == installs(python@, has_pip),
{
    let mut argv: Vec<String> = Vec::new();
    if has_pip {
        argv.push(python.to_string());
        argv.push("-m".to_string());
        argv.push("pip".to_string());
        argv.push("install".to_string());
        argv.push("ipykernel".to_string());
        assert(texts(argv@) =~= seq![python@, "-m"@, "pip"@, "install"@, "ipykernel"@]);
    } else {
        argv.push("uv".to_string());
        argv.push("pip".to_string());
        argv.push("install".to_string());
        argv.push("--python".to_string());
        argv.push(python.to_string());
        argv.push("ipykernel".to_string());
        assert(texts(argv@) =~= seq![
            "uv"@,
            "pip"@,
            "install"@,
            "--python"@,
            python@,
            "ipykernel"@,
        ]);
    }
    argv
}

/// Whether kernelspecs are in the order of their names.
pub open spec fn in_order(s: Seq<SpecV>) -> bool {
    forall|i: int, j: int|
        0 <= i < j < s.len() ==> !text_less(
            (#[trigger] s[j]).kernel_name,
            (#[trigger] s[i]).kernel_name,
        )
}

proof fn lemma_placed(s: Seq<SpecV>, x: SpecV)
    requires
        in_order(s),
    ensures
        in_order(placed(s, x)),
        placed(s, x).to_multiset() == s.to_multiset().insert(x),
        forall|i: int|
            0 <= i < placed(s, x).len() ==> #[trigger] placed(s, x)[i] == x || s.contains(
                placed(s, x)[i],
            ),
    decreases s.len(),
{
    broadcast use vstd::seq_lib::group_to_multiset_ensures;

    let t = placed(s, x);
    if s.len() > 0 && text_less(x.kernel_name, s.last().kernel_name) {
        let front = s.drop_last();
        lemma_placed(front, x);
        let p = placed(front, x);
        assert(s =~= front.push(s.last()));
        assert(t.to_multiset() =~= s.to_multiset().insert(x));
        assert forall|i: int| 0 <= i < t.len() implies #[trigger] t[i] == x || s.contains(t[i]) by {
            if i < p.len() {
                assert(t[i] == p[i]);
                if p[i] != x {
                    let j = choose|j: int| 0 <= j < front.len() && front[j] == p[i];
                    assert(s[j] == t[i]);
                }
            } else {
                assert(s[s.len() - 1] == t[i]);
            }
        }
        assert forall|i: int, j: int| 0 <= i < j < t.len() implies !text_less(
            (#[trigger] t[j]).kernel_name,
            (#[trigger] t[i]).kernel_name,
        ) by {
            if j < p.len() {
                assert(p[i] == t[i] && p[j] == t[j]);
            } else {
                assert(p[i] == t[i]);
                lemma_text_total(x.kernel_name, s.last().kernel_name);
                if p[i] != x {
                    let k = choose|k: int| 0 <= k < front.len() && front[k] == p[i];
                    assert(s[k] == t[i]);
                    assert(!text_less(s[s.len() - 1].kernel_name, s[k].kernel_name));
                }
            }
        }
    } else {
        assert forall|i: int| 0 <= i < t.len() implies #[trigger] t[i] == x || s.contains(t[i]) by {
            if i < s.len() {
                assert(s[i] == t[i]);
            }
        }
        assert forall|i: int, j: int| 0 <= i < j < t.len() implies !text_less(
            (#[trigger] t[j]).kernel_name,
            (#[trigger] t[i]).kernel_name,
        ) by {
            if j < s.len() {
                assert(s[i] == t[i] && s[j] == t[j]);
            } else {
                assert(s[i] == t[i]);
                let last = s.last().kernel_name;
                if i < s.len() - 1 {
                    assert(!text_less(s[s.len() - 1].kernel_name, s[i].kernel_name));
                }
                lemma_text_total(last, s[i].kernel_name);
                lemma_text_total(x.kernel_name, last);
                lemma_text_trans(x.kernel_name, s[i].kernel_name, last);
                lemma_text_total(s[i].kernel_name, last);
            }
        }
    }
}

/// The kernelspecs offered are those installed, in the order of their names.
pub proof fn specs_are_sorted(s: Seq<SpecV>)
    ensures
        in_order(by_name(s)),
        by_name(s).to_multiset() == s.to_multiset(),
    decreases s.len(),
{
    broadcast use vstd::seq_lib::group_to_multiset_ensures;

    if s.len() > 0 {
        specs_are_sorted(s.drop_last());
        lemma_placed(by_name(s.drop_last()), s.last());
        assert(s =~= s.drop_last().push(s.last()));
    }
}

/// An argument is handed to the program as it stands, but for the place of the connection file,
/// where the file's path is handed over.
pub proof fn arguments_are_handed_over(args: Seq<Seq<char>>, file: Seq<char>, i: int)
    requires
        0 <= i < args.len(),
    ensures
        filled(args, file).len() == args.len(),
        args[i] == "{connection_file}"@ ==> filled(args, file)[i] == file,
        args[i] != "{connection_file}"@ ==> filled(args, file)[i] == args[i],
{
}

/// A Python's kernel is that Python running `ipykernel_launcher`, told to connect by the file
/// that it is given, whatever the file.
pub proof fn launched_kernel_gets_its_file(
    python: Seq<char>,
    display_name: Seq<char>,
    file: Seq<char>,
)
    ensures
        ({
            let c = launched(python, display_name);
            let args = filled(c.argv.skip(1), file);
            &&& c.argv.len() > 0
            &&& c.argv[0] == python
            &&& args.len() >= 4
            &&& args[0] == "-m"@
            &&& args[1] == "ipykernel_launcher"@
            &&& exists|i: int| 2 <= i < args.len() - 1 && #[trigger] args[i] == "-f"@ && args[i + 1]
                == file
            &&& c.argv.contains("ipykernel_launcher"@)
            &&& c.language == "python"@
            &&& !c.interrupt_via_message
            &&& c.display_name == display_name
            &&& c.env.len() == 0
            &&& c.spec_name is None
            &&& sets_once(c)
        }),
{
    reveal_strlit("-m");
    reveal_strlit("-f");
    reveal_strlit("ipykernel_launcher");
    reveal_strlit("{connection_file}");
    assert("-m"@.len() == 2 && "-f"@.len() == 2 && "ipykernel_launcher"@.len() == 18);
    assert("{connection_file}"@.len() == 17);
    let c = launched(python, display_name);
    let tail = c.argv.skip(1);
    let args = filled(tail, file);
    assert(tail.len() == 4);
    assert(tail[0] == c.argv[1] && tail[1] == c.argv[2] && tail[2] == c.argv[3] && tail[3] == c.argv[4]);
    let at: int = 2;
    assert(args[at] == "-f"@ && args[at + 1] == file);
    assert(c.argv[2] == "ipykernel_launcher"@);
}

/// An installed kernel is started as its kernelspec says, with the variables it sets, and is
/// interrupted by a message just where the kernelspec asks for that.
pub proof fn installed_kernel_follows_its_spec(s: SpecV)
    ensures
        spec_command(s).argv == s.argv,
        s.env is Some ==> spec_command(s).env == s.env->0,
        s.env is None ==> spec_command(s).env.len() == 0,
        spec_command(s).interrupt_via_message <==> s.interrupt_mode == Some("message"@),
        spec_command(s).display_name == s.display_name,
        spec_command(s).language == lowercased(s.language),
        spec_command(s).spec_name == Some(s.kernel_name),
{
}

/// For a Python notebook the active virtualenv comes first, whatever else there is; then a
/// virtualenv of the working directory; an installed kernel before the `python3` of `PATH`,
/// which is the last resort.
pub proof fn python_notebooks_prefer_virtualenvs(
    kernel_name: Option<Seq<char>>,
    active: Option<CommandV>,
    local: Option<CommandV>,
    found: Result<SpecV, Seq<char>>,
    on_path: Option<CommandV>,
)
    requires
        kernel_name is None || starts_with(kernel_name->0, "python"@),
    ensures
        ({
            let r = resolved(kernel_name, active, local, found, on_path);
            &&& active is Some ==> r == Ok::<CommandV, (Seq<char>, Seq<char>)>(active->0)
            &&& active is None && local is Some ==> r == Ok::<CommandV, (Seq<char>, Seq<char>)>(
                local->0,
            )
            &&& active is None && local is None && found is Ok ==> r is Ok && r->Ok_0.argv
                == found->Ok_0.argv && r->Ok_0.spec_name == Some(found->Ok_0.kernel_name)
            &&& active is None && local is None && found is Err && on_path is Some ==> r == Ok::<
                CommandV,
                (Seq<char>, Seq<char>),
            >(on_path->0)
            &&& r is Err <==> active is None && local is None && found is Err && on_path is None
            &&& r is Err ==> r->Err_0.1 == found->Err_0
            &&& r is Err && kernel_name is Some ==> r->Err_0.0 == kernel_name->0
        }),
{
}

/// A notebook of another language runs on its own kernel or on none: no Python stands in for
/// it.
pub proof fn other_notebooks_use_their_kernel(
    kernel_name: Seq<char>,
    active: Option<CommandV>,
    local: Option<CommandV>,
    found: Result<SpecV, Seq<char>>,
    on_path: Option<CommandV>,
)
    requires
        !starts_with(kernel_name, "python"@),
    ensures
        ({
            let r = resolved(Some(kernel_name), active, local, found, on_path);
            &&& found is Ok ==> r is Ok && r->Ok_0.argv == found->Ok_0.argv && r->Ok_0.spec_name
                == Some(found->Ok_0.kernel_name)
            &&& found is Err ==> r == Err::<CommandV, (Seq<char>, Seq<char>)>(
                (kernel_name, found->Err_0),
            )
        }),
{
}

/// Every kernel found can be picked, the active virtualenv first, and nothing else can.
pub proof fn all_kernels_are_offered(
    active: Option<CommandV>,
    local: Seq<CommandV>,
    specs: Seq<SpecV>,
    on_path: Option<CommandV>,
    c: CommandV,
)
    ensures
        ({
            let all = offered(active, local, specs, on_path);
            &&& active is Some ==> all.len() > 0 && all[0] == active->0
            &&& all.contains(c) <==> (active == Some(c) || local.contains(c) || on_path == Some(c)
                || exists|i: int| 0 <= i < specs.len() && spec_command(#[trigger] specs[i]) == c)
            &&& all.len() == local.len() + specs.len() + (if active is Some {
                1int
            } else {
                0
            }) + (if on_path is Some {
                1int
            } else {
                0
            })
        }),
{
    broadcast use vstd::seq_lib::group_to_multiset_ensures;

    let sorted = by_name(specs);
    specs_are_sorted(specs);
    let listed = sorted.map_values(|s: SpecV| spec_command(s));
    let all = offered(active, local, specs, on_path);
    let a = opt_seq(active);
    let p = opt_seq(on_path);
    assert(sorted.len() == specs.len()) by {
        assert(sorted.to_multiset().len() == specs.to_multiset().len());
    }
    if active == Some(c) {
        assert(all[0] == c);
    }
    if local.contains(c) {
        let i = choose|i: int| 0 <= i < local.len() && local[i] == c;
        assert(all[a.len() + i] == c);
    }
    if on_path == Some(c) {
        assert(all[all.len() - 1] == c);
    }
    if exists|i: int| 0 <= i < specs.len() && spec_command(#[trigger] specs[i]) == c {
        let i = choose|i: int| 0 <= i < specs.len() && spec_command(#[trigger] specs[i]) == c;
        assert(specs.contains(specs[i]));
        assert(specs.to_multiset().count(specs[i]) > 0);
        assert(sorted.to_multiset().count(specs[i]) > 0);
        assert(sorted.contains(specs[i]));
        let j = choose|j: int| 0 <= j < sorted.len() && sorted[j] == specs[i];
        assert(listed[j] == c);
        assert(all[a.len() + local.len() + j] == c);
    }
    if all.contains(c) {
        let i = choose|i: int| 0 <= i < all.len() && all[i] == c;
        if i < a.len() {
        } else if i < a.len() + local.len() {
            assert(local[i - a.len()] == c);
        } else if i < a.len() + local.len() + listed.len() {
            let j = i - a.len() - local.len();
            assert(listed[j] == c);
            assert(sorted.contains(sorted[j]));
            assert(sorted.to_multiset().count(sorted[j]) > 0);
            assert(specs.to_multiset().count(sorted[j]) > 0);
            assert(specs.contains(sorted[j]));
            let m = choose|m: int| 0 <= m < specs.len() && specs[m] == sorted[j];
            assert(spec_command(specs[m]) == c);
        }
    }
}

/// The tail holds the last lines that were written, and up to its limit all of them.
pub proof fn tail_keeps_the_last_lines(s: Seq<Seq<char>>, back: int)
    ensures
        s.len() <= TAIL ==> tail_of(s) == s,
        s.len() > TAIL ==> tail_of(s).len() == TAIL,
        0 <= back < tail_of(s).len() ==> tail_of(s)[tail_of(s).len() - 1 - back] == s[s.len() - 1
            - back],
{
}

/// The number that hexadecimal digits write.
pub open spec fn hex_value(s: Seq<char>) -> int
    decreases s.len(),
{
    if s.len() == 0 {
        0
    } else {
        hex_value(s.drop_last()) * 16 + if '0' <= s.last() <= '9' {
            s.last() as int - '0' as int
        } else {
            s.last() as int - 'a' as int + 10
        }
    }
}

/// Whether a character is a lowercase hexadecimal digit.
pub open spec fn is_hex(c: char) -> bool {
    ('0' <= c <= '9') || ('a' <= c <= 'f')
}

proof fn lemma_hex_digits(n: int, count: nat)
    requires
        0 <= n,
    ensures
        hex_digits(n, count).len() == count,
        forall|i: int| 0 <= i < count ==> is_hex(#[trigger] hex_digits(n, count)[i]),
        hex_value(hex_digits(n, count)) == n % vstd::arithmetic::power::pow(16, count),
    decreases count,
{
    reveal(vstd::arithmetic::power::pow);
    let s = hex_digits(n, count);
    if count > 0 {
        let c = (count - 1) as nat;
        lemma_hex_digits(n / 16, c);
        let front = hex_digits(n / 16, c);
        assert(s.drop_last() =~= front);
        let d = n % 16;
        assert(0 <= d < 16);
        assert(is_hex(crate::key::hex_digit(d)));
        assert forall|i: int| 0 <= i < count implies is_hex(#[trigger] s[i]) by {
            if i < c {
                assert(s[i] == front[i]);
            }
        }
        let p = vstd::arithmetic::power::pow(16, c);
        vstd::arithmetic::power::lemma_pow_positive(16, c);
        assert(vstd::arithmetic::power::pow(16, count) == 16 * p);
        vstd::arithmetic::div_mod::lemma_breakdown(n, 16, p);
    }
}

/// The draws of a session and of a key are told apart: their digits read back as the numbers
/// drawn.
pub proof fn draws_are_written_in_full(draw: u64)
    ensures
        hex_digits(draw as int, 16).len() == 16,
        forall|i: int| 0 <= i < 16 ==> is_hex(#[trigger] hex_digits(draw as int, 16)[i]),
        hex_value(hex_digits(draw as int, 16)) == draw,
        session_named(draw).len() == 20,
        session_named(draw).skip(4) == hex_digits(draw as int, 16),
{
    lemma_hex_digits(draw as int, 16);
    assert(vstd::arithmetic::power::pow(16, 16) == 0x1_0000_0000_0000_0000int) by {
        reveal_with_fuel(vstd::arithmetic::power::pow, 17);
    }
    reveal_strlit("nbv-");
    assert(session_named(draw).skip(4) =~= hex_digits(draw as int, 16));
}

/// Every error of a kernel ends with its reason.
pub proof fn kernel_errors_say_why(e: KernelError)
    ensures
        ({
            let why = match e {
                KernelError::NotFound(_, why) => why@,
                KernelError::Spawn(why) => why@,
                KernelError::Timeout(_, tail) => tail@,
                KernelError::Connection(why) => why@,
            };
            e.shown().len() >= why.len() && e.shown().skip(e.shown().len() - why.len()) == why
        }),
{
    let why = match e {
        KernelError::NotFound(_, why) => why@,
        KernelError::Spawn(why) => why@,
        KernelError::Timeout(_, tail) => tail@,
        KernelError::Connection(why) => why@,
    };
    assert(e.shown().skip(e.shown().len() - why.len()) =~= why);
}

/// A kernel that was picked for a notebook is the one that it starts with next time, whatever
/// else would be found; a notebook that none was picked for starts with what is found.
pub proof fn picked_kernel_starts_next_time(
    memory: crate::memory::Kernels,
    path: Seq<char>,
    cmd: CommandV,
    other: Seq<char>,
    found: Result<CommandV, (Seq<char>, Seq<char>)>,
)
    requires
        crate::memory::ordered(memory),
        crate::memory::kernel_of(memory, other) is None,
        !crate::path::same_path(other, path),
    ensures
        ({
            let then = crate::memory::put(memory, path, cmd);
            let picked = started_with(crate::memory::kernel_of(then, path), found);
            &&& picked is Ok && picked->Ok_0 == cmd
            &&& started_with(crate::memory::kernel_of(then, other), found) == found
        }),
{
    crate::memory::put_sets(memory, path, cmd, other);
}

} // verus!
