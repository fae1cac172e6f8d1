//! What is remembered between sessions: the kernel last picked for each notebook. One JSON
//! file, `$XDG_STATE_HOME/nbv/kernels.json` (by default `~/.local/state/nbv/`), maps a
//! notebook's absolute path to the kernel command picked for it.

use crate::history::Name;
use crate::json::{
    distinct, indented, integers_only, json_indented, json_normal, json_parsed, json_wf,
    lemma_obj_index, lemma_obj_index_is, nests_within, obj_get, obj_index, parse, v_get, v_str,
    Entries, Json, JsonV, Object,
};
use crate::kernel::{pairs, sets_once, CommandV, KernelCommand};
use crate::load::error_text;
use crate::path::{
    is_path_less, is_same_path, path_less, path_order_is_total, path_order_is_transitive, same_path,
};
use crate::text::{cat, cat3, chars_of, texts};
use vstd::prelude::*;

verus! {

/// Why kernels cannot be remembered.
#[derive(Debug)]
pub enum MemoryError {
    NoStateDir,
    /// The file, and what is wrong with it.
    Invalid(String, String),
}

impl MemoryError {
    pub open spec fn shown(&self) -> Seq<char> {
        match *self {
            MemoryError::NoStateDir =>
                "neither XDG_STATE_HOME nor HOME is set, so nbv has nowhere to remember kernels"@,
            MemoryError::Invalid(file, why) => file@
                + " is not valid (delete it to forget every kernel choice): "@ + why@,
        }
    }

    pub fn message(&self) -> (r: String)
        ensures
            r@ == self.shown(),
    {
        match self {
            MemoryError::NoStateDir =>
                "neither XDG_STATE_HOME nor HOME is set, so nbv has nowhere to remember kernels".to_string(),
            MemoryError::Invalid(file, why) => cat3(
                file.as_str(),
                " is not valid (delete it to forget every kernel choice): ",
                why.as_str(),
            ),
        }
    }
}

/// A path below a directory.
pub open spec fn below(dir: Seq<char>, name: Seq<char>) -> Seq<char> {
    if dir.len() > 0 && dir.last() == '/' {
        dir + name
    } else {
        dir + "/"@ + name
    }
}

fn path_below(dir: &str, name: &str) -> (r: String)
    ensures
        r@ == below(dir@, name@),
{
    let d = chars_of(dir);
    if d.len() > 0 && d[d.len() - 1] == '/' {
        cat(dir, name)
    } else {
        cat3(dir, "/", name)
    }
}

pub open spec fn nonempty(s: Option<&str>) -> Option<Seq<char>> {
    match s {
        Some(s) => if s@.len() > 0 {
            Some(s@)
        } else {
            None
        },
        None => None,
    }
}

fn is_set(s: Option<&str>) -> (r: Option<&str>)
    ensures
        match r {
            Some(x) => nonempty(s) == Some(x@),
            None => nonempty(s) is None,
        },
{
    match s {
        Some(x) => if chars_of(x).len() > 0 {
            Some(x)
        } else {
            None
        },
        None => None,
    }
}

/// The file in the user's state directory, given the two variables that name it.
pub fn state_file(xdg_state_home: Option<&str>, home: Option<&str>) -> (r: Result<
    String,
    MemoryError,
>)
    ensures
        match (nonempty(xdg_state_home), nonempty(home)) {
            (Some(dir), _) => r matches Ok(f) && f@ == below(dir, "nbv/kernels.json"@),
            (None, Some(dir)) => r matches Ok(f) && f@ == below(
                below(dir, ".local/state"@),
                "nbv/kernels.json"@,
            ),
            (None, None) => r matches Err(MemoryError::NoStateDir),
        },
{
    if let Some(dir) = is_set(xdg_state_home) {
        return Ok(path_below(dir, "nbv/kernels.json"));
    }
    match is_set(home) {
        Some(dir) => {
            let state = path_below(dir, ".local/state");
            Ok(path_below(state.as_str(), "nbv/kernels.json"))
        },
        None => Err(MemoryError::NoStateDir),
    }
}

/// Kernel commands by the paths of notebooks.
pub type Kernels = Seq<(Name, CommandV)>;

/// Whether the paths are in order, each once.
pub open spec fn ordered(s: Kernels) -> bool {
    forall|i: int, j: int| 0 <= i < j < s.len() ==> path_less((#[trigger] s[i]).0, (#[trigger] s[j]).0)
}

/// The command of a path.
pub open spec fn kernel_of(s: Kernels, path: Name) -> Option<CommandV>
    decreases s.len(),
{
    if s.len() == 0 {
        None
    } else if same_path(s.last().0, path) {
        Some(s.last().1)
    } else {
        kernel_of(s.drop_last(), path)
    }
}

/// Sets the command of a path, in its place. A path that is there keeps the text it has.
pub open spec fn put(s: Kernels, path: Name, cmd: CommandV) -> Kernels
    decreases s.len(),
{
    if s.len() == 0 || path_less(s.last().0, path) {
        s.push((path, cmd))
    } else if same_path(s.last().0, path) {
        s.drop_last().push((s.last().0, cmd))
    } else {
        put(s.drop_last(), path, cmd).push(s.last())
    }
}

/// Forgets a path.
pub open spec fn taken(s: Kernels, path: Name) -> Kernels
    decreases s.len(),
{
    if s.len() == 0 {
        s
    } else if same_path(s.last().0, path) {
        s.drop_last()
    } else {
        taken(s.drop_last(), path).push(s.last())
    }
}

/// Setting a path's command keeps the order, gives the path that command, and leaves the
/// others theirs.
pub proof fn put_sets(s: Kernels, path: Name, cmd: CommandV, other: Name)
    requires
        ordered(s),
    ensures
        ordered(put(s, path, cmd)),
        kernel_of(put(s, path, cmd), path) == Some(cmd),
        !same_path(other, path) ==> kernel_of(put(s, path, cmd), other) == kernel_of(s, other),
        forall|i: int|
            0 <= i < put(s, path, cmd).len() ==> (#[trigger] put(s, path, cmd)[i]).0 == path
                || exists|j: int| 0 <= j < s.len() && (#[trigger] s[j]).0 == put(s, path, cmd)[i].0,
    decreases s.len(),
{
    let t = put(s, path, cmd);
    if s.len() == 0 || path_less(s.last().0, path) {
        assert(t.drop_last() =~= s);
        assert forall|i: int, j: int| 0 <= i < j < t.len() implies path_less(
            (#[trigger] t[i]).0,
            (#[trigger] t[j]).0,
        ) by {
            if j == s.len() {
                if i < s.len() - 1 {
                    assert(path_less(s[i].0, s[s.len() - 1].0));
                    path_order_is_transitive(s[i].0, s.last().0, path);
                }
            } else {
                assert(path_less(s[i].0, s[j].0));
            }
        }
        assert forall|i: int| 0 <= i < t.len() implies (#[trigger] t[i]).0 == path || exists|j: int|
            0 <= j < s.len() && (#[trigger] s[j]).0 == t[i].0 by {
            if i < s.len() {
                assert(s[i].0 == t[i].0);
            }
        }
    } else if same_path(s.last().0, path) {
        assert(t.drop_last() =~= s.drop_last());
        assert forall|i: int, j: int| 0 <= i < j < t.len() implies path_less(
            (#[trigger] t[i]).0,
            (#[trigger] t[j]).0,
        ) by {
            assert(path_less(s[i].0, s[j].0));
        }
        assert forall|i: int| 0 <= i < t.len() implies (#[trigger] t[i]).0 == path || exists|j: int|
            0 <= j < s.len() && (#[trigger] s[j]).0 == t[i].0 by {
            assert(s[i].0 == t[i].0);
        }
    } else {
        let front = s.drop_last();
        assert(ordered(front)) by {
            assert forall|i: int, j: int| 0 <= i < j < front.len() implies path_less(
                (#[trigger] front[i]).0,
                (#[trigger] front[j]).0,
            ) by {
                assert(path_less(s[i].0, s[j].0));
            }
        }
        put_sets(front, path, cmd, other);
        let p = put(front, path, cmd);
        assert(t.drop_last() =~= p);
        path_order_is_total(s.last().0, path);
        assert forall|i: int, j: int| 0 <= i < j < t.len() implies path_less(
            (#[trigger] t[i]).0,
            (#[trigger] t[j]).0,
        ) by {
            if j < p.len() {
                assert(path_less(p[i].0, p[j].0));
            } else {
                assert(p[i] == t[i]);
                if p[i].0 != path {
                    let k = choose|k: int| 0 <= k < front.len() && (#[trigger] front[k]).0 == p[i].0;
                    assert(path_less(s[k].0, s[s.len() - 1].0));
                }
            }
        }
        assert forall|i: int| 0 <= i < t.len() implies (#[trigger] t[i]).0 == path || exists|j: int|
            0 <= j < s.len() && (#[trigger] s[j]).0 == t[i].0 by {
            if i < p.len() {
                assert(p[i] == t[i]);
                if p[i].0 != path {
                    let k = choose|k: int| 0 <= k < front.len() && (#[trigger] front[k]).0 == p[i].0;
                    assert(s[k].0 == t[i].0);
                }
            } else {
                assert(s[s.len() - 1].0 == t[i].0);
            }
        }
    }
}

/// Forgetting a path keeps the order, leaves the path without a command, and the others theirs.
pub proof fn taken_forgets(s: Kernels, path: Name, other: Name)
    requires
        ordered(s),
    ensures
        ordered(taken(s, path)),
        kernel_of(taken(s, path), path) is None,
        !same_path(other, path) ==> kernel_of(taken(s, path), other) == kernel_of(s, other),
        forall|i: int|
            0 <= i < taken(s, path).len() ==> exists|j: int|
                0 <= j < s.len() && (#[trigger] s[j]).0 == (#[trigger] taken(s, path)[i]).0,
    decreases s.len(),
{
    if s.len() > 0 {
        let front = s.drop_last();
        assert(ordered(front)) by {
            assert forall|i: int, j: int| 0 <= i < j < front.len() implies path_less(
                (#[trigger] front[i]).0,
                (#[trigger] front[j]).0,
            ) by {
                assert(path_less(s[i].0, s[j].0));
            }
        }
        let t = taken(s, path);
        if same_path(s.last().0, path) {
            lemma_absent(front, path);
            assert forall|i: int| 0 <= i < t.len() implies exists|j: int|
                0 <= j < s.len() && (#[trigger] s[j]).0 == (#[trigger] t[i]).0 by {
                assert(s[i].0 == t[i].0);
            }
        } else {
            taken_forgets(front, path, other);
            let p = taken(front, path);
            assert(t.drop_last() =~= p);
            assert forall|i: int| 0 <= i < t.len() implies exists|j: int|
                0 <= j < s.len() && (#[trigger] s[j]).0 == (#[trigger] t[i]).0 by {
                if i < p.len() {
                    assert(t[i] == p[i]);
                    let k = choose|k: int| 0 <= k < front.len() && (#[trigger] front[k]).0 == p[i].0;
                    assert(s[k].0 == t[i].0);
                } else {
                    assert(s[s.len() - 1].0 == t[i].0);
                }
            }
            assert forall|i: int, j: int| 0 <= i < j < t.len() implies path_less(
                (#[trigger] t[i]).0,
                (#[trigger] t[j]).0,
            ) by {
                assert(t[i] == p[i]);
                if j < p.len() {
                    assert(t[j] == p[j]);
                } else {
                    let k = choose|k: int| 0 <= k < front.len() && (#[trigger] front[k]).0 == p[i].0;
                    assert(path_less(s[k].0, s[s.len() - 1].0));
                }
            }
        }
    }
}

/// A path after all paths of an ordered list is not in it.
proof fn lemma_absent(s: Kernels, path: Name)
    requires
        forall|i: int| 0 <= i < s.len() ==> path_less((#[trigger] s[i]).0, path),
    ensures
        kernel_of(s, path) is None,
    decreases s.len(),
{
    if s.len() > 0 {
        assert(path_less(s[s.len() - 1].0, path));
        path_order_is_total(s.last().0, path);
        assert forall|i: int| 0 <= i < s.drop_last().len() implies path_less(
            (#[trigger] s.drop_last()[i]).0,
            path,
        ) by {
            assert(path_less(s[i].0, path));
        }
        lemma_absent(s.drop_last(), path);
    }
}

pub open spec fn strings_json(s: Seq<Seq<char>>) -> JsonV {
    JsonV::Array(Seq::new(s.len(), |i: int| JsonV::String(s[i])))
}

pub open spec fn pairs_json(s: Seq<(Seq<char>, Seq<char>)>) -> JsonV {
    JsonV::Object(Seq::new(s.len(), |i: int| (s[i].0, JsonV::String(s[i].1))))
}

/// A command as it is written.
pub open spec fn command_json(c: CommandV) -> JsonV {
    JsonV::Object(
        seq![
            ("argv"@, strings_json(c.argv)),
            ("env"@, pairs_json(c.env)),
            ("interrupt_via_message"@, JsonV::Bool(c.interrupt_via_message)),
            ("display_name"@, JsonV::String(c.display_name)),
            ("language"@, JsonV::String(c.language)),
            (
                "spec"@,
                match c.spec_name {
                    Some(s) => JsonV::String(s),
                    None => JsonV::Null,
                },
            ),
        ],
    )
}

/// The list of strings that a value is.
pub open spec fn strings_of(v: Option<JsonV>) -> Option<Seq<Seq<char>>> {
    match v {
        Some(JsonV::Array(a)) => if forall|i: int| 0 <= i < a.len() ==> #[trigger] a[i] is String {
            Some(Seq::new(a.len(), |i: int| a[i]->String_0))
        } else {
            None
        },
        _ => None,
    }
}

/// The strings by name that a value is.
pub open spec fn pairs_of(v: Option<JsonV>) -> Option<Seq<(Seq<char>, Seq<char>)>> {
    match v {
        Some(JsonV::Object(o)) => if forall|i: int|
            0 <= i < o.len() ==> (#[trigger] o[i]).1 is String {
            Some(Seq::new(o.len(), |i: int| (o[i].0, o[i].1->String_0)))
        } else {
            None
        },
        _ => None,
    }
}

/// The command that was written. Every entry but `spec` must be there.
pub open spec fn command_of(v: JsonV) -> Option<CommandV> {
    match v {
        JsonV::Object(o) => match (
            strings_of(obj_get(o, "argv"@)),
            pairs_of(obj_get(o, "env"@)),
            obj_get(o, "interrupt_via_message"@),
            v_str(obj_get(o, "display_name"@)),
            v_str(obj_get(o, "language"@)),
            obj_get(o, "spec"@),
        ) {
            (
                Some(argv),
                Some(env),
                Some(JsonV::Bool(interrupt_via_message)),
                Some(display_name),
                Some(language),
                named,
            ) => match named {
                Some(JsonV::String(s)) => Some(
                    CommandV {
                        argv,
                        env,
                        interrupt_via_message,
                        display_name,
                        language,
                        spec_name: Some(s),
                    },
                ),
                Some(JsonV::Null) | None => Some(
                    CommandV {
                        argv,
                        env,
                        interrupt_via_message,
                        display_name,
                        language,
                        spec_name: None,
                    },
                ),
                _ => None,
            },
            _ => None,
        },
        _ => None,
    }
}

/// What is remembered, as it is written.
pub open spec fn kernels_json(s: Kernels) -> JsonV {
    JsonV::Object(Seq::new(s.len(), |i: int| (s[i].0, command_json(s[i].1))))
}

/// The first entries of an object as commands.
pub open spec fn kernels_upto(o: Entries, n: int) -> Option<Kernels>
    decreases n,
{
    if n <= 0 {
        Some(Seq::empty())
    } else {
        match (kernels_upto(o, n - 1), command_of(o[n - 1].1)) {
            (Some(s), Some(c)) => Some(put(s, o[n - 1].0, c)),
            _ => None,
        }
    }
}

/// What a value remembers.
pub open spec fn kernels_of(v: JsonV) -> Option<Kernels> {
    match v {
        JsonV::Object(o) => kernels_upto(o, o.len() as int),
        _ => None,
    }
}

/// A command that was written is read back.
pub proof fn command_round_trip(c: CommandV)
    ensures
        command_of(command_json(c)) == Some(c),
{
    reveal_strlit("argv");
    reveal_strlit("env");
    reveal_strlit("interrupt_via_message");
    reveal_strlit("display_name");
    reveal_strlit("language");
    reveal_strlit("spec");
    let o = command_json(c)->Object_0;
    assert("argv"@[0] == 'a' && "spec"@[0] == 's');
    assert("argv"@.len() == 4 && "spec"@.len() == 4 && "env"@.len() == 3);
    assert("interrupt_via_message"@.len() == 21 && "display_name"@.len() == 12);
    assert("language"@.len() == 8);
    lemma_obj_index_is(o, "argv"@, 0);
    lemma_obj_index_is(o, "env"@, 1);
    lemma_obj_index_is(o, "interrupt_via_message"@, 2);
    lemma_obj_index_is(o, "display_name"@, 3);
    lemma_obj_index_is(o, "language"@, 4);
    lemma_obj_index_is(o, "spec"@, 5);
    assert(strings_of(Some(strings_json(c.argv)))->0 =~= c.argv);
    assert(pairs_of(Some(pairs_json(c.env)))->0 =~= c.env);
}

proof fn lemma_kernels_upto(s: Kernels, n: int)
    requires
        ordered(s),
        0 <= n <= s.len(),
    ensures
        kernels_upto(kernels_json(s)->Object_0, n) == Some(s.take(n)),
    decreases n,
{
    let o = kernels_json(s)->Object_0;
    if n > 0 {
        lemma_kernels_upto(s, n - 1);
        command_round_trip(s[n - 1].1);
        let front = s.take(n - 1);
        if n > 1 {
            assert(front.last() == s[n - 2]);
            assert(path_less(s[n - 2].0, s[n - 1].0));
        }
        assert(s.take(n) =~= front.push(s[n - 1]));
    } else {
        assert(s.take(0) =~= Seq::empty());
    }
}

/// What was remembered is read back.
pub proof fn memory_round_trip(s: Kernels)
    requires
        ordered(s),
    ensures
        kernels_of(kernels_json(s)) == Some(s),
{
    lemma_kernels_upto(s, s.len() as int);
    assert(s.take(s.len() as int) =~= s);
}

/// No command sets a variable twice.
pub open spec fn envs_distinct(s: Kernels) -> bool {
    forall|k: int| 0 <= k < s.len() ==> sets_once((#[trigger] s[k]).1)
}

proof fn lemma_strings_json(s: Seq<Seq<char>>, n: int)
    requires
        n > 0,
    ensures
        json_wf(strings_json(s)),
        integers_only(strings_json(s)),
        nests_within(strings_json(s), n),
{
    let a = strings_json(s)->Array_0;
    assert forall|i: int| 0 <= i < a.len() implies json_wf(#[trigger] a[i]) && integers_only(a[i])
        && nests_within(a[i], n - 1) by {
        assert(a[i] is String);
    }
}

proof fn lemma_pairs_json(s: Seq<(Seq<char>, Seq<char>)>, n: int)
    requires
        n > 0,
        forall|i: int, j: int| 0 <= i < j < s.len() ==> (#[trigger] s[i]).0 != (#[trigger] s[j]).0,
    ensures
        json_wf(pairs_json(s)),
        integers_only(pairs_json(s)),
        nests_within(pairs_json(s), n),
{
    let o = pairs_json(s)->Object_0;
    assert(distinct(o)) by {
        assert forall|i: int, j: int| 0 <= i < j < o.len() implies (#[trigger] o[i]).0 != (
        #[trigger] o[j]).0 by {
            assert(s[i].0 != s[j].0);
        }
    }
    assert forall|i: int| 0 <= i < o.len() implies json_wf((#[trigger] o[i]).1) && integers_only(
        o[i].1,
    ) && nests_within(o[i].1, n - 1) by {
        assert(o[i].1 is String);
    }
}

proof fn lemma_command_json(c: CommandV)
    requires
        sets_once(c),
    ensures
        json_wf(command_json(c)),
        integers_only(command_json(c)),
        nests_within(command_json(c), 126),
{
    reveal_strlit("argv");
    reveal_strlit("env");
    reveal_strlit("interrupt_via_message");
    reveal_strlit("display_name");
    reveal_strlit("language");
    reveal_strlit("spec");
    let o = command_json(c)->Object_0;
    assert("argv"@[0] == 'a' && "spec"@[0] == 's');
    assert("argv"@.len() == 4 && "spec"@.len() == 4 && "env"@.len() == 3);
    assert("interrupt_via_message"@.len() == 21 && "display_name"@.len() == 12);
    assert("language"@.len() == 8);
    lemma_strings_json(c.argv, 125);
    lemma_pairs_json(c.env, 125);
    assert(distinct(o));
    assert forall|i: int| 0 <= i < o.len() implies json_wf((#[trigger] o[i]).1) && integers_only(
        o[i].1,
    ) && nests_within(o[i].1, 125) by {
        if i == 0 {
            assert(o[i].1 == strings_json(c.argv));
        } else if i == 1 {
            assert(o[i].1 == pairs_json(c.env));
        } else {
            assert(o[i].1 is Bool || o[i].1 is String || o[i].1 is Null);
        }
    }
}

proof fn lemma_kernels_json(s: Kernels)
    requires
        ordered(s),
        envs_distinct(s),
    ensures
        json_wf(kernels_json(s)),
        integers_only(kernels_json(s)),
        nests_within(kernels_json(s), 127),
{
    let o = kernels_json(s)->Object_0;
    assert(distinct(o)) by {
        assert forall|i: int, j: int| 0 <= i < j < o.len() implies (#[trigger] o[i]).0 != (
        #[trigger] o[j]).0 by {
            assert(path_less(s[i].0, s[j].0));
            path_order_is_total(s[i].0, s[j].0);
        }
    }
    assert forall|i: int| 0 <= i < o.len() implies json_wf((#[trigger] o[i]).1) && integers_only(
        o[i].1,
    ) && nests_within(o[i].1, 126) by {
        lemma_command_json(s[i].1);
    }
}

/// The kernels picked, kept in a file.
#[derive(Debug)]
pub struct KernelMemory {
    pub file: String,
    /// The kernel last picked for each notebook, in the order of the paths.
    pub kernels: Vec<(String, KernelCommand)>,
}

pub open spec fn kernels_view(v: Seq<(String, KernelCommand)>) -> Kernels {
    Seq::new(v.len(), |i: int| (v[i].0@, v[i].1@))
}

impl View for KernelMemory {
    type V = Kernels;

    open spec fn view(&self) -> Kernels {
        kernels_view(self.kernels@)
    }
}

fn read_strings(v: Option<&Json>) -> (r: Option<Vec<String>>)
    ensures
        ({
            let want = strings_of(
                match v {
                    Some(j) => Some(j@),
                    None => None,
                },
            );
            match r {
                Some(s) => want == Some(texts(s@)),
                None => want is None,
            }
        }),
{
    match v {
        Some(Json::Array(a)) => {
            let ghost views = v->0@->Array_0;
            let mut out: Vec<String> = Vec::new();
            let mut i: usize = 0;
            while i < a.len()
                invariant
                    i <= a@.len(),
                    out@.len() == i,
                    v matches Some(j) && j@ == JsonV::Array(views),
                    views.len() == a@.len(),
                    forall|j: int| 0 <= j < views.len() ==> #[trigger] views[j] == a@[j]@,
                    forall|j: int| 0 <= j < i ==> views[j] == JsonV::String((#[trigger] out@[j])@),
                decreases a@.len() - i,
            {
                assert(views[i as int] == a@[i as int]@);
                match &a[i] {
                    Json::String(s) => {
                        out.push(s.clone());
                    },
                    _ => {
                        assert(!(views[i as int] is String));
                        return None;
                    },
                }
                i += 1;
            }
            proof {
                assert forall|j: int| 0 <= j < views.len() implies #[trigger] views[j] is String by {
                    assert(views[j] == JsonV::String(out@[j]@));
                }
                let want = Seq::new(views.len(), |j: int| views[j]->String_0);
                assert forall|j: int| 0 <= j < want.len() implies want[j] == texts(out@)[j] by {
                    assert(views[j] == JsonV::String(out@[j]@));
                }
                assert(want =~= texts(out@));
            }
            Some(out)
        },
        _ => None,
    }
}

fn read_pairs(v: Option<&Json>) -> (r: Option<Vec<(String, String)>>)
    ensures
        ({
            let want = pairs_of(
                match v {
                    Some(j) => Some(j@),
                    None => None,
                },
            );
            match r {
                Some(s) => want == Some(pairs(s@)),
                None => want is None,
            }
        }),
{
    match v {
        Some(Json::Object(o)) => {
            assert(v->0@ == JsonV::Object(o@));
            let mut out: Vec<(String, String)> = Vec::new();
            let mut i: usize = 0;
            while i < o.entries.len()
                invariant
                    i <= o.entries@.len(),
                    out@.len() == i,
                    v matches Some(j) && j@ == JsonV::Object(o@),
                    forall|j: int|
                        0 <= j < i ==> o@[j] == ((#[trigger] out@[j]).0@, JsonV::String(
                            out@[j].1@,
                        )),
                decreases o.entries@.len() - i,
            {
                assert(o@[i as int] == (o.entries@[i as int].0@, o.entries@[i as int].1@));
                match &o.entries[i].1 {
                    Json::String(s) => {
                        out.push((o.entries[i].0.clone(), s.clone()));
                    },
                    _ => {
                        assert(!(o@[i as int].1 is String));
                        return None;
                    },
                }
                i += 1;
            }
            proof {
                assert forall|j: int| 0 <= j < o@.len() implies (#[trigger] o@[j]).1 is String by {
                    assert(o@[j] == (out@[j].0@, JsonV::String(out@[j].1@)));
                }
                let want = Seq::new(o@.len(), |j: int| (o@[j].0, o@[j].1->String_0));
                assert forall|j: int| 0 <= j < want.len() implies want[j] == pairs(out@)[j] by {
                    assert(o@[j] == (out@[j].0@, JsonV::String(out@[j].1@)));
                }
                assert(want =~= pairs(out@));
            }
            Some(out)
        },
        _ => None,
    }
}

fn read_string(v: Option<&Json>) -> (r: Option<String>)
    ensures
        ({
            let want = v_str(
                match v {
                    Some(j) => Some(j@),
                    None => None,
                },
            );
            match r {
                Some(s) => want == Some(s@),
                None => want is None,
            }
        }),
{
    match v {
        Some(Json::String(s)) => Some(s.clone()),
        _ => None,
    }
}

fn read_command(v: &Json) -> (r: Option<KernelCommand>)
    ensures
        match r {
            Some(c) => command_of(v@) == Some(c@),
            None => command_of(v@) is None,
        },
{
    let o = match v {
        Json::Object(o) => {
            assert(v@ == JsonV::Object(o@));
            o
        },
        _ => {
            return None;
        },
    };
    let argv = match read_strings(o.get("argv")) {
        Some(s) => s,
        None => {
            return None;
        },
    };
    let env = match read_pairs(o.get("env")) {
        Some(s) => s,
        None => {
            return None;
        },
    };
    let interrupt_via_message = match o.get("interrupt_via_message") {
        Some(Json::Bool(b)) => *b,
        _ => {
            return None;
        },
    };
    let display_name = match read_string(o.get("display_name")) {
        Some(s) => s,
        None => {
            return None;
        },
    };
    let language = match read_string(o.get("language")) {
        Some(s) => s,
        None => {
            return None;
        },
    };
    let spec_name = match o.get("spec") {
        Some(Json::String(s)) => Some(s.clone()),
        Some(Json::Null) => None,
        None => None,
        _ => {
            return None;
        },
    };
    Some(KernelCommand { argv, env, interrupt_via_message, display_name, language, spec_name })
}

fn write_command(c: &KernelCommand) -> (r: Json)
    ensures
        r@ == command_json(c@),
{
    let mut argv: Vec<Json> = Vec::new();
    let mut i: usize = 0;
    while i < c.argv.len()
        invariant
            i <= c.argv@.len(),
            argv@.len() == i,
            forall|j: int| 0 <= j < i ==> (#[trigger] argv@[j])@ == JsonV::String(c.argv@[j]@),
        decreases c.argv@.len() - i,
    {
        argv.push(Json::String(c.argv[i].clone()));
        i += 1;
    }
    let list = Json::Array(argv);
    proof {
        let want = strings_json(c@.argv)->Array_0;
        assert forall|j: int| 0 <= j < want.len() implies list@->Array_0[j] == want[j] by {
            assert(argv@[j]@ == JsonV::String(c.argv@[j]@));
        }
        assert(list@->Array_0 =~= want);
    }
    let mut env = Object::new();
    i = 0;
    while i < c.env.len()
        invariant
            i <= c.env@.len(),
            env.entries@.len() == i,
            forall|j: int|
                0 <= j < i ==> (#[trigger] env.entries@[j]).0@ == c.env@[j].0@
                    && env.entries@[j].1@ == JsonV::String(c.env@[j].1@),
        decreases c.env@.len() - i,
    {
        env.entries.push((c.env[i].0.clone(), Json::String(c.env[i].1.clone())));
        i += 1;
    }
    proof {
        let want = pairs_json(c@.env)->Object_0;
        assert forall|j: int| 0 <= j < want.len() implies env@[j] == want[j] by {
            assert(env.entries@[j].0@ == c.env@[j].0@);
        }
        assert(env@ =~= want);
    }
    let vars = Json::Object(env);
    assert(vars@ == JsonV::Object(env@));
    let named = match &c.spec_name {
        Some(s) => Json::String(s.clone()),
        None => Json::Null,
    };
    let mut o = Object::new();
    let ghost nv = named@;
    o.entries.push(("argv".to_string(), list));
    o.entries.push(("env".to_string(), vars));
    o.entries.push(("interrupt_via_message".to_string(), Json::Bool(c.interrupt_via_message)));
    o.entries.push(("display_name".to_string(), Json::String(c.display_name.clone())));
    o.entries.push(("language".to_string(), Json::String(c.language.clone())));
    o.entries.push(("spec".to_string(), named));
    proof {
        let want = command_json(c@)->Object_0;
        assert(o.entries@.len() == 6);
        assert(o@[0] == want[0] && o@[1] == want[1] && o@[2] == want[2]);
        assert(o@[3] == want[3] && o@[4] == want[4] && o@[5] == want[5]);
        assert(o@ =~= want);
    }
    let r = Json::Object(o);
    assert(r@ == JsonV::Object(o@));
    r
}

fn put_kernel(out: &mut Vec<(String, KernelCommand)>, path: String, cmd: KernelCommand)
    ensures
        kernels_view(final(out)@) == put(kernels_view(old(out)@), path@, cmd@),
{
    let ghost before = kernels_view(out@);
    let ghost p = path@;
    let ghost c = cmd@;
    let mut i: usize = out.len();
    assert(before.take(i as int) =~= before);
    assert(before.skip(i as int) =~= Seq::empty());
    assert(put(before, p, c) =~= put(before.take(i as int), p, c) + before.skip(i as int));
    while i > 0 && !is_path_less(out[i - 1].0.as_str(), path.as_str()) && !is_same_path(
        out[i - 1].0.as_str(),
        path.as_str(),
    )
        invariant
            i <= out@.len(),
            before == kernels_view(out@),
            p == path@,
            put(before, p, c) == put(before.take(i as int), p, c) + before.skip(i as int),
        decreases i,
    {
        let ghost t = before.take(i as int);
        assert(t.last() == (out@[i - 1].0@, out@[i - 1].1@));
        assert(t.drop_last() =~= before.take(i - 1));
        assert(put(t, p, c) + before.skip(i as int) =~= put(t.drop_last(), p, c) + before.skip(
            i - 1,
        ));
        i -= 1;
    }
    let ghost t = before.take(i as int);
    proof {
        if i > 0 {
            assert(t.last() == (out@[i - 1].0@, out@[i - 1].1@));
            path_order_is_total(t.last().0, p);
        }
    }
    if i > 0 && is_same_path(out[i - 1].0.as_str(), path.as_str()) {
        let known = out[i - 1].0.clone();
        out.set(i - 1, (known, cmd));
        assert(kernels_view(out@) =~= t.drop_last().push((t.last().0, c)) + before.skip(i as int));
    } else {
        out.insert(i, (path, cmd));
        assert(kernels_view(out@) =~= t.push((p, c)) + before.skip(i as int));
    }
}

fn read_kernels(v: &Json) -> (r: Option<Vec<(String, KernelCommand)>>)
    ensures
        match r {
            Some(s) => kernels_of(v@) == Some(kernels_view(s@)),
            None => kernels_of(v@) is None,
        },
{
    let o = match v {
        Json::Object(o) => {
            assert(v@ == JsonV::Object(o@));
            o
        },
        _ => {
            return None;
        },
    };
    let mut out: Vec<(String, KernelCommand)> = Vec::new();
    let mut i: usize = 0;
    assert(kernels_view(out@) =~= Seq::empty());
    while i < o.entries.len()
        invariant
            i <= o.entries@.len(),
            v@ == JsonV::Object(o@),
            kernels_upto(o@, i as int) == Some(kernels_view(out@)),
        decreases o.entries@.len() - i,
    {
        assert(o@[i as int] == (o.entries@[i as int].0@, o.entries@[i as int].1@));
        match read_command(&o.entries[i].1) {
            Some(c) => {
                put_kernel(&mut out, o.entries[i].0.clone(), c);
            },
            None => {
                proof {
                    lemma_upto_none(o@, i as int + 1, o@.len() as int);
                }
                return None;
            },
        }
        i += 1;
    }
    Some(out)
}

proof fn lemma_upto_none(o: Entries, i: int, n: int)
    requires
        0 <= i <= n,
        kernels_upto(o, i) is None,
    ensures
        kernels_upto(o, n) is None,
    decreases n - i,
{
    if i < n {
        lemma_upto_none(o, i, n - 1);
    }
}

proof fn lemma_put_distinct(s: Kernels, path: Name, cmd: CommandV)
    requires
        envs_distinct(s),
        sets_once(cmd),
    ensures
        envs_distinct(put(s, path, cmd)),
    decreases s.len(),
{
    let t = put(s, path, cmd);
    if s.len() > 0 && !path_less(s.last().0, path) && !same_path(s.last().0, path) {
        assert(sets_once(s[s.len() - 1].1));
        assert forall|k: int| 0 <= k < s.drop_last().len() implies sets_once(
            (#[trigger] s.drop_last()[k]).1,
        ) by {
            assert(sets_once(s[k].1));
        }
        lemma_put_distinct(s.drop_last(), path, cmd);
        let p = put(s.drop_last(), path, cmd);
        assert forall|k: int| 0 <= k < t.len() implies sets_once((#[trigger] t[k]).1) by {
            if k < p.len() {
                assert(t[k] == p[k]);
            }
        }
    } else {
        assert forall|k: int| 0 <= k < t.len() implies sets_once((#[trigger] t[k]).1) by {
            if k < t.len() - 1 {
                assert(t[k] == s[k]);
            }
        }
    }
}

/// A command that a well-formed value is sets no variable twice.
proof fn lemma_read_once(v: JsonV)
    requires
        json_wf(v),
        command_of(v) is Some,
    ensures
        sets_once(command_of(v)->0),
{
    let o = v->Object_0;
    let at = obj_index(o, "env"@);
    lemma_obj_index(o, "env"@);
    assert(json_wf(o[at].1));
    let e = o[at].1->Object_0;
    let c = command_of(v)->0;
    assert(distinct(e));
    assert forall|i: int, j: int| 0 <= i < j < c.env.len() implies (#[trigger] c.env[i]).0 != (
    #[trigger] c.env[j]).0 by {
        assert(e[i].0 != e[j].0);
    }
}

proof fn lemma_upto_distinct(o: Entries, n: int)
    requires
        json_wf(JsonV::Object(o)),
        n <= o.len(),
        kernels_upto(o, n) is Some,
    ensures
        envs_distinct(kernels_upto(o, n)->0),
    decreases n,
{
    if n > 0 {
        lemma_upto_distinct(o, n - 1);
        assert(json_wf(o[n - 1].1));
        lemma_read_once(o[n - 1].1);
        lemma_put_distinct(kernels_upto(o, n - 1)->0, o[n - 1].0, command_of(o[n - 1].1)->0);
    }
}

proof fn lemma_upto_ordered(o: Entries, n: int)
    ensures
        kernels_upto(o, n) is Some ==> ordered(kernels_upto(o, n)->0),
    decreases n,
{
    if n > 0 {
        lemma_upto_ordered(o, n - 1);
        if kernels_upto(o, n) is Some {
            put_sets(
                kernels_upto(o, n - 1)->0,
                o[n - 1].0,
                command_of(o[n - 1].1)->0,
                o[n - 1].0,
            );
        }
    }
}

impl KernelMemory {
    /// The paths are in order, each once, and no command sets a variable twice.
    pub open spec fn wf(&self) -> bool {
        ordered(self@) && envs_distinct(self@)
    }

    /// The memory kept in `file`, which holds `text`; empty if the file does not exist yet.
    pub fn at(file: &str, text: Option<&[u8]>) -> (r: Result<KernelMemory, MemoryError>)
        ensures
            match r {
                Ok(m) => {
                    &&& m.wf()
                    &&& m.file@ == file@
                    &&& match text {
                        Some(t) => json_parsed(t@) is Some && kernels_of(json_parsed(t@)->0)
                            == Some(m@),
                        None => m@ == Kernels::empty(),
                    }
                },
                Err(e) => {
                    &&& e matches MemoryError::Invalid(f, _) && f@ == file@
                    &&& text matches Some(t) && (json_parsed(t@) is None || kernels_of(
                        json_parsed(t@)->0,
                    ) is None)
                },
            },
    {
        match text {
            Some(t) => match parse(t) {
                Ok(v) => {
                    proof {
                        if v@ is Object {
                            lemma_upto_ordered(v@->Object_0, v@->Object_0.len() as int);
                            if kernels_of(v@) is Some {
                                lemma_upto_distinct(v@->Object_0, v@->Object_0.len() as int);
                            }
                        }
                    }
                    match read_kernels(&v) {
                        Some(kernels) => Ok(KernelMemory { file: file.to_string(), kernels }),
                        None => Err(
                            MemoryError::Invalid(
                                file.to_string(),
                                "not a map of kernel commands".to_string(),
                            ),
                        ),
                    }
                },
                Err(e) => Err(MemoryError::Invalid(file.to_string(), error_text(&e))),
            },
            None => {
                let m = KernelMemory { file: file.to_string(), kernels: Vec::new() };
                assert(m@ =~= Kernels::empty());
                Ok(m)
            },
        }
    }

    /// The kernel last picked for `notebook`.
    pub fn get(&self, notebook: &str) -> (r: Option<&KernelCommand>)
        ensures
            match r {
                Some(c) => kernel_of(self@, notebook@) == Some(c@),
                None => kernel_of(self@, notebook@) is None,
            },
    {
        let mut i: usize = self.kernels.len();
        assert(self@.take(i as int) =~= self@);
        while i > 0
            invariant
                i <= self.kernels@.len(),
                kernel_of(self@, notebook@) == kernel_of(self@.take(i as int), notebook@),
            decreases i,
        {
            assert(self@.take(i as int).last() == self@[i - 1]);
            assert(self@.take(i as int).drop_last() =~= self@.take(i - 1));
            if is_same_path(self.kernels[i - 1].0.as_str(), notebook) {
                return Some(&self.kernels[i - 1].1);
            }
            i -= 1;
        }
        None
    }

    /// Remembers `cmd` as the kernel for `notebook`. Returns what to write to the file at once.
    pub fn remember(&mut self, notebook: &str, cmd: &KernelCommand) -> (r: Vec<u8>)
        requires
            old(self).wf(),
            sets_once(cmd@),
        ensures
            final(self).wf(),
            final(self).file@ == old(self).file@,
            final(self)@ == put(old(self)@, notebook@, cmd@),
            r@ == remembered(final(self)@),
            json_parsed(r@) == Some(kernels_json(final(self)@)),
    {
        proof {
            put_sets(self@, notebook@, cmd@, notebook@);
            lemma_put_distinct(self@, notebook@, cmd@);
        }
        put_kernel(&mut self.kernels, notebook.to_string(), cmd.clone());
        self.to_bytes()
    }

    /// Follows a notebook to its new path. Returns what to write to the file, if anything
    /// changed.
    pub fn renamed(&mut self, from: &str, to: &str) -> (r: Option<Vec<u8>>)
        requires
            old(self).wf(),
        ensures
            final(self).wf(),
            final(self).file@ == old(self).file@,
            match kernel_of(old(self)@, from@) {
                Some(cmd) => {
                    &&& final(self)@ == put(taken(old(self)@, from@), to@, cmd)
                    &&& r matches Some(text) && text@ == remembered(final(self)@) && json_parsed(
                        text@,
                    ) == Some(kernels_json(final(self)@))
                },
                None => final(self)@ == old(self)@ && r is None,
            },
    {
        let ghost before = self@;
        let mut i: usize = self.kernels.len();
        assert(before.take(i as int) =~= before);
        assert(taken(before, from@) =~= taken(before.take(i as int), from@) + before.skip(
            i as int,
        ));
        while i > 0
            invariant
                i <= self.kernels@.len(),
                before == self@,
                before == old(self)@,
                self.file == old(self).file,
                ordered(before),
                envs_distinct(before),
                kernel_of(before, from@) == kernel_of(before.take(i as int), from@),
                taken(before, from@) == taken(before.take(i as int), from@) + before.skip(i as int),
            decreases i,
        {
            let ghost t = before.take(i as int);
            assert(t.last() == before[i - 1]);
            assert(t.drop_last() =~= before.take(i - 1));
            if is_same_path(self.kernels[i - 1].0.as_str(), from) {
                let (_, cmd) = self.kernels.remove(i - 1);
                assert(self@ =~= t.drop_last() + before.skip(i as int));
                proof {
                    taken_forgets(before, from@, from@);
                    put_sets(self@, to@, cmd@, to@);
                    assert(sets_once(before[i - 1].1));
                    assert forall|k: int| 0 <= k < self@.len() implies sets_once(
                        (#[trigger] self@[k]).1,
                    ) by {
                        assert(self@[k] == before[if k < i - 1 { k } else { k + 1 }]);
                    }
                    lemma_put_distinct(self@, to@, cmd@);
                }
                put_kernel(&mut self.kernels, to.to_string(), cmd);
                return Some(self.to_bytes());
            }
            assert(taken(t, from@) + before.skip(i as int) =~= taken(t.drop_last(), from@)
                + before.skip(i - 1));
            i -= 1;
        }
        None
    }

    /// What to write to the file.
    pub fn to_bytes(&self) -> (r: Vec<u8>)
        requires
            self.wf(),
        ensures
            r@ == remembered(self@),
            json_parsed(r@) == Some(kernels_json(self@)),
    {
        let mut o = Object::new();
        let mut i: usize = 0;
        while i < self.kernels.len()
            invariant
                i <= self.kernels@.len(),
                o.entries@.len() == i,
                forall|j: int|
                    0 <= j < i ==> (#[trigger] o.entries@[j]).0@ == self@[j].0
                        && o.entries@[j].1@ == command_json(self@[j].1),
            decreases self.kernels@.len() - i,
        {
            assert(self@[i as int] == (self.kernels@[i as int].0@, self.kernels@[i as int].1@));
            o.entries.push((self.kernels[i].0.clone(), write_command(&self.kernels[i].1)));
            i += 1;
        }
        proof {
            let want = kernels_json(self@)->Object_0;
            assert forall|j: int| 0 <= j < want.len() implies o@[j] == want[j] by {
                assert(o.entries@[j].0@ == self@[j].0);
            }
            assert(o@ =~= want);
            lemma_kernels_json(self@);
        }
        let v = Json::Object(o);
        assert(v@ == JsonV::Object(o@));
        indented(&v)
    }
}

/// What the file holds.
pub open spec fn remembered(s: Kernels) -> Seq<u8> {
    json_indented(json_normal(kernels_json(s)))
}

/// A command is remembered with its arguments, its variables, its names and how it is
/// interrupted, each under a name of its own.
pub proof fn remembered_command_says_its_parts(c: CommandV, i: int)
    requires
        0 <= i < c.argv.len(),
    ensures
        ({
            let v = Some(command_json(c));
            &&& command_json(c) is Object
            &&& v_str(v_get(v, "display_name"@)) == Some(c.display_name)
            &&& v_str(v_get(v, "language"@)) == Some(c.language)
            &&& c.spec_name is Some ==> v_str(v_get(v, "spec"@)) == c.spec_name
            &&& c.spec_name is None ==> v_get(v, "spec"@) == Some(JsonV::Null)
            &&& v_get(v, "interrupt_via_message"@) == Some(JsonV::Bool(c.interrupt_via_message))
            &&& v_get(v, "argv"@) is Some && v_get(v, "argv"@)->0 is Array
            &&& v_get(v, "argv"@)->0->Array_0.len() == c.argv.len()
            &&& v_get(v, "argv"@)->0->Array_0[i] == JsonV::String(c.argv[i])
        }),
{
    reveal_strlit("argv");
    reveal_strlit("env");
    reveal_strlit("interrupt_via_message");
    reveal_strlit("display_name");
    reveal_strlit("language");
    reveal_strlit("spec");
    assert("argv"@[0] == 'a' && "spec"@[0] == 's');
    assert("argv"@.len() == 4 && "env"@.len() == 3 && "interrupt_via_message"@.len() == 21);
    assert("display_name"@.len() == 12 && "language"@.len() == 8 && "spec"@.len() == 4);
    let o = command_json(c)->Object_0;
    lemma_obj_index_is(o, "argv"@, 0);
    lemma_obj_index_is(o, "env"@, 1);
    lemma_obj_index_is(o, "interrupt_via_message"@, 2);
    lemma_obj_index_is(o, "display_name"@, 3);
    lemma_obj_index_is(o, "language"@, 4);
    lemma_obj_index_is(o, "spec"@, 5);
}

/// A path below a directory is the directory's, one slash, and the name.
pub proof fn paths_below_have_one_slash(dir: Seq<char>, name: Seq<char>)
    requires
        dir.len() > 0,
        name.len() > 0,
    ensures
        dir.last() != '/' ==> below(dir, name) == dir.push('/') + name,
        dir.last() == '/' ==> below(dir, name) == dir + name,
{
    reveal_strlit("/");
    assert("/"@ =~= seq!['/']);
    assert(dir.last() != '/' ==> below(dir, name) =~= dir.push('/') + name);
}

} // verus!
