//! The session: one notebook, its kernel, and the keys and commands that act on them. Nothing
//! here waits for anything: what the frontend has to do is listed as [`Effect`]s.

use crate::adapter::CellKind;
use crate::call::{
    args_view, input, lua, lua_call, text_args, texts_arg, Arg, ArgV, CallV,
};
use crate::document::{fresh, loaded, opt_text, raw_kind, raw_outputs, CellV};
use crate::editor::field;
use crate::executor::{
    all_failed, all_idle, events_view, exec_start, failed, forgotten, handled, is_bare, message_asks,
    message_id, nb_rest, nb_view, nothing_under_way, requested, run_of, runnable, touched, wiped, EventV,
    ExecEvent, ExecV, Executor, KernelMessage, KernelStatus, NbV,
};
use crate::history::{
    cell_at, edited, lines_of, pos, redone, run, source_of, undone, ChangeV, DocV, HistoryV, Name,
};
use crate::json::{obj_remove, Entries, Object};
use crate::kernel::{
    all_set_once, commands_view, is_input_request, sets_once, CommandV, KernelCommand, KernelError,
};
use crate::key::{keys, CellKey};
use crate::keys::{encode, key_text, KeyEvent};
use crate::memory::{kernel_of, put, remembered, taken, KernelMemory};
use crate::layout::{larger, smaller, Geometry, Item, Layout};
use crate::msg::{m_bool, m_get, m_str, m_u64, Msg, MsgV};
use crate::nav::{fed, Action};
use crate::notebook::{changes, groups, hash_view, Change, Notebook};
use crate::outputs::{shown_blocks, text_rows, wrapped, BlockV};
use crate::path::{file_name, last_part};
use crate::projection::opt_key;
use crate::save::kernelspec_set;
use crate::style::{fg_style, Color};
use crate::text::{
    cat, cat3, chars_of, copy_strings, join, join_with, one, split_chars, str_eq, string_of, texts,
    trim_end_chars, trimmed_end,
};
use crate::ui::{
    dirtied, doing, drawn_layouts, entering, focused, leaving, mode_of, place_of, restructured,
    saying, selecting, ui_start, under_way, Effect, EffectV, Focus, HeaderItem, Mode, ModeV, Ui,
    UiV,
};
use vstd::prelude::*;

verus! {

/// Where the message of a failed or missing kernel points.
pub const PICK_KERNEL: &'static str = "pick one in the header: gg k l <CR>";

pub struct App {
    pub nb: Notebook,
    pub executor: Executor,
    pub ui: Ui,
    /// Whether a kernel is connected.
    pub connected: bool,
    /// The kernel chosen for this session: resolved at startup, or picked in the header.
    pub kernel_cmd: Option<KernelCommand>,
    /// Why there is no working kernel. Runs fail with it, shown under the cell.
    pub kernel_error: Option<String>,
    /// What the kernel picker last offered, in the order shown.
    pub kernel_choices: Vec<KernelCommand>,
    /// The ipykernel install offered for a kernel start, and that start's generation.
    pub install: Option<(u64, Vec<String>)>,
    /// Whether Neovim has finished starting, so that prompts can be shown.
    pub nvim_ready: bool,
    pub generation: u64,
    /// Requests made before the kernel was ready.
    pub pending: Vec<jupyter_protocol::JupyterMessage>,
    /// Whether the kernel waits for input.
    pub asked: bool,
    /// tmux passes on no modified keys, so `<S-CR>` and `<C-CR>` arrive as `<CR>`.
    pub tmux_keys_missing: bool,
    /// The kernel picked for each notebook, across sessions.
    pub memory: KernelMemory,
    /// The last deleted or yanked cell, for pasting.
    pub register: Option<Object>,
}

pub open spec fn opt_command(c: Option<KernelCommand>) -> Option<CommandV> {
    match c {
        Some(c) => Some(c@),
        None => None,
    }
}

pub open spec fn install_view(i: Option<(u64, Vec<String>)>) -> Option<(u64, Seq<Seq<char>>)> {
    match i {
        Some(x) => Some((x.0, texts(x.1@))),
        None => None,
    }
}

pub open spec fn register_view(r: Option<Object>) -> Option<Entries> {
    match r {
        Some(o) => Some(o@),
        None => None,
    }
}

/// What an [`App`] holds.
pub struct AppV {
    pub nb: NbV,
    pub executor: ExecV,
    pub ui: UiV,
    pub connected: bool,
    pub kernel_cmd: Option<CommandV>,
    pub kernel_error: Option<Seq<char>>,
    pub kernel_choices: Seq<CommandV>,
    pub install: Option<(u64, Seq<Seq<char>>)>,
    pub nvim_ready: bool,
    pub generation: int,
    pub pending: Seq<jupyter_protocol::JupyterMessage>,
    pub asked: bool,
    pub tmux_keys_missing: bool,
    pub memory: Seq<(Seq<char>, CommandV)>,
    pub register: Option<Entries>,
}

impl View for App {
    type V = AppV;

    open spec fn view(&self) -> AppV {
        AppV {
            nb: nb_view(&self.nb),
            executor: self.executor@,
            ui: self.ui@,
            connected: self.connected,
            kernel_cmd: opt_command(self.kernel_cmd),
            kernel_error: opt_text(self.kernel_error),
            kernel_choices: commands_view(self.kernel_choices@),
            install: install_view(self.install),
            nvim_ready: self.nvim_ready,
            generation: self.generation as int,
            pending: self.pending@,
            asked: self.asked,
            tmux_keys_missing: self.tmux_keys_missing,
            memory: self.memory@,
            register: register_view(self.register),
        }
    }
}

/// What an execution event does to the screen.
pub open spec fn heard(u: UiV, ev: EventV) -> UiV {
    match ev {
        EventV::Cell(k) => UiV {
            relayout: true,
            draw: true,
            ..dirtied(doing(u, EffectV::ForgetView(k)))
        },
        EventV::Status(_) => UiV { draw: true, ..u },
        EventV::InputRequested { prompt, password, .. } => doing(
            u,
            EffectV::Call(
                lua_call(
                    "require('nbv').input(...)"@,
                    seq![ArgV::Text(prompt), ArgV::Bool(password)],
                ),
            ),
        ),
    }
}

/// What execution events do to the screen, one after another.
pub open spec fn heard_all(u: UiV, evs: Seq<EventV>) -> UiV
    decreases evs.len(),
{
    if evs.len() == 0 {
        u
    } else {
        heard(heard_all(u, evs.drop_last()), evs.last())
    }
}

/// The kernel cannot run anything: cells queued or running fail with a reason.
pub open spec fn all_fail(a: AppV, reason: Seq<char>) -> AppV {
    let f = all_failed(a.nb, a.executor.requests, reason);
    AppV {
        executor: nothing_under_way(a.executor, KernelStatus::Dead),
        nb: f.0,
        ui: heard_all(a.ui, f.1.push(EventV::Status(KernelStatus::Dead))),
        ..a
    }
}

#[verifier::opaque]
pub open spec fn kernel_fails(a: AppV, reason: Seq<char>) -> AppV {
    AppV {
        kernel_error: Some(reason),
        ..all_fail(AppV { connected: false, pending: Seq::empty(), ..a }, reason)
    }
}

/// The chosen kernel started. Without one, its error says why.
#[verifier::opaque]
pub open spec fn kernel_starts(a: AppV) -> AppV {
    let g = AppV { generation: a.generation + 1, ..a };
    match a.kernel_cmd {
        None => all_fail(g, a.kernel_error->0),
        Some(cmd) => AppV {
            kernel_error: None,
            install: None,
            ui: doing(a.ui, EffectV::Start { generation: (a.generation + 1) as u64, cmd }),
            ..g
        },
    }
}

/// The name of the kernel chosen.
pub open spec fn kernel_label(a: AppV) -> Seq<char> {
    match a.kernel_cmd {
        Some(c) => c.display_name,
        None => "kernel"@,
    }
}

pub open spec fn start_failure(a: AppV, why: Seq<char>) -> Seq<char> {
    kernel_label(a) + " could not start (00 retries; "@ + PICK_KERNEL@ + "):\n"@ + why
}

/// Asking whether to install ipykernel, once Neovim can ask.
pub open spec fn install_offered(a: AppV) -> AppV {
    match a.install {
        Some((generation, argv)) if a.nvim_ready => {
            let prompt = kernel_label(a) + " has no ipykernel. Install it with `"@ + join(
                argv,
                one(' '),
            ) + "`?"@;
            AppV {
                ui: doing(
                    a.ui,
                    EffectV::Call(
                        lua_call(
                            "require('nbv').offer_install(...)"@,
                            seq![ArgV::Text(prompt), ArgV::Count(generation as nat)],
                        ),
                    ),
                ),
                ..a
            }
        },
        _ => a,
    }
}

impl App {
    /// The notebook, the screen and the memory are well formed, a missing kernel has a reason,
    /// and the kernels offered set each variable once.
    pub open spec fn wf(&self) -> bool {
        &&& self.nb.wf()
        &&& self.ui.wf()
        &&& self.memory.wf()
        &&& self.kernel_cmd is None ==> self.kernel_error is Some
        &&& all_set_once(commands_view(self.kernel_choices@))
    }

    /// There are numbers left for a few more focus changes, layouts and kernel starts.
    pub open spec fn counts(&self) -> bool {
        &&& self.ui.counts()
        &&& self.ui.selected < usize::MAX
        &&& self.generation < u64::MAX - 2
    }

    /// Whether the session's counters have room for another event.
    pub fn has_room(&self) -> (r: bool)
        ensures
            r == self.counts(),
    {
        self.ui.focus_seq < u64::MAX - 2 && self.ui.layout_seq < u64::MAX && self.ui.selected
            < usize::MAX && self.generation < u64::MAX - 2
    }

    /// The file's part of the notebook, and its history, are as in `other`.
    pub open spec fn keeps_file(&self, other: &App) -> bool {
        &&& nb_rest(&self.nb, &other.nb)
        &&& self.memory.file@ == other.memory.file@
    }

    /// Reacts to an execution event.
    fn on_exec_event(&mut self, ev: ExecEvent)
        requires
            old(self).wf(),
        ensures
            final(self).wf(),
            *final(self) == (App { ui: final(self).ui, ..*old(self) }),
            final(self).ui@ == heard(old(self).ui@, ev@),
    {
        match ev {
            ExecEvent::Cell(k) => {
                self.ui.do_next(Effect::ForgetView(k));
                self.ui.mark_dirty();
                self.ui.relayout = true;
                self.ui.draw = true;
            },
            ExecEvent::Status(_) => {
                self.ui.draw = true;
            },
            ExecEvent::InputRequested { prompt, password, .. } => {
                let args = vec![Arg::Text(prompt), Arg::Bool(password)];
                assert(args_view(args@) =~= seq![ArgV::Text(prompt@), ArgV::Bool(password)]);
                self.ui.do_next(Effect::Call(lua("require('nbv').input(...)", args)));
            },
        }
    }

    fn on_exec_events(&mut self, evs: Vec<ExecEvent>)
        requires
            old(self).wf(),
        ensures
            final(self).wf(),
            *final(self) == (App { ui: final(self).ui, ..*old(self) }),
            final(self).ui@ == heard_all(old(self).ui@, events_view(evs@)),
    {
        let ghost all = evs@;
        let ghost ev = events_view(evs@);
        assert(ev.take(0) =~= Seq::empty());
        for e in it: evs
            invariant
                it.seq() == all,
                ev == events_view(all),
                self.wf(),
                *self == (App { ui: self.ui, ..*old(self) }),
                self.ui@ == heard_all(old(self).ui@, ev.take(it.index() as int)),
        {
            let ghost n = it.index() as int;
            assert(ev.take(n + 1).drop_last() =~= ev.take(n));
            assert(ev.take(n + 1).last() == e@);
            self.on_exec_event(e);
        }
        assert(ev.take(ev.len() as int) =~= ev);
    }

    /// Every cell queued or running fails with a reason.
    fn fail_all(&mut self, reason: &str)
        requires
            old(self).wf(),
        ensures
            final(self).wf(),
            final(self)@ == all_fail(old(self)@, reason@),
            final(self).keeps_file(old(self)),
    {
        let evs = self.executor.fail_all(&mut self.nb, reason);
        self.on_exec_events(evs);
    }

    /// The kernel cannot run anything: cells queued or running fail with `reason`, and so will
    /// later runs until the kernel is restarted or another is picked.
    pub fn kernel_failed(&mut self, reason: String)
        requires
            old(self).wf(),
        ensures
            final(self).wf(),
            final(self)@ == kernel_fails(old(self)@, reason@),
            final(self).keeps_file(old(self)),
    {
        proof {
            reveal(kernel_fails);
        }
        self.connected = false;
        self.pending = Vec::new();
        assert(self@.pending =~= Seq::empty());
        self.fail_all(reason.as_str());
        self.kernel_error = Some(reason);
    }

    /// Starts the chosen kernel. Without one, the error already says why.
    pub fn start_kernel(&mut self)
        requires
            old(self).wf(),
            old(self).generation < u64::MAX,
        ensures
            final(self).wf(),
            final(self)@ == kernel_starts(old(self)@),
            final(self).keeps_file(old(self)),
    {
        proof {
            reveal(kernel_starts);
        }
        self.generation += 1;
        match &self.kernel_cmd {
            None => {
                let reason = match &self.kernel_error {
                    Some(r) => r.clone(),
                    None => String::new(),
                };
                self.fail_all(reason.as_str());
            },
            Some(cmd) => {
                let cmd = cmd.clone();
                self.kernel_error = None;
                self.install = None;
                let generation = self.generation;
                self.ui.do_next(Effect::Start { generation, cmd });
            },
        }
    }

    fn kernel_name(&self) -> (r: String)
        ensures
            r@ == kernel_label(self@),
    {
        match &self.kernel_cmd {
            Some(c) => c.display_name.clone(),
            None => "kernel".to_string(),
        }
    }

    fn start_failed(&self, why: &str) -> (r: String)
        ensures
            r@ == start_failure(self@, why@),
    {
        let a = cat3(self.kernel_name().as_str(), " could not start (00 retries; ", PICK_KERNEL);
        cat3(a.as_str(), "):\n", why)
    }

    /// Asks whether to install ipykernel for the kernel being started, once Neovim can ask.
    pub fn offer_install(&mut self)
        requires
            old(self).wf(),
        ensures
            final(self).wf(),
            final(self)@ == install_offered(old(self)@),
            final(self).keeps_file(old(self)),
    {
        if !self.nvim_ready {
            return;
        }
        let (generation, command) = match &self.install {
            Some(i) => (i.0, join_with(&i.1, ' ')),
            None => {
                return;
            },
        };
        let a = cat3(
            self.kernel_name().as_str(),
            " has no ipykernel. Install it with `",
            command.as_str(),
        );
        let prompt = cat(a.as_str(), "`?");
        let args = vec![Arg::Text(prompt), Arg::Count(generation)];
        assert(args_view(args@) =~= seq![ArgV::Text(prompt@), ArgV::Count(generation as nat)]);
        self.ui.do_next(Effect::Call(lua("require('nbv').offer_install(...)", args)));
    }
}

/// Requests sent, in order.
pub open spec fn sending(u: UiV, msgs: Seq<jupyter_protocol::JupyterMessage>) -> UiV {
    UiV {
        effects: u.effects + Seq::new(msgs.len(), |i: int| EffectV::Send(msgs[i])),
        ..u
    }
}

/// A kernel connected, or why it is not. One of an earlier start changes nothing.
pub open spec fn kernel_came(a: AppV, generation: u64, error: Option<Seq<char>>) -> AppV {
    if generation != a.generation {
        a
    } else {
        let b = match error {
            None => AppV {
                ui: sending(a.ui, a.pending),
                pending: Seq::empty(),
                connected: true,
                executor: ExecV { status: KernelStatus::Idle, ..a.executor },
                ..a
            },
            Some(e) => kernel_fails(a, start_failure(a, e)),
        };
        AppV { ui: UiV { draw: true, ..b.ui }, ..b }
    }
}

/// ipykernel was installed, or not.
pub open spec fn install_ended(a: AppV, generation: u64, error: Option<Seq<char>>) -> AppV {
    if generation != a.generation {
        a
    } else {
        let b = match error {
            None => kernel_starts(
                AppV {
                    ui: UiV {
                        message: Some("installed ipykernel for "@ + kernel_label(a)),
                        ..a.ui
                    },
                    ..a
                },
            ),
            Some(e) => kernel_fails(a, start_failure(a, e)),
        };
        AppV { ui: UiV { draw: true, ..b.ui }, ..b }
    }
}

/// The user answered whether to install ipykernel.
pub open spec fn install_decided(a: AppV, generation: u64, yes: bool) -> AppV {
    match a.install {
        Some((g, argv)) if g == generation => {
            let b = AppV { install: None, ..a };
            if yes {
                AppV {
                    ui: doing(
                        saying(
                            a.ui,
                            "installing ipykernel: "@ + join(argv, one(' ')),
                        ),
                        EffectV::Install { generation, argv },
                    ),
                    ..b
                }
            } else {
                let f = kernel_fails(
                    b,
                    kernel_label(a) + " has no ipykernel (00 offers to install it; "@ + PICK_KERNEL@
                        + ")"@,
                );
                AppV { ui: UiV { draw: true, ..f.ui }, ..f }
            }
        },
        _ => a,
    }
}

/// Why a kernel's death fails what runs.
pub open spec fn death(stderr: Seq<char>) -> Seq<char> {
    let tail = trimmed_end(stderr);
    "the kernel died (00 restarts it)"@ + if tail.len() == 0 {
        Seq::empty()
    } else {
        ":\n"@ + tail
    }
}

impl App {
    /// The kernel of start `generation` connected, or failed to. Returns whether it is the
    /// latest start; a kernel of an earlier one is the caller's to shut down.
    pub fn on_kernel_ready(&mut self, generation: u64, error: Option<&str>) -> (r: bool)
        requires
            old(self).wf(),
        ensures
            final(self).wf(),
            final(self)@ == kernel_came(
                old(self)@,
                generation,
                match error {
                    Some(e) => Some(e@),
                    None => None,
                },
            ),
            final(self).keeps_file(old(self)),
            r == (generation == old(self).generation),
    {
        if generation != self.generation {
            return false;
        }
        match error {
            None => {
                let mut msgs: Vec<jupyter_protocol::JupyterMessage> = Vec::new();
                std::mem::swap(&mut msgs, &mut self.pending);
                let ghost all = msgs@;
                let ghost before = self.ui@;
                assert(sending(before, all.take(0)).effects =~= before.effects);
                for m in it: msgs
                    invariant
                        it.seq() == all,
                        self.wf(),
                        *self == (App { ui: self.ui, pending: self.pending, ..*old(self) }),
                        self.pending@.len() == 0,
                        before == old(self).ui@,
                        self.ui@ == sending(before, all.take(it.index() as int)),
                {
                    let ghost n = it.index() as int;
                    assert(all[n] == m);
                    self.ui.do_next(Effect::Send(m));
                    assert(self.ui@.effects =~= sending(before, all.take(n + 1)).effects);
                }
                assert(all.take(all.len() as int) =~= all);
                assert(self@.pending =~= Seq::empty());
                self.connected = true;
                self.executor.connected();
            },
            Some(e) => self.start_has_failed(e),
        }
        self.ui.draw = true;
        true
    }

    /// The Python of the kernel being started has no ipykernel; `argv` installs it.
    pub fn on_missing_ipykernel(&mut self, generation: u64, argv: Vec<String>)
        requires
            old(self).wf(),
        ensures
            final(self).wf(),
            final(self)@ == (if generation == old(self).generation {
                install_offered(
                    AppV { install: Some((generation, texts(argv@))), ..old(self)@ },
                )
            } else {
                old(self)@
            }),
            final(self).keeps_file(old(self)),
    {
        if generation == self.generation {
            self.install = Some((generation, argv));
            self.offer_install();
        }
    }

    /// The install that the user agreed to has ended.
    pub fn on_installed(&mut self, generation: u64, error: Option<&str>)
        requires
            old(self).wf(),
            old(self).generation < u64::MAX,
        ensures
            final(self).wf(),
            final(self)@ == install_ended(
                old(self)@,
                generation,
                match error {
                    Some(e) => Some(e@),
                    None => None,
                },
            ),
            final(self).keeps_file(old(self)),
    {
        if generation != self.generation {
            return;
        }
        match error {
            None => {
                let text = cat("installed ipykernel for ", self.kernel_name().as_str());
                self.ui.message = Some(text);
                self.start_kernel();
            },
            Some(e) => self.start_has_failed(e),
        }
        self.ui.draw = true;
    }

    /// The kernel could not be started.
    fn start_has_failed(&mut self, why: &str)
        requires
            old(self).wf(),
        ensures
            final(self).wf(),
            final(self)@ == kernel_fails(old(self)@, start_failure(old(self)@, why@)),
            final(self).keeps_file(old(self)),
    {
        let reason = self.start_failed(why);
        self.kernel_failed(reason);
    }

    /// The user answered the offer: install ipykernel, then start the kernel.
    pub fn install_answered(&mut self, generation: u64, yes: bool)
        requires
            old(self).wf(),
        ensures
            final(self).wf(),
            final(self)@ == install_decided(old(self)@, generation, yes),
            final(self).keeps_file(old(self)),
    {
        let argv = match &self.install {
            Some(i) => {
                if i.0 != generation {
                    return;
                }
                copy_strings(&i.1)
            },
            None => {
                return;
            },
        };
        self.install = None;
        if !yes {
            let a = cat3(
                self.kernel_name().as_str(),
                " has no ipykernel (00 offers to install it; ",
                PICK_KERNEL,
            );
            self.kernel_failed(cat(a.as_str(), ")"));
            self.ui.draw = true;
            return;
        }
        let text = cat("installing ipykernel: ", join_with(&argv, ' ').as_str());
        self.ui.say(text);
        self.ui.do_next(Effect::Install { generation, argv });
    }

    /// The kernel says something.
    pub fn on_message(&mut self, msg: &KernelMessage, now: u64)
        requires
            old(self).wf(),
        ensures
            final(self).wf(),
            final(self).keeps_file(old(self)),
            ({
                let a = old(self)@;
                let h = handled(a.executor, a.nb, opt_text(msg.parent), msg.content@, now);
                final(self)@ == (AppV {
                    asked: a.asked || msg.content is InputRequest,
                    executor: h.0,
                    nb: h.1,
                    ui: heard_all(a.ui, h.2),
                    ..a
                })
            }),
    {
        if is_input_request(&msg.content) {
            self.asked = true;
        }
        let evs = self.executor.handle(&mut self.nb, msg, now);
        self.on_exec_events(evs);
    }

    /// The kernel of start `generation` died.
    pub fn on_death(&mut self, generation: u64, stderr: &str)
        requires
            old(self).wf(),
        ensures
            final(self).wf(),
            final(self)@ == (if generation == old(self).generation {
                kernel_fails(old(self)@, death(stderr@))
            } else {
                old(self)@
            }),
            final(self).keeps_file(old(self)),
    {
        if generation != self.generation {
            return;
        }
        let tail = trim_end_chars(&chars_of(stderr));
        let first = "the kernel died (00 restarts it)";
        let reason = if tail.len() == 0 {
            let r = first.to_string();
            assert(r@ =~= death(stderr@));
            r
        } else {
            let rest = cat(":\n", string_of(&tail).as_str());
            cat(first, rest.as_str())
        };
        self.kernel_failed(reason);
    }
}

/// The part of a session that running a cell changes.
pub struct RunV {
    pub executor: ExecV,
    pub nb: NbV,
    pub ui: UiV,
    pub pending: Seq<jupyter_protocol::JupyterMessage>,
}

pub open spec fn run_part(a: AppV) -> RunV {
    RunV { executor: a.executor, nb: a.nb, ui: a.ui, pending: a.pending }
}

pub open spec fn with_run(a: AppV, r: RunV) -> AppV {
    AppV { executor: r.executor, nb: r.nb, ui: r.ui, pending: r.pending, ..a }
}

/// Whether a live or tombstoned cell is code.
pub open spec fn is_code(d: DocV, k: Name) -> bool {
    cell_at(d, k) matches Some(c) && raw_kind(c.raw) == CellKind::Code
}

/// A cell sent to the kernel, or kept until there is one. Where the kernel cannot run anything,
/// a code cell fails.
pub open spec fn ran_one(s: RunV, k: Name, error: Option<Seq<char>>, connected: bool, t: RunV) -> bool {
    match error {
        Some(reason) => t == (if is_code(s.nb.doc, k) {
            RunV { nb: failed(s.nb, k, reason), ui: heard(s.ui, EventV::Cell(k)), ..s }
        } else {
            s
        }),
        None => if runnable(s.nb.doc, k) {
            exists|m: jupyter_protocol::JupyterMessage|
                message_asks(m) == run_of(source_of(s.nb.doc.live[k])) && t == #[trigger] sent_off(
                    s,
                    k,
                    connected,
                    m,
                )
        } else {
            t == s
        },
    }
}

pub open spec fn sent_off(s: RunV, k: Name, connected: bool, m: jupyter_protocol::JupyterMessage) -> RunV {
    let r = requested(s.executor, s.nb, k, message_id(m));
    let u = doing(s.ui, EffectV::ForgetView(k));
    RunV {
        executor: r.0,
        nb: r.1,
        ui: if connected {
            doing(u, EffectV::Send(m))
        } else {
            u
        },
        pending: if connected {
            s.pending
        } else {
            s.pending.push(m)
        },
    }
}

/// Cells run, one after another.
pub open spec fn ran_all(
    s: RunV,
    ks: Seq<Name>,
    error: Option<Seq<char>>,
    connected: bool,
    t: RunV,
) -> bool
    decreases ks.len(),
{
    if ks.len() == 0 {
        t == s
    } else {
        exists|mid: RunV|
            ran_all(s, ks.drop_last(), error, connected, mid) && #[trigger] ran_one(
                mid,
                ks.last(),
                error,
                connected,
                t,
            )
    }
}

/// Cells run, and the screen drawn again.
pub open spec fn cells_ran(a: AppV, ks: Seq<Name>, b: AppV) -> bool {
    exists|t: RunV| #[trigger]
        ran_all(run_part(a), ks, a.kernel_error, a.connected, t) && b == with_run(
            a,
            RunV { ui: UiV { relayout: true, draw: true, ..t.ui }, ..t },
        )
}

impl App {
    /// Runs one cell.
    fn run_cell(&mut self, key: &CellKey)
        requires
            old(self).wf(),
        ensures
            final(self).wf(),
            final(self).keeps_file(old(self)),
            final(self)@ == with_run(old(self)@, run_part(final(self)@)),
            ran_one(
                run_part(old(self)@),
                key@,
                old(self)@.kernel_error,
                old(self).connected,
                run_part(final(self)@),
            ),
    {
        if let Some(reason) = &self.kernel_error {
            let code = match self.nb.cell(key) {
                Some(c) => c.kind() == CellKind::Code,
                None => false,
            };
            if code {
                let reason = reason.clone();
                let ev = self.executor.fail(&mut self.nb, key, reason.as_str());
                self.on_exec_event(ev);
            }
            return;
        }
        let ghost s = run_part(self@);
        if let Some(msg) = self.executor.request(&mut self.nb, key) {
            self.ui.do_next(Effect::ForgetView(key.clone()));
            if self.connected {
                self.ui.do_next(Effect::Send(msg));
            } else {
                self.pending.push(msg);
            }
            assert(run_part(self@) == sent_off(s, key@, self.connected, msg));
        }
    }

    /// Runs cells, in order.
    pub fn run_cells(&mut self, ks: &Vec<CellKey>)
        requires
            old(self).wf(),
        ensures
            final(self).wf(),
            final(self).keeps_file(old(self)),
            cells_ran(old(self)@, keys(ks@), final(self)@),
    {
        let ghost names = keys(ks@);
        let ghost s = run_part(self@);
        let ghost error = self@.kernel_error;
        let mut i: usize = 0;
        assert(names.take(0) =~= Seq::empty());
        while i < ks.len()
            invariant
                i <= ks@.len(),
                names == keys(ks@),
                self.wf(),
                self.keeps_file(old(self)),
                s == run_part(old(self)@),
                error == old(self)@.kernel_error,
                self@ == with_run(old(self)@, run_part(self@)),
                ran_all(s, names.take(i as int), error, old(self).connected, run_part(self@)),
            decreases ks@.len() - i,
        {
            let ghost mid = run_part(self@);
            self.run_cell(&ks[i]);
            proof {
                let upto = names.take(i + 1);
                assert(upto.drop_last() =~= names.take(i as int));
                assert(upto.last() == ks@[i as int]@);
                assert(ran_one(mid, upto.last(), error, old(self).connected, run_part(self@)));
            }
            i += 1;
        }
        assert(names.take(i as int) =~= names);
        let ghost t = run_part(self@);
        self.ui.relayout = true;
        self.ui.draw = true;
        assert(ran_all(
            run_part(old(self)@),
            names,
            old(self)@.kernel_error,
            old(self)@.connected,
            t,
        ));
    }
}

/// The kernel restarted: nothing is under way any more, and the chosen kernel starts.
pub open spec fn restarts(a: AppV) -> AppV {
    let i = all_idle(a.nb, a.executor.requests);
    let u = if a.connected {
        doing(a.ui, EffectV::Shutdown)
    } else {
        a.ui
    };
    kernel_starts(
        AppV {
            connected: false,
            executor: nothing_under_way(a.executor, KernelStatus::Restarting),
            nb: i.0,
            ui: heard_all(u, i.1.push(EventV::Status(KernelStatus::Restarting))),
            pending: Seq::empty(),
            ..a
        },
    )
}

pub open spec fn interrupts(a: AppV) -> AppV {
    if a.connected {
        AppV { ui: doing(a.ui, EffectV::Interrupt), ..a }
    } else {
        a
    }
}

impl App {
    /// Restarts the kernel.
    pub fn restart(&mut self)
        requires
            old(self).wf(),
            old(self).generation < u64::MAX,
        ensures
            final(self).wf(),
            final(self)@ == restarts(old(self)@),
            final(self).keeps_file(old(self)),
    {
        if self.connected {
            self.connected = false;
            self.ui.do_next(Effect::Shutdown);
        }
        let evs = self.executor.reset(&mut self.nb, KernelStatus::Restarting);
        self.on_exec_events(evs);
        self.pending = Vec::new();
        assert(self@.pending =~= Seq::empty());
        self.start_kernel();
    }

    /// Interrupts the kernel.
    pub fn interrupt(&mut self)
        requires
            old(self).wf(),
        ensures
            final(self).wf(),
            final(self)@ == interrupts(old(self)@),
            final(self).keeps_file(old(self)),
    {
        if self.connected {
            self.ui.do_next(Effect::Interrupt);
        }
    }
}

/// A change made to a notebook, as one undo step.
pub open spec fn nb_did(before: &Notebook, after: &Notebook, c: ChangeV) -> bool {
    &&& after.same_file(before)
    &&& after.history() == edited(before.history(), seq![c])
    &&& after.mutated == (before.mutated || run(before.doc(), seq![c]).1.len() > 0)
}

/// The session with a change made to the notebook.
pub open spec fn changed_by(before: &App, after: &App, c: ChangeV) -> bool {
    &&& nb_did(&before.nb, &after.nb, c)
    &&& after@ == (AppV {
        nb: nb_view(&after.nb),
        ui: restructured(before.ui@, run(before.nb.doc(), seq![c]).2),
        ..before@
    })
    &&& after.memory.file@ == before.memory.file@
}

/// The history of a notebook with one more tombstoned cell.
pub open spec fn with_tomb(nb: &Notebook, key: Name, cell: CellV) -> HistoryV {
    HistoryV {
        doc: DocV { tombs: nb.doc().tombs.insert(key, cell), ..nb.doc() },
        ..nb.history()
    }
}

/// A new cell, under a key never seen, and a change that shows it.
pub open spec fn nb_added(before: &Notebook, after: &Notebook, key: Name, cell: CellV, c: ChangeV) -> bool {
    let h = with_tomb(before, key, cell);
    &&& !before.minter@.contains(key)
    &&& after.minter@ == before.minter@.insert(key)
    &&& after.history() == edited(h, seq![c])
    &&& after.mutated == (before.mutated || run(h.doc, seq![c]).1.len() > 0)
    &&& after.path@ == before.path@
    &&& after.top@ == before.top@
    &&& after.trailing_newline == before.trailing_newline
    &&& hash_view(after.disk_hash) == hash_view(before.disk_hash)
}

/// The session with a new cell shown, under a key never seen.
pub open spec fn added_by(before: &App, after: &App, key: Name, cell: CellV, c: ChangeV) -> bool {
    &&& nb_added(&before.nb, &after.nb, key, cell, c)
    &&& after@ == (AppV {
        nb: nb_view(&after.nb),
        ui: restructured(
            before.ui@,
            run(with_tomb(&before.nb, key, cell).doc, seq![c]).2,
        ),
        ..before@
    })
    &&& after.memory.file@ == before.memory.file@
}

/// A new empty code cell at `index`.
pub open spec fn opened(before: &App, after: &App, key: Name, index: int) -> bool {
    added_by(
        before,
        after,
        key,
        fresh(CellKind::Code, Seq::empty()),
        ChangeV::Show { key, index },
    )
}

/// A new empty code cell at `index`, under some key.
pub open spec fn opened_at(before: &App, after: &App, index: int) -> bool {
    exists|key: Name| #[trigger] opened(before, after, key, index)
}

/// Nothing but the screen changed.
pub open spec fn only_ui(before: &App, after: &App, u: UiV) -> bool {
    after@ == (AppV { ui: u, ..before@ }) && after.keeps_file(before)
}

/// The cell selected.
pub open spec fn selected_name(a: &App) -> Option<Name> {
    let order = a.nb.doc().order;
    if a.ui.selected < order.len() {
        Some(order[a.ui.selected as int])
    } else {
        None
    }
}

/// A new empty code cell at `index`, being edited.
pub open spec fn opened_and_entered(before: &App, after: &App, index: int) -> bool {
    exists|mid: App, key: Name|
        #![trigger opened(before, &mid, key, index)]
        opened(before, &mid, key, index) && only_ui(
            &mid,
            after,
            entering(mid.ui@, key, true, place_of(mid.nb.doc().order, key)),
        )
}

/// After a cell ran: the next is selected, or one is added at the end and edited.
pub open spec fn advanced(before: &App, after: &App, key: Name) -> bool {
    let order = before.nb.doc().order;
    match place_of(order, key) {
        None => only_ui(before, after, before.ui@),
        Some(i) => if i + 1 < order.len() {
            only_ui(before, after, selecting(before.ui@, i + 1, order.len() as int))
        } else {
            opened_and_entered(before, after, i + 1)
        },
    }
}

/// Undo or redo.
pub open spec fn stepped(before: &App, after: &App, redo: bool) -> bool {
    let h = before.nb.history();
    let stack = if redo {
        h.redo
    } else {
        h.undo
    };
    let r = run(h.doc, stack.last());
    if stack.len() == 0 {
        &&& after.nb.same_file(&before.nb)
        &&& after.nb.history() == h
        &&& after@ == (AppV {
            ui: saying(
                before.ui@,
                if redo {
                    "Already at newest change"@
                } else {
                    "Already at oldest change"@
                },
            ),
            ..before@
        })
        &&& after.memory.file@ == before.memory.file@
    } else {
        &&& after.nb.same_file(&before.nb)
        &&& after.nb.history() == (if redo {
            redone(h)
        } else {
            undone(h)
        })
        &&& after.nb.mutated == (before.nb.mutated || r.1.len() > 0)
        &&& after@ == (AppV {
            nb: nb_view(&after.nb),
            ui: restructured(
                before.ui@,
                if r.2 is Some {
                    r.2
                } else {
                    Some(0int)
                },
            ),
            ..before@
        })
        &&& after.memory.file@ == before.memory.file@
    }
}

/// Where a cell goes: at the selection or below it, and anywhere where there is none.
pub open spec fn place_for(a: &App, above: bool) -> int {
    let len = a.nb.doc().order.len() as int;
    if len == 0 || above {
        smaller(a.ui.selected as int, len)
    } else {
        a.ui.selected + 1
    }
}

impl App {
    pub(crate) fn selected_key(&self) -> (r: Option<CellKey>)
        ensures
            opt_key(r) == selected_name(self),
            r is Some ==> self.ui.selected < self.nb.order@.len(),
    {
        if self.ui.selected < self.nb.order.len() {
            assert(self.nb.doc().order[self.ui.selected as int] == self.nb.order@[self.ui.selected as int]@);
            Some(self.nb.order[self.ui.selected].clone())
        } else {
            None
        }
    }

    /// Makes a change, as one undo step.
    fn change(&mut self, c: Change)
        requires
            old(self).wf(),
        ensures
            final(self).wf(),
            changed_by(old(self), final(self), c@),
    {
        let ghost cv = c@;
        let group = vec![c];
        assert(changes(group@) =~= seq![cv]);
        let at = self.nb.edit(group);
        self.ui.structure_changed(at);
    }

    /// Adds an empty code cell at `index` and selects it.
    fn add(&mut self, index: usize) -> (r: CellKey)
        requires
            old(self).wf(),
        ensures
            final(self).wf(),
            opened(old(self), final(self), r@, index as int),
    {
        proof {
            reveal_strlit("");
            assert(""@ =~= Seq::empty());
        }
        let key = self.nb.new_cell(CellKind::Code, "");
        self.show_new(&key, index, Ghost(old(self).nb), Ghost(fresh(CellKind::Code, Seq::empty())));
        assert(opened(old(self), self, key@, index as int));
        key
    }

    /// Shows a cell just created, of which `nb0` knows nothing.
    fn show_new(&mut self, key: &CellKey, index: usize, nb0: Ghost<Notebook>, cell: Ghost<CellV>)
        requires
            old(self).wf(),
            old(self).nb.created(&nb0@, key@, cell@),
        ensures
            final(self).wf(),
            added_by(
                &(App { nb: nb0@, ..*old(self) }),
                final(self),
                key@,
                cell@,
                ChangeV::Show { key: key@, index: index as int },
            ),
    {
        let ghost h = with_tomb(&nb0@, key@, cell@);
        assert(self.nb.history() == h) by {
            assert(groups(self.nb.undo@) =~= h.undo);
            assert(groups(self.nb.redo@) =~= h.redo);
        }
        self.change(Change::Show { key: key.clone(), index });
    }

    /// Selects a cell.
    fn select(&mut self, i: usize)
        requires
            old(self).wf(),
        ensures
            final(self).wf(),
            only_ui(
                old(self),
                final(self),
                selecting(old(self).ui@, i as int, old(self).nb.doc().order.len() as int),
            ),
    {
        self.ui.select(i, self.nb.order.len());
    }

    /// Gives a cell's window focus.
    fn enter(&mut self, key: &CellKey, insert: bool)
        requires
            old(self).wf(),
            old(self).ui.focus_seq < u64::MAX,
        ensures
            final(self).wf(),
            only_ui(
                old(self),
                final(self),
                entering(old(self).ui@, key@, insert, place_of(old(self).nb.doc().order, key@)),
            ),
    {
        let at = self.nb.index_of(key);
        self.ui.enter(key, insert, at);
    }

    fn add_and_enter(&mut self, index: usize)
        requires
            old(self).wf(),
            old(self).ui.focus_seq < u64::MAX,
        ensures
            final(self).wf(),
            opened_and_entered(old(self), final(self), index as int),
    {
        let key = self.add(index);
        let ghost mid = *self;
        assert(opened(old(self), &mid, key@, index as int));
        self.enter(&key, true);
    }

    /// After running `key` with run-and-advance: selects the next cell, or adds one at the end
    /// and edits it, as Jupyter does.
    fn advance(&mut self, key: &CellKey)
        requires
            old(self).wf(),
            old(self).ui.focus_seq < u64::MAX,
        ensures
            final(self).wf(),
            advanced(old(self), final(self), key@),
    {
        if let Some(i) = self.nb.index_of(key) {
            if i + 1 < self.nb.order.len() {
                self.select(i + 1);
            } else {
                self.add_and_enter(i + 1);
            }
        }
    }

    fn step(&mut self, redo: bool)
        requires
            old(self).wf(),
        ensures
            final(self).wf(),
            stepped(old(self), final(self), redo),
    {
        let at = if redo {
            self.nb.redo()
        } else {
            self.nb.undo()
        };
        match at {
            Some(i) => self.ui.structure_changed(Some(i)),
            None => {
                let text = if redo {
                    "Already at newest change".to_string()
                } else {
                    "Already at oldest change".to_string()
                };
                self.ui.say(text);
            },
        }
    }
}

/// The rows that half a page scrolls.
pub open spec fn half_page(u: UiV) -> int {
    (match u.geometry {
        Some(g) => g.rows(),
        None => 20,
    }) / 2
}

pub open spec fn colon_call() -> CallV {
    CallV { method: "nvim_input"@, args: seq![ArgV::Text(":"@)] }
}

/// The cell selected goes into the register.
pub open spec fn registered(a: &App, k: Name) -> Option<Entries> {
    match cell_at(a.nb.doc(), k) {
        Some(c) => Some(c.raw),
        None => None,
    }
}

/// What an action does to the cells. `changes` is how often Neovim has changed its mode.
#[verifier::opaque]
pub open spec fn acted(before: &App, after: &App, action: Action, changes: u64) -> bool {
    let u = before.ui@;
    let order = before.nb.doc().order;
    let len = order.len() as int;
    let key = selected_name(before);
    match action {
        Action::Down(n) => only_ui(before, after, selecting(u, u.selected + n, len)),
        // Past the first cell, the header.
        Action::Up(n) => if u.selected == 0 {
            only_ui(before, after, UiV { header: Some(HeaderItem::Name), draw: true, ..u })
        } else {
            only_ui(before, after, selecting(u, larger(u.selected - n, 0), len))
        },
        Action::First => only_ui(before, after, selecting(u, 0, len)),
        Action::Last(None) => only_ui(before, after, selecting(u, larger(len - 1, 0), len)),
        Action::Last(Some(n)) => only_ui(before, after, selecting(u, larger(n - 1, 0), len)),
        Action::HalfPageDown => only_ui(before, after, doing(u, EffectV::ScrollBy(half_page(u)))),
        Action::HalfPageUp => only_ui(before, after, doing(u, EffectV::ScrollBy(-half_page(u)))),
        Action::Edit => match key {
            Some(k) => only_ui(before, after, entering(u, k, false, place_of(order, k))),
            None => opened_and_entered(before, after, 0),
        },
        Action::Open { above } => opened_at(before, after, place_for(before, above)),
        Action::Delete => match key {
            Some(k) => changed_by(
                &(App { register: after.register, ..*before }),
                after,
                ChangeV::Hide { key: k },
            ) && register_view(after.register) == registered(before, k),
            None => only_ui(before, after, u),
        },
        Action::Yank => match key {
            Some(k) => {
                &&& after@ == (AppV {
                    register: registered(before, k),
                    ui: saying(u, "cell yanked"@),
                    ..before@
                })
                &&& after.keeps_file(before)
            },
            None => only_ui(before, after, u),
        },
        Action::Paste { above } => match register_view(before.register) {
            Some(raw) => pasted_at(before, after, raw, place_for(before, above)),
            None => only_ui(before, after, u),
        },
        Action::Undo => stepped(before, after, false),
        Action::Redo => stepped(before, after, true),
        Action::MoveDown => if key is Some && u.selected + 1 < len {
            changed_by(before, after, ChangeV::Move { key: key->0, index: u.selected + 1 })
        } else {
            only_ui(before, after, u)
        },
        Action::MoveUp => if key is Some && u.selected > 0 {
            changed_by(before, after, ChangeV::Move { key: key->0, index: u.selected - 1 })
        } else {
            only_ui(before, after, u)
        },
        Action::Merge => if key is Some && u.selected + 1 < len {
            changed_by(
                before,
                after,
                ChangeV::Merge { key: key->0, next: order[u.selected + 1] },
            )
        } else {
            only_ui(before, after, u)
        },
        Action::Kind(kind) => match key {
            Some(k) => changed_by(before, after, ChangeV::Kind { key: k, kind }),
            None => only_ui(before, after, u),
        },
        Action::Run => cells_ran(before@, opt_seq(key), after@) && after.keeps_file(before),
        Action::RunAdvance => match key {
            Some(k) => ran_and_advanced(before, after, k),
            None => only_ui(before, after, u),
        },
        Action::Interrupt => after@ == interrupts(before@) && after.keeps_file(before),
        Action::Restart => after@ == restarts(before@) && after.keeps_file(before),
        Action::Cmdline => only_ui(
            before,
            after,
            doing(UiV { forward_since: Some(changes), ..u }, EffectV::Call(colon_call())),
        ),
        Action::Help => only_ui(
            before,
            after,
            doing(u, EffectV::Help { tmux: before.tmux_keys_missing }),
        ),
        // Only the header has items side by side.
        Action::Left => only_ui(before, after, u),
        Action::Right => only_ui(before, after, u),
    }
}

/// One key, or none.
pub open spec fn opt_seq(k: Option<Name>) -> Seq<Name> {
    match k {
        Some(k) => seq![k],
        None => Seq::empty(),
    }
}

/// A copy of a cell shown at `index`.
pub open spec fn pasted(before: &App, after: &App, key: Name, raw: Entries, index: int) -> bool {
    added_by(
        before,
        after,
        key,
        loaded(obj_remove(raw, "id"@)),
        ChangeV::Show { key, index },
    )
}

/// A copy of a cell shown at `index`, under some key.
pub open spec fn pasted_at(before: &App, after: &App, raw: Entries, index: int) -> bool {
    exists|key: Name| #[trigger] pasted(before, after, key, raw, index)
}

/// A cell run, and the next selected or one added.
pub open spec fn ran_and_advanced(before: &App, after: &App, k: Name) -> bool {
    exists|mid: App|
        #![trigger advanced(&mid, after, k)]
        cells_ran(before@, seq![k], mid@) && mid.keeps_file(before) && advanced(&mid, after, k)
}

proof fn lemma_ran_keeps(s: RunV, ks: Seq<Name>, error: Option<Seq<char>>, connected: bool, t: RunV)
    requires
        ran_all(s, ks, error, connected, t),
    ensures
        t.ui.focus_seq == s.ui.focus_seq,
        t.ui.layout_seq == s.ui.layout_seq,
        t.ui.selected == s.ui.selected,
        t.ui.mode == s.ui.mode,
    decreases ks.len(),
{
    if ks.len() > 0 {
        let mid = choose|mid: RunV|
            ran_all(s, ks.drop_last(), error, connected, mid) && #[trigger] ran_one(
                mid,
                ks.last(),
                error,
                connected,
                t,
            );
        lemma_ran_keeps(s, ks.drop_last(), error, connected, mid);
    }
}

proof fn lemma_cells_ran_keeps(a: AppV, ks: Seq<Name>, b: AppV)
    requires
        cells_ran(a, ks, b),
    ensures
        b.ui.focus_seq == a.ui.focus_seq,
        b.ui.layout_seq == a.ui.layout_seq,
        b.ui.selected == a.ui.selected,
        b.ui.mode == a.ui.mode,
{
    let t = choose|t: RunV| #[trigger]
        ran_all(run_part(a), ks, a.kernel_error, a.connected, t) && b == with_run(
            a,
            RunV { ui: UiV { relayout: true, draw: true, ..t.ui }, ..t },
        );
    lemma_ran_keeps(run_part(a), ks, a.kernel_error, a.connected, t);
}

impl App {
    fn run_one(&mut self, key: &CellKey)
        requires
            old(self).wf(),
        ensures
            final(self).wf(),
            final(self).keeps_file(old(self)),
            cells_ran(old(self)@, seq![key@], final(self)@),
            final(self).ui.focus_seq == old(self).ui.focus_seq,
            final(self).ui.mode@ == old(self).ui.mode@,
    {
        let ks = vec![key.clone()];
        assert(keys(ks@) =~= seq![key@]);
        self.run_cells(&ks);
        proof {
            lemma_cells_ran_keeps(old(self)@, seq![key@], self@);
        }
    }

    fn run_and_advance(&mut self, key: &CellKey)
        requires
            old(self).wf(),
            old(self).ui.focus_seq < u64::MAX,
        ensures
            final(self).wf(),
            ran_and_advanced(old(self), final(self), key@),
    {
        self.run_one(key);
        let ghost mid = *self;
        self.advance(key);
        assert(advanced(&mid, self, key@));
    }

    fn remember_cell(&mut self, key: &CellKey)
        requires
            old(self).wf(),
        ensures
            final(self).wf(),
            *final(self) == (App { register: final(self).register, ..*old(self) }),
            register_view(final(self).register) == registered(old(self), key@),
    {
        self.register = match self.nb.cell(key) {
            Some(c) => Some(c.raw.clone()),
            None => None,
        };
    }

    fn delete(&mut self, changes: u64)
        requires
            old(self).wf(),
        ensures
            final(self).wf(),
            acted(old(self), final(self), Action::Delete, changes),
    {
        proof {
            reveal(acted);
        }
        if let Some(k) = self.selected_key() {
            self.remember_cell(&k);
            self.change(Change::Hide { key: k });
        }
    }

    fn paste(&mut self, above: bool, changes: u64)
        requires
            old(self).wf(),
            old(self).ui.selected < usize::MAX,
        ensures
            final(self).wf(),
            acted(old(self), final(self), Action::Paste { above }, changes),
    {
        proof {
            reveal(acted);
        }
        let index = self.place(above);
        let ghost nb0 = self.nb;
        let key = match &self.register {
            Some(raw) => self.nb.copy_cell(raw),
            None => {
                return;
            },
        };
        let ghost raw = self.register->0@;
        let ghost cell = loaded(obj_remove(raw, "id"@));
        self.show_new(&key, index, Ghost(nb0), Ghost(cell));
        assert(pasted(old(self), self, key@, raw, index as int));
        assert(pasted_at(
            old(self),
            self,
            register_view(old(self).register)->0,
            place_for(old(self), above),
        ));
    }

    fn place(&self, above: bool) -> (r: usize)
        requires
            self.ui.selected < usize::MAX,
        ensures
            r == place_for(self, above),
    {
        let len = self.nb.order.len();
        if len == 0 || above {
            if self.ui.selected < len {
                self.ui.selected
            } else {
                len
            }
        } else {
            self.ui.selected + 1
        }
    }

    fn half_page(&self) -> (r: i64)
        ensures
            r == half_page(self.ui@),
    {
        match self.ui.geometry {
            Some(g) => (g.area_height() / 2) as i64,
            None => 10,
        }
    }

    fn move_cell(&mut self, down: bool, changes: u64)
        requires
            old(self).wf(),
            old(self).ui.selected < usize::MAX,
        ensures
            final(self).wf(),
            acted(
                old(self),
                final(self),
                if down {
                    Action::MoveDown
                } else {
                    Action::MoveUp
                },
                changes,
            ),
    {
        proof {
            reveal(acted);
        }
        let at = self.ui.selected;
        if let Some(k) = self.selected_key() {
            if down {
                if at + 1 < self.nb.order.len() {
                    self.change(Change::Move { key: k, index: at + 1 });
                }
            } else if at > 0 {
                self.change(Change::Move { key: k, index: at - 1 });
            }
        }
    }

    fn merge(&mut self, changes: u64)
        requires
            old(self).wf(),
            old(self).ui.selected < usize::MAX,
        ensures
            final(self).wf(),
            acted(old(self), final(self), Action::Merge, changes),
    {
        proof {
            reveal(acted);
        }
        let at = self.ui.selected;
        if let Some(k) = self.selected_key() {
            if at + 1 < self.nb.order.len() {
                assert(self.nb.doc().order[at + 1] == self.nb.order@[at + 1]@);
                let next = self.nb.order[at + 1].clone();
                self.change(Change::Merge { key: k, next });
            }
        }
    }

    /// Motions among the cells.
    fn go(&mut self, action: Action, changes: u64)
        requires
            old(self).wf(),
            action is Down || action is Up || action is First || action is Last,
        ensures
            final(self).wf(),
            acted(old(self), final(self), action, changes),
    {
        proof {
            reveal(acted);
        }
        let at = self.ui.selected;
        let len = self.nb.order.len();
        match action {
            Action::Down(n) => {
                let to = if n < usize::MAX - at {
                    at + n
                } else {
                    usize::MAX
                };
                self.select(to);
            },
            Action::Up(n) => {
                if at == 0 {
                    self.ui.header = Some(HeaderItem::Name);
                    self.ui.draw = true;
                } else {
                    let to = if n < at {
                        at - n
                    } else {
                        0
                    };
                    self.select(to);
                }
            },
            Action::Last(None) => self.select(
                if len > 0 {
                    len - 1
                } else {
                    0
                },
            ),
            Action::Last(Some(n)) => self.select(
                if n > 0 {
                    n - 1
                } else {
                    0
                },
            ),
            _ => self.select(0),
        }
    }

    fn half_page_scroll(&mut self, down: bool, changes: u64)
        requires
            old(self).wf(),
        ensures
            final(self).wf(),
            acted(
                old(self),
                final(self),
                if down {
                    Action::HalfPageDown
                } else {
                    Action::HalfPageUp
                },
                changes,
            ),
    {
        proof {
            reveal(acted);
        }
        let rows = self.half_page();
        self.ui.do_next(
            Effect::ScrollBy(
                if down {
                    rows
                } else {
                    -rows
                },
            ),
        );
    }

    fn edit(&mut self, changes: u64)
        requires
            old(self).wf(),
            old(self).ui.focus_seq < u64::MAX,
        ensures
            final(self).wf(),
            acted(old(self), final(self), Action::Edit, changes),
    {
        proof {
            reveal(acted);
        }
        match self.selected_key() {
            Some(k) => self.enter(&k, false),
            None => self.add_and_enter(0),
        }
    }

    fn open(&mut self, above: bool, changes: u64)
        requires
            old(self).wf(),
            old(self).ui.selected < usize::MAX,
        ensures
            final(self).wf(),
            acted(old(self), final(self), Action::Open { above }, changes),
    {
        proof {
            reveal(acted);
        }
        let index = self.place(above);
        let key = self.add(index);
        assert(opened(old(self), self, key@, place_for(old(self), above)));
        assert(opened_at(old(self), self, place_for(old(self), above)));
    }

    fn yank(&mut self, changes: u64)
        requires
            old(self).wf(),
        ensures
            final(self).wf(),
            acted(old(self), final(self), Action::Yank, changes),
    {
        proof {
            reveal(acted);
        }
        if let Some(k) = self.selected_key() {
            self.remember_cell(&k);
            self.ui.say("cell yanked".to_string());
        }
    }

    fn undo_or_redo(&mut self, redo: bool, changes: u64)
        requires
            old(self).wf(),
        ensures
            final(self).wf(),
            acted(
                old(self),
                final(self),
                if redo {
                    Action::Redo
                } else {
                    Action::Undo
                },
                changes,
            ),
    {
        proof {
            reveal(acted);
        }
        self.step(redo);
    }

    fn retype(&mut self, kind: CellKind, changes: u64)
        requires
            old(self).wf(),
        ensures
            final(self).wf(),
            acted(old(self), final(self), Action::Kind(kind), changes),
    {
        proof {
            reveal(acted);
        }
        if let Some(k) = self.selected_key() {
            self.change(Change::Kind { key: k, kind });
        }
    }

    fn run(&mut self, changes: u64)
        requires
            old(self).wf(),
        ensures
            final(self).wf(),
            acted(old(self), final(self), Action::Run, changes),
    {
        proof {
            reveal(acted);
        }
        match self.selected_key() {
            Some(k) => self.run_one(&k),
            None => {
                let none: Vec<CellKey> = Vec::new();
                assert(keys(none@) =~= Seq::empty());
                self.run_cells(&none);
            },
        }
    }

    fn run_advance(&mut self, changes: u64)
        requires
            old(self).wf(),
            old(self).ui.focus_seq < u64::MAX,
        ensures
            final(self).wf(),
            acted(old(self), final(self), Action::RunAdvance, changes),
    {
        proof {
            reveal(acted);
        }
        if let Some(k) = self.selected_key() {
            self.run_and_advance(&k);
        }
    }

    /// The kernel's keys, and those that show something.
    fn rest(&mut self, action: Action, changes: u64)
        requires
            old(self).wf(),
            old(self).generation < u64::MAX,
            action is Interrupt || action is Restart || action is Cmdline || action is Help
                || action is Left || action is Right,
        ensures
            final(self).wf(),
            acted(old(self), final(self), action, changes),
    {
        proof {
            reveal(acted);
        }
        match action {
            Action::Interrupt => self.interrupt(),
            Action::Restart => self.restart(),
            Action::Cmdline => {
                self.ui.forward_since = Some(changes);
                self.ui.do_next(Effect::Call(input(":")));
            },
            Action::Help => {
                let tmux = self.tmux_keys_missing;
                self.ui.do_next(Effect::Help { tmux });
            },
            _ => {},
        }
    }

    /// Acts on the cells. `changes` is how often Neovim has changed its mode.
    pub fn on_cell_action(&mut self, action: Action, changes: u64)
        requires
            old(self).wf(),
            old(self).counts(),
        ensures
            final(self).wf(),
            acted(old(self), final(self), action, changes),
    {
        match action {
            Action::Down(_) | Action::Up(_) | Action::First | Action::Last(_) => self.go(
                action,
                changes,
            ),
            Action::HalfPageDown => self.half_page_scroll(true, changes),
            Action::HalfPageUp => self.half_page_scroll(false, changes),
            Action::Edit => self.edit(changes),
            Action::Open { above } => self.open(above, changes),
            Action::Delete => self.delete(changes),
            Action::Yank => self.yank(changes),
            Action::Paste { above } => self.paste(above, changes),
            Action::Undo => self.undo_or_redo(false, changes),
            Action::Redo => self.undo_or_redo(true, changes),
            Action::MoveDown => self.move_cell(true, changes),
            Action::MoveUp => self.move_cell(false, changes),
            Action::Merge => self.merge(changes),
            Action::Kind(kind) => self.retype(kind, changes),
            Action::Run => self.run(changes),
            Action::RunAdvance => self.run_advance(changes),
            Action::Interrupt | Action::Restart | Action::Cmdline | Action::Help | Action::Left
            | Action::Right => self.rest(action, changes),
        }
    }
}

pub open spec fn rename_call(path: Seq<char>) -> CallV {
    lua_call("require('nbv').rename(...)"@, seq![ArgV::Text(last_part(path))])
}

/// What an action does: on the header, while something of it is selected, or on the cells.
pub open spec fn acted_on(before: &App, after: &App, action: Action, changes: u64) -> bool {
    let u = before.ui@;
    match before.ui.header {
        None => acted(before, after, action, changes),
        Some(item) => match action {
            Action::Left => only_ui(
                before,
                after,
                UiV { header: Some(HeaderItem::Name), draw: true, ..u },
            ),
            Action::Right => only_ui(
                before,
                after,
                UiV { header: Some(HeaderItem::Kernel), draw: true, ..u },
            ),
            Action::Edit => only_ui(
                before,
                after,
                match item {
                    HeaderItem::Name => doing(u, EffectV::Call(rename_call(before.nb.path@))),
                    HeaderItem::Kernel => doing(u, EffectV::FindKernels),
                },
            ),
            // The header sits above the first cell.
            Action::Down(n) => only_ui(
                before,
                after,
                selecting(u, larger(n - 1, 0), before.nb.doc().order.len() as int),
            ),
            // Selecting a cell leaves the header; the rest need no cell.
            Action::First | Action::Last(_) | Action::Help | Action::Cmdline => acted(
                before,
                after,
                action,
                changes,
            ),
            _ => only_ui(before, after, u),
        },
    }
}

/// What a key does. In a cell, or in another window, keys are Neovim's, and so are they while
/// Neovim asks for something.
pub open spec fn keyed_in(
    before: &App,
    after: &App,
    keys: Seq<char>,
    mode_name: Seq<char>,
    changes: u64,
) -> bool {
    let u = before.ui@;
    let typed = EffectV::Call(CallV { method: "nvim_input"@, args: seq![ArgV::Text(keys)] });
    if !(u.mode is Nav) {
        only_ui(before, after, doing(u, typed))
    } else {
        let busy = under_way(u, mode_name, changes);
        let v = UiV {
            forward_since: if busy {
                u.forward_since
            } else {
                None
            },
            ..u
        };
        if busy || mode_name != "normal"@ {
            only_ui(before, after, doing(v, typed))
        } else {
            let f = fed(u.nav, keys);
            let w = UiV { nav: f.0, ..v };
            match f.1 {
                Some(action) => exists|mid: App|
                    #![trigger acted_on(&mid, after, action, changes)]
                    only_ui(before, &mid, w) && acted_on(&mid, after, action, changes),
                None => only_ui(before, after, UiV { draw: true, ..w }),
            }
        }
    }
}

impl App {
    /// Acts on the header, or on the cells.
    pub fn on_action(&mut self, action: Action, changes: u64)
        requires
            old(self).wf(),
            old(self).counts(),
        ensures
            final(self).wf(),
            acted_on(old(self), final(self), action, changes),
    {
        let item = match self.ui.header {
            Some(item) => item,
            None => {
                self.on_cell_action(action, changes);
                return;
            },
        };
        match action {
            Action::Left => {
                self.ui.header = Some(HeaderItem::Name);
                self.ui.draw = true;
            },
            Action::Right => {
                self.ui.header = Some(HeaderItem::Kernel);
                self.ui.draw = true;
            },
            Action::Edit => match item {
                HeaderItem::Name => {
                    let name = file_name(self.nb.path.as_str());
                    let args = vec![Arg::Text(name)];
                    assert(args_view(args@) =~= seq![ArgV::Text(name@)]);
                    self.ui.do_next(Effect::Call(lua("require('nbv').rename(...)", args)));
                },
                HeaderItem::Kernel => self.ui.do_next(Effect::FindKernels),
            },
            Action::Down(n) => self.select(
                if n > 0 {
                    n - 1
                } else {
                    0
                },
            ),
            Action::First | Action::Last(_) | Action::Help | Action::Cmdline => {
                self.on_cell_action(action, changes);
            },
            _ => {},
        }
    }

    /// A key pressed. `mode_name` is Neovim's mode, and `changes` how often it has changed.
    pub fn on_key(&mut self, key: KeyEvent, mode_name: &str, changes: u64)
        requires
            old(self).wf(),
            old(self).counts(),
        ensures
            final(self).wf(),
            if key.release || key_text(key.code, key.modifiers) is None {
                *final(self) == *old(self)
            } else {
                keyed_in(
                    old(self),
                    final(self),
                    key_text(key.code, key.modifiers)->0,
                    mode_name@,
                    changes,
                )
            },
    {
        let typed = match encode(key) {
            Some(t) => t,
            None => {
                return;
            },
        };
        if !self.ui.mode.is_nav() || self.ui.forwarding(mode_name, changes) {
            self.ui.do_next(Effect::Call(input(typed.as_str())));
            return;
        }
        match self.ui.nav.feed(typed.as_str()) {
            Some(action) => {
                let ghost mid = *self;
                self.on_action(action, changes);
                assert(acted_on(&mid, self, action, changes));
            },
            None => {
                self.ui.draw = true;
            },
        }
    }
}

/// The code cells among the first `n` of the order.
pub open spec fn code_names(d: DocV, n: int) -> Seq<Name>
    decreases n,
{
    if n <= 0 {
        Seq::empty()
    } else if is_code(d, d.order[n - 1]) {
        code_names(d, n - 1).push(d.order[n - 1])
    } else {
        code_names(d, n - 1)
    }
}

/// The cell that a command names, if it is live, or the selected one.
pub open spec fn commanded(a: &App, args: MsgV) -> Option<Name> {
    let named = match m_get(args, "key"@) {
        Some(v) => m_str(v),
        None => None,
    };
    match named {
        Some(k) if a.nb.doc().live.dom().contains(k) => Some(k),
        _ => selected_name(a),
    }
}

impl App {
    /// The code cells above `stop`, in order.
    fn code_cells(&self, stop: usize) -> (r: Vec<CellKey>)
        requires
            stop <= self.nb.order@.len(),
        ensures
            keys(r@) == code_names(self.nb.doc(), stop as int),
    {
        let ghost d = self.nb.doc();
        let mut out: Vec<CellKey> = Vec::new();
        let mut i: usize = 0;
        assert(keys(out@) =~= code_names(d, 0));
        while i < stop
            invariant
                i <= stop <= self.nb.order@.len(),
                d == self.nb.doc(),
                keys(out@) == code_names(d, i as int),
            decreases stop - i,
        {
            let key = &self.nb.order[i];
            assert(d.order[i as int] == key@);
            let code = match self.nb.cell(key) {
                Some(c) => c.kind() == CellKind::Code,
                None => false,
            };
            if code {
                let ghost front = out@;
                out.push(key.clone());
                assert(keys(out@) =~= keys(front).push(key@));
            }
            i += 1;
        }
        out
    }

    fn command_key(&self, args: &Msg) -> (r: Option<CellKey>)
        ensures
            opt_key(r) == commanded(self, args@),
    {
        if let Some(v) = field(args, "key") {
            if let Some(s) = v.as_str() {
                let key = CellKey { text: s };
                if self.nb.is_live(&key) {
                    return Some(key);
                }
            }
        }
        self.selected_key()
    }
}

/// A cell split before a line. Where the line leaves a part empty, nothing but an unused cell
/// comes of it; else the second half is edited on.
pub open spec fn split_by(before: &App, after: &App, k: Name, line: int, new: Name) -> bool {
    let kind = match cell_at(before.nb.doc(), k) {
        Some(c) => raw_kind(c.raw),
        None => CellKind::Code,
    };
    let cell = fresh(kind, Seq::empty());
    let c = ChangeV::Split { key: k, line, fresh: new };
    let at = run(with_tomb(&before.nb, new, cell).doc, seq![c]).2;
    &&& nb_added(&before.nb, &after.nb, new, cell, c)
    &&& after@ == (AppV {
        nb: nb_view(&after.nb),
        ui: if at is Some {
            entering(
                restructured(before.ui@, at),
                new,
                false,
                place_of(after.nb.doc().order, new),
            )
        } else {
            before.ui@
        },
        ..before@
    })
    &&& after.memory.file@ == before.memory.file@
}

pub open spec fn split_at(before: &App, after: &App, k: Name, line: int) -> bool {
    exists|new: Name| #[trigger] split_by(before, after, k, line, new)
}

/// One cell's outputs cleared.
pub open spec fn output_cleared(x: ExecV, n: NbV, k: Name) -> (ExecV, NbV) {
    match cell_at(n.doc, k) {
        Some(c) => if is_bare(c) {
            (x, NbV { mutated: true, ..n })
        } else {
            (forgotten(x, k), touched(n, k, |c: CellV| wiped(c)))
        },
        None => (forgotten(x, k), NbV { mutated: true, ..n }),
    }
}

/// The outputs of cells cleared, one after another.
pub open spec fn outputs_cleared(a: AppV, ks: Seq<Name>) -> AppV
    decreases ks.len(),
{
    if ks.len() == 0 {
        a
    } else {
        let b = outputs_cleared(a, ks.drop_last());
        let r = output_cleared(b.executor, b.nb, ks.last());
        AppV {
            executor: r.0,
            nb: r.1,
            ui: doing(b.ui, EffectV::ForgetView(ks.last())),
            ..b
        }
    }
}

impl App {
    fn split(&mut self, key: &CellKey, line: usize)
        requires
            old(self).wf(),
            old(self).ui.focus_seq < u64::MAX,
        ensures
            final(self).wf(),
            split_at(old(self), final(self), key@, line as int),
    {
        let kind = match self.nb.cell(key) {
            Some(c) => c.kind(),
            None => CellKind::Code,
        };
        proof {
            reveal_strlit("");
            assert(""@ =~= Seq::empty());
        }
        let ghost nb0 = self.nb;
        let ghost cell = fresh(kind, Seq::empty());
        let new = self.nb.new_cell(kind, "");
        let ghost h = with_tomb(&nb0, new@, cell);
        assert(self.nb.history() == h) by {
            assert(groups(self.nb.undo@) =~= h.undo);
            assert(groups(self.nb.redo@) =~= h.redo);
        }
        let change = Change::Split { key: key.clone(), line, new: new.clone() };
        let ghost cv = change@;
        let group = vec![change];
        assert(changes(group@) =~= seq![cv]);
        let at = self.nb.edit(group);
        if at.is_some() {
            self.ui.structure_changed(at);
            self.enter(&new, false);
        }
        assert(split_by(old(self), self, key@, line as int, new@));
    }

    fn clear_outputs(&mut self, ks: &Vec<CellKey>)
        requires
            old(self).wf(),
        ensures
            final(self).wf(),
            final(self).keeps_file(old(self)),
            ({
                let c = outputs_cleared(old(self)@, keys(ks@));
                final(self)@ == (AppV { ui: UiV { relayout: true, ..dirtied(c.ui) }, ..c })
            }),
    {
        let ghost names = keys(ks@);
        let mut i: usize = 0;
        assert(names.take(0) =~= Seq::empty());
        while i < ks.len()
            invariant
                i <= ks@.len(),
                names == keys(ks@),
                self.wf(),
                self.keeps_file(old(self)),
                self@ == outputs_cleared(old(self)@, names.take(i as int)),
            decreases ks@.len() - i,
        {
            assert(names.take(i + 1).drop_last() =~= names.take(i as int));
            assert(names.take(i + 1).last() == ks@[i as int]@);
            self.executor.clear_outputs(&mut self.nb, &ks[i]);
            self.ui.do_next(Effect::ForgetView(ks[i].clone()));
            i += 1;
        }
        assert(names.take(i as int) =~= names);
        self.ui.mark_dirty();
        self.ui.relayout = true;
    }
}

/// A kernel picked: recorded in the notebook, if it is an installed one, and remembered.
pub open spec fn picked(before: &App, after: &App, cmd: CommandV) -> bool {
    let memory = put(before.memory@, before.nb.path@, cmd);
    let marked = if cmd.spec_name is Some {
        dirtied(before.ui@)
    } else {
        before.ui@
    };
    let u = doing(
        doing(marked, EffectV::Remember(remembered(memory))),
        EffectV::SetLanguage(Some(cmd.language)),
    );
    &&& match cmd.spec_name {
        Some(name) => kernelspec_set(
            &before.nb,
            &after.nb,
            name,
            cmd.display_name,
            cmd.language,
        ),
        None => after.nb == before.nb,
    }
    &&& after.memory.file@ == before.memory.file@
    &&& after@ == (AppV {
        nb: nb_view(&after.nb),
        ui: UiV { last_sent: None, relayout: true, ..u },
        kernel_cmd: Some(cmd),
        memory,
        ..before@
    })
}

/// A kernel picked and started.
pub open spec fn picked_and_started(before: &App, after: &App, cmd: CommandV) -> bool {
    exists|mid: App| #[trigger]
        picked(before, &mid, cmd) && after@ == restarts(mid@) && after.keeps_file(&mid)
}

pub open spec fn offered_item(c: CommandV) -> Seq<char> {
    c.display_name + match c.spec_name {
        Some(s) => " ["@ + s + "]"@,
        None => Seq::empty(),
    }
}

pub open spec fn no_kernels() -> Seq<char> {
    "no kernels found: activate a virtualenv with ipykernel, or install a kernelspec"@
}

/// The kernels found, offered in Neovim's picker.
pub open spec fn kernels_offered(a: AppV, choices: Seq<CommandV>) -> AppV {
    AppV {
        kernel_choices: choices,
        ui: if choices.len() == 0 {
            saying(a.ui, no_kernels())
        } else {
            doing(
                a.ui,
                EffectV::Call(
                    lua_call(
                        "require('nbv').pick_kernel(...)"@,
                        seq![
                            text_args(
                                Seq::new(choices.len(), |i: int| offered_item(choices[i])),
                            ),
                        ],
                    ),
                ),
            )
        },
        ..a
    }
}

/// The notebook's file has another path.
pub open spec fn renamed_to(before: &App, after: &App, name: Seq<char>, path: Seq<char>) -> bool {
    let from = before.nb.path@;
    let held = kernel_of(before.memory@, from);
    let memory = match held {
        Some(cmd) => put(taken(before.memory@, from), path, cmd),
        None => before.memory@,
    };
    let u = match held {
        Some(_) => doing(before.ui@, EffectV::Remember(remembered(memory))),
        None => before.ui@,
    };
    let v = doing(UiV { message: Some("renamed to "@ + name), ..u }, EffectV::Renamed);
    &&& after.nb.path@ == path
    &&& after.nb == (Notebook { path: after.nb.path, ..before.nb })
    &&& after.memory.file@ == before.memory.file@
    &&& after@ == (AppV {
        ui: UiV { last_sent: None, relayout: true, draw: true, ..v },
        memory,
        ..before@
    })
}

impl App {
    /// A kernel was picked.
    fn choose_kernel(&mut self, cmd: KernelCommand)
        requires
            old(self).wf(),
            sets_once(cmd@),
            old(self).generation < u64::MAX,
        ensures
            final(self).wf(),
            picked_and_started(old(self), final(self), cmd@),
    {
        let ghost cv = cmd@;
        if let Some(name) = &cmd.spec_name {
            // Saved with the notebook, as Jupyter does.
            self.nb.set_kernelspec(
                name.as_str(),
                cmd.display_name.as_str(),
                cmd.language.as_str(),
            );
            self.ui.mark_dirty();
        }
        let text = self.memory.remember(self.nb.path.as_str(), &cmd);
        self.ui.do_next(Effect::Remember(text));
        let language = cmd.language.clone();
        self.ui.do_next(Effect::SetLanguage(Some(language)));
        self.kernel_cmd = Some(cmd);
        self.ui.last_sent = None;
        self.ui.relayout = true;
        let ghost mid = *self;
        assert(picked(old(self), &mid, cv));
        self.restart();
    }

    /// The kernels that can be picked. The user's answer comes as a command.
    pub fn kernels_found(&mut self, choices: Vec<KernelCommand>)
        requires
            old(self).wf(),
            all_set_once(commands_view(choices@)),
        ensures
            final(self).wf(),
            final(self).keeps_file(old(self)),
            final(self)@ == kernels_offered(old(self)@, commands_view(choices@)),
    {
        let mut items: Vec<String> = Vec::new();
        let mut i: usize = 0;
        while i < choices.len()
            invariant
                i <= choices@.len(),
                items@.len() == i,
                forall|j: int|
                    0 <= j < i ==> (#[trigger] items@[j])@ == offered_item(choices@[j]@),
            decreases choices@.len() - i,
        {
            let c = &choices[i];
            let item = match &c.spec_name {
                Some(s) => {
                    let tail = cat3(" [", s.as_str(), "]");
                    cat(c.display_name.as_str(), tail.as_str())
                },
                None => {
                    assert(c.display_name@ + Seq::<char>::empty() =~= c.display_name@);
                    c.display_name.clone()
                },
            };
            items.push(item);
            i += 1;
        }
        let none = choices.len() == 0;
        let ghost names = Seq::new(
            choices@.len(),
            |i: int| offered_item(commands_view(choices@)[i]),
        );
        assert(texts(items@) =~= names);
        self.kernel_choices = choices;
        if none {
            self.ui.say(
                "no kernels found: activate a virtualenv with ipykernel, or install a kernelspec".to_string(),
            );
            return;
        }
        let list = vec![texts_arg(items.as_slice())];
        assert(args_view(list@) =~= seq![text_args(names)]);
        self.ui.do_next(Effect::Call(lua("require('nbv').pick_kernel(...)", list)));
    }

    /// The notebook's file was renamed to `name`, and has this path now.
    pub fn renamed(&mut self, name: &str, path: &str)
        requires
            old(self).wf(),
        ensures
            final(self).wf(),
            renamed_to(old(self), final(self), name@, path@),
    {
        let from = self.nb.path.clone();
        self.nb.path = path.to_string();
        if let Some(text) = self.memory.renamed(from.as_str(), path) {
            self.ui.do_next(Effect::Remember(text));
        }
        self.ui.message = Some(cat("renamed to ", name));
        self.ui.do_next(Effect::Renamed);
        self.ui.last_sent = None;
        self.ui.relayout = true;
        self.ui.draw = true;
    }
}

/// A number under a name; none if it is no count.
pub open spec fn count_in(args: MsgV, name: Seq<char>) -> Option<u64> {
    match m_get(args, name) {
        Some(v) => m_u64(v),
        None => None,
    }
}

pub open spec fn flag_in(args: MsgV, name: Seq<char>) -> Option<bool> {
    match m_get(args, name) {
        Some(v) => m_bool(v),
        None => None,
    }
}

pub open spec fn text_in(args: MsgV, name: Seq<char>) -> Option<Seq<char>> {
    match m_get(args, name) {
        Some(v) => m_str(v),
        None => None,
    }
}

/// A run command in a cell being edited: the cell runs, is left, and the next is selected or
/// one added.
pub open spec fn ran_left_and_advanced(before: &App, after: &App, k: Name) -> bool {
    exists|ran: App, left: App|
        #![trigger advanced(&left, after, k), cells_ran(before@, seq![k], ran@)]
        cells_ran(before@, seq![k], ran@) && ran.keeps_file(before) && only_ui(
            &ran,
            &left,
            if ran.ui.mode@ is Edit {
                leaving(ran.ui@)
            } else {
                ran.ui@
            },
        ) && advanced(&left, after, k)
}

/// What a command does.
#[verifier::opaque]
pub open spec fn commanded_to(before: &App, after: &App, name: Seq<char>, args: MsgV) -> bool {
    let u = before.ui@;
    let d = before.nb.doc();
    let key = commanded(before, args);
    if name == "run"@ {
        cells_ran(before@, opt_seq(key), after@) && after.keeps_file(before)
    } else if name == "run_advance"@ {
        match key {
            Some(k) => ran_left_and_advanced(before, after, k),
            None => only_ui(before, after, u),
        }
    } else if name == "run_all"@ {
        cells_ran(before@, code_names(d, d.order.len() as int), after@) && after.keeps_file(before)
    } else if name == "run_above"@ {
        let stop = match key {
            Some(k) => match place_of(d.order, k) {
                Some(i) => i,
                None => 0,
            },
            None => 0,
        };
        cells_ran(before@, code_names(d, stop), after@) && after.keeps_file(before)
    } else if name == "split"@ {
        match key {
            Some(k) => split_at(
                before,
                after,
                k,
                match count_in(args, "line"@) {
                    Some(n) => smaller(n as int, usize::MAX as int),
                    None => 0,
                },
            ),
            None => only_ui(before, after, u),
        }
    } else if name == "clear_output"@ {
        let ks = if flag_in(args, "all"@) == Some(true) {
            code_names(d, d.order.len() as int)
        } else {
            opt_seq(key)
        };
        let c = outputs_cleared(before@, ks);
        &&& after@ == (AppV { ui: UiV { relayout: true, ..dirtied(c.ui) }, ..c })
        &&& after.keeps_file(before)
    } else if name == "rename"@ {
        only_ui(
            before,
            after,
            match text_in(args, "name"@) {
                Some(s) => doing(u, EffectV::Rename(s)),
                None => u,
            },
        )
    } else if name == "kernel_chosen"@ {
        match count_in(args, "index"@) {
            Some(i) if 1 <= i <= before.kernel_choices@.len() => picked_and_started(
                before,
                after,
                before.kernel_choices@[i - 1]@,
            ),
            _ => only_ui(before, after, u),
        }
    } else if name == "install_ipykernel"@ {
        &&& after.keeps_file(before)
        &&& after@ == match (count_in(args, "generation"@), flag_in(args, "install"@)) {
            (Some(g), Some(yes)) => install_decided(before@, g, yes),
            _ => before@,
        }
    } else if name == "input"@ {
        let value = match text_in(args, "value"@) {
            Some(s) => s,
            None => Seq::empty(),
        };
        &&& after.keeps_file(before)
        &&& after@ == (AppV {
            asked: false,
            ui: if before.asked && before.connected {
                doing(u, EffectV::AnswerInput(value))
            } else {
                u
            },
            ..before@
        })
    } else {
        only_ui(before, after, u)
    }
}

fn count_of(args: &Msg, name: &str) -> (r: Option<u64>)
    ensures
        r == count_in(args@, name@),
{
    match field(args, name) {
        Some(v) => v.as_u64(),
        None => None,
    }
}

fn flag_of(args: &Msg, name: &str) -> (r: Option<bool>)
    ensures
        r == flag_in(args@, name@),
{
    match field(args, name) {
        Some(v) => v.as_bool(),
        None => None,
    }
}

fn text_of(args: &Msg, name: &str) -> (r: Option<String>)
    ensures
        opt_text(r) == text_in(args@, name@),
{
    match field(args, name) {
        Some(v) => v.as_str(),
        None => None,
    }
}

fn key_list(key: Option<CellKey>) -> (r: Vec<CellKey>)
    ensures
        keys(r@) == opt_seq(opt_key(key)),
{
    let mut out: Vec<CellKey> = Vec::new();
    if let Some(k) = key {
        out.push(k);
    }
    assert(keys(out@) =~= opt_seq(opt_key(key)));
    out
}

proof fn lemma_command_names()
    ensures
        "run"@.len() == 3,
        "run_advance"@.len() == 11,
        "run_all"@.len() == 7,
        "run_above"@.len() == 9,
        "split"@.len() == 5,
        "clear_output"@.len() == 12,
        "rename"@.len() == 6,
        "kernel_chosen"@.len() == 13,
        "install_ipykernel"@.len() == 17,
        "input"@.len() == 5,
        "split"@[0] == 's',
        "input"@[0] == 'i',
{
    reveal_strlit("run");
    reveal_strlit("run_advance");
    reveal_strlit("run_all");
    reveal_strlit("run_above");
    reveal_strlit("split");
    reveal_strlit("clear_output");
    reveal_strlit("rename");
    reveal_strlit("kernel_chosen");
    reveal_strlit("install_ipykernel");
    reveal_strlit("input");
}

impl App {
    fn command_run(&mut self, args: &Msg)
        requires
            old(self).wf(),
        ensures
            final(self).wf(),
            commanded_to(old(self), final(self), "run"@, args@),
    {
        proof {
            reveal(commanded_to);
            lemma_command_names();
        }
        let ks = key_list(self.command_key(args));
        self.run_cells(&ks);
    }

    fn command_run_advance(&mut self, args: &Msg)
        requires
            old(self).wf(),
            old(self).counts(),
        ensures
            final(self).wf(),
            commanded_to(old(self), final(self), "run_advance"@, args@),
    {
        proof {
            reveal(commanded_to);
            lemma_command_names();
        }
        if let Some(k) = self.command_key(args) {
            self.run_one(&k);
            let ghost ran = *self;
            if self.ui.mode.is_edit() {
                self.ui.leave();
            }
            let ghost left = *self;
            self.advance(&k);
            assert(cells_ran(old(self)@, seq![k@], ran@));
            assert(advanced(&left, self, k@));
            assert(ran_left_and_advanced(old(self), self, k@));
        }
    }

    fn command_run_all(&mut self, args: &Msg)
        requires
            old(self).wf(),
        ensures
            final(self).wf(),
            commanded_to(old(self), final(self), "run_all"@, args@),
    {
        proof {
            reveal(commanded_to);
            lemma_command_names();
        }
        let ks = self.code_cells(self.nb.order.len());
        self.run_cells(&ks);
    }

    fn command_run_above(&mut self, args: &Msg)
        requires
            old(self).wf(),
        ensures
            final(self).wf(),
            commanded_to(old(self), final(self), "run_above"@, args@),
    {
        proof {
            reveal(commanded_to);
            lemma_command_names();
        }
        let stop: usize = match self.command_key(args) {
            Some(k) => match self.nb.index_of(&k) {
                Some(i) => i,
                None => 0,
            },
            None => 0,
        };
        let ks = self.code_cells(stop);
        self.run_cells(&ks);
    }

    fn command_split(&mut self, args: &Msg)
        requires
            old(self).wf(),
            old(self).counts(),
        ensures
            final(self).wf(),
            commanded_to(old(self), final(self), "split"@, args@),
    {
        proof {
            reveal(commanded_to);
            lemma_command_names();
        }
        let line: usize = match count_of(args, "line") {
            Some(n) => if n as u128 <= usize::MAX as u128 {
                n as usize
            } else {
                usize::MAX
            },
            None => 0,
        };
        if let Some(k) = self.command_key(args) {
            self.split(&k, line);
        }
    }

    fn command_clear_output(&mut self, args: &Msg)
        requires
            old(self).wf(),
        ensures
            final(self).wf(),
            commanded_to(old(self), final(self), "clear_output"@, args@),
    {
        proof {
            reveal(commanded_to);
            lemma_command_names();
        }
        let all = match flag_of(args, "all") {
            Some(b) => b,
            None => false,
        };
        let ks = if all {
            self.code_cells(self.nb.order.len())
        } else {
            key_list(self.command_key(args))
        };
        self.clear_outputs(&ks);
    }

    fn command_rename(&mut self, args: &Msg)
        requires
            old(self).wf(),
        ensures
            final(self).wf(),
            commanded_to(old(self), final(self), "rename"@, args@),
    {
        proof {
            reveal(commanded_to);
            lemma_command_names();
        }
        if let Some(name) = text_of(args, "name") {
            self.ui.do_next(Effect::Rename(name));
        }
    }

    fn command_kernel_chosen(&mut self, args: &Msg)
        requires
            old(self).wf(),
            old(self).counts(),
        ensures
            final(self).wf(),
            commanded_to(old(self), final(self), "kernel_chosen"@, args@),
    {
        proof {
            reveal(commanded_to);
            lemma_command_names();
        }
        if let Some(i) = count_of(args, "index") {
            if 1 <= i && i as u128 <= self.kernel_choices.len() as u128 {
                assert(sets_once(commands_view(self.kernel_choices@)[i - 1]));
                let cmd = self.kernel_choices[(i - 1) as usize].clone();
                self.choose_kernel(cmd);
            }
        }
    }

    fn command_install(&mut self, args: &Msg)
        requires
            old(self).wf(),
        ensures
            final(self).wf(),
            commanded_to(old(self), final(self), "install_ipykernel"@, args@),
    {
        proof {
            reveal(commanded_to);
            lemma_command_names();
        }
        if let (Some(generation), Some(yes)) = (
            count_of(args, "generation"),
            flag_of(args, "install"),
        ) {
            self.install_answered(generation, yes);
        }
    }

    fn command_input(&mut self, args: &Msg)
        requires
            old(self).wf(),
        ensures
            final(self).wf(),
            commanded_to(old(self), final(self), "input"@, args@),
    {
        proof {
            reveal(commanded_to);
            lemma_command_names();
        }
        let value = match text_of(args, "value") {
            Some(s) => s,
            None => {
                let none = String::new();
                assert(none@ =~= Seq::empty());
                none
            },
        };
        let asked = self.asked;
        self.asked = false;
        if asked && self.connected {
            self.ui.do_next(Effect::AnswerInput(value));
        }
    }

    /// A command that the user gave in Neovim: for a cell that it names, or the selected one.
    pub fn on_command(&mut self, name: &str, args: &Msg)
        requires
            old(self).wf(),
            old(self).counts(),
        ensures
            final(self).wf(),
            commanded_to(old(self), final(self), name@, args@),
    {
        if str_eq(name, "run") {
            self.command_run(args);
        } else if str_eq(name, "run_advance") {
            self.command_run_advance(args);
        } else if str_eq(name, "run_all") {
            self.command_run_all(args);
        } else if str_eq(name, "run_above") {
            self.command_run_above(args);
        } else if str_eq(name, "split") {
            self.command_split(args);
        } else if str_eq(name, "clear_output") {
            self.command_clear_output(args);
        } else if str_eq(name, "rename") {
            self.command_rename(args);
        } else if str_eq(name, "kernel_chosen") {
            self.command_kernel_chosen(args);
        } else if str_eq(name, "install_ipykernel") {
            self.command_install(args);
        } else if str_eq(name, "input") {
            self.command_input(args);
        } else {
            proof {
                reveal(commanded_to);
            }
        }
    }
}

/// Something that Neovim or the companion says about the notebook.
#[derive(Debug)]
pub enum AppEvent {
    /// The grid is consistent and should be drawn.
    Flush,
    /// Startup has finished.
    Ready,
    /// A cell's source changed.
    SourceChanged,
    /// Neovim measured the rows of cells anew.
    Rows,
    /// The notebook was read from disk again.
    Reloaded,
    /// The notebook was written.
    Written,
    /// The focus moved, by a change with this number.
    Focus { seq: u64, focus: Focus },
    /// Layout `seq` is on screen, or failed.
    LayoutDone { seq: u64, error: Option<String> },
    /// The part of the screen for the notebook.
    Viewport(Geometry),
    /// The colours changed.
    Theme,
    /// A command or keymap that the user invoked.
    Command { action: String, args: Msg },
    Exited,
}

/// What an event does.
#[verifier::opaque]
pub open spec fn evented(before: &App, after: &App, ev: AppEvent) -> bool {
    let u = before.ui@;
    match ev {
        AppEvent::Flush => only_ui(before, after, UiV { draw: true, ..u }),
        AppEvent::Ready => {
            let o = install_offered(AppV { nvim_ready: true, ..before@ });
            &&& after@ == (AppV { ui: UiV { relayout: true, ..o.ui }, ..o })
            &&& after.keeps_file(before)
        },
        // A cell's line count may have changed, and its staleness.
        AppEvent::SourceChanged => only_ui(
            before,
            after,
            UiV { relayout: true, draw: true, ..dirtied(u) },
        ),
        AppEvent::Rows => only_ui(before, after, UiV { relayout: true, ..u }),
        AppEvent::Reloaded => only_ui(
            before,
            after,
            UiV {
                mode: ModeV::Nav,
                dirty: false,
                last_sent: None,
                relayout: true,
                ..doing(u, EffectV::ForgetViews)
            },
        ),
        AppEvent::Written => only_ui(before, after, UiV { dirty: false, draw: true, ..u }),
        AppEvent::Focus { seq, focus } => only_ui(
            before,
            after,
            focused(
                u,
                seq as int,
                mode_of(focus),
                match mode_of(focus) {
                    ModeV::Edit(k) => place_of(before.nb.doc().order, k),
                    _ => None,
                },
            ),
        ),
        AppEvent::LayoutDone { seq, error } => {
            let drawn = drawn_layouts(u.sent, u.shown, seq);
            only_ui(
                before,
                after,
                UiV {
                    sent: drawn.0,
                    shown: drawn.1,
                    message: match opt_text(error) {
                        Some(e) => Some("layout: "@ + e),
                        None => u.message,
                    },
                    draw: true,
                    ..u
                },
            )
        },
        AppEvent::Viewport(g) => only_ui(
            before,
            after,
            if u.geometry == Some(g) {
                u
            } else {
                UiV { geometry: Some(g), relayout: true, ..u }
            },
        ),
        AppEvent::Theme => only_ui(before, after, UiV { draw: true, ..u }),
        AppEvent::Command { action, args } => commanded_to(before, after, action@, args@),
        AppEvent::Exited => only_ui(before, after, UiV { quit: true, ..u }),
    }
}

impl App {
    fn on_ready(&mut self)
        requires
            old(self).wf(),
        ensures
            final(self).wf(),
            evented(old(self), final(self), AppEvent::Ready),
    {
        proof {
            reveal(evented);
        }
        self.nvim_ready = true;
        self.offer_install();
        self.ui.relayout = true;
    }

    fn on_source_changed(&mut self)
        requires
            old(self).wf(),
        ensures
            final(self).wf(),
            evented(old(self), final(self), AppEvent::SourceChanged),
    {
        proof {
            reveal(evented);
        }
        // So that `:x` in the notebook's window writes it, as for any changed buffer.
        self.ui.mark_dirty();
        self.ui.relayout = true;
        self.ui.draw = true;
    }

    fn on_reloaded(&mut self)
        requires
            old(self).wf(),
        ensures
            final(self).wf(),
            evented(old(self), final(self), AppEvent::Reloaded),
    {
        proof {
            reveal(evented);
        }
        self.ui.do_next(Effect::ForgetViews);
        self.ui.mode = Mode::Nav;
        self.ui.dirty = false;
        self.ui.last_sent = None;
        self.ui.relayout = true;
    }

    fn on_written(&mut self)
        requires
            old(self).wf(),
        ensures
            final(self).wf(),
            evented(old(self), final(self), AppEvent::Written),
    {
        proof {
            reveal(evented);
        }
        self.ui.dirty = false;
        self.ui.draw = true;
    }

    fn on_focus_moved(&mut self, seq: u64, focus: Focus)
        requires
            old(self).wf(),
        ensures
            final(self).wf(),
            evented(old(self), final(self), (AppEvent::Focus { seq, focus })),
    {
        proof {
            reveal(evented);
        }
        let at = match &focus {
            Focus::Cell(k) => self.nb.index_of(k),
            _ => None,
        };
        self.ui.focus_changed(seq, focus, at);
    }

    fn on_layout_done(&mut self, seq: u64, error: Option<String>)
        requires
            old(self).wf(),
        ensures
            final(self).wf(),
            evented(old(self), final(self), (AppEvent::LayoutDone { seq, error })),
    {
        proof {
            reveal(evented);
        }
        match &error {
            Some(e) => self.ui.layout_done(seq, Some(e.as_str())),
            None => self.ui.layout_done(seq, None),
        }
    }

    fn on_viewport(&mut self, g: Geometry)
        requires
            old(self).wf(),
            g.wf(),
        ensures
            final(self).wf(),
            evented(old(self), final(self), AppEvent::Viewport(g)),
    {
        proof {
            reveal(evented);
        }
        self.ui.viewport_changed(g);
    }

    /// Reacts to an event.
    pub fn on_event(&mut self, ev: AppEvent)
        requires
            old(self).wf(),
            old(self).counts(),
            ev matches AppEvent::Viewport(g) ==> g.wf(),
        ensures
            final(self).wf(),
            evented(old(self), final(self), ev),
    {
        match ev {
            AppEvent::Flush | AppEvent::Theme => {
                proof {
                    reveal(evented);
                }
                self.ui.draw = true;
            },
            AppEvent::Ready => self.on_ready(),
            AppEvent::SourceChanged => self.on_source_changed(),
            AppEvent::Rows => {
                proof {
                    reveal(evented);
                }
                self.ui.relayout = true;
            },
            AppEvent::Reloaded => self.on_reloaded(),
            AppEvent::Written => self.on_written(),
            AppEvent::Focus { seq, focus } => self.on_focus_moved(seq, focus),
            AppEvent::LayoutDone { seq, error } => self.on_layout_done(seq, error),
            AppEvent::Viewport(g) => self.on_viewport(g),
            AppEvent::Command { action, args } => {
                proof {
                    reveal(evented);
                }
                self.on_command(action.as_str(), &args);
            },
            AppEvent::Exited => {
                proof {
                    reveal(evented);
                }
                self.ui.quit = true;
            },
        }
    }

    /// The session of a notebook, with the kernel found for it, or why none was.
    pub fn new(
        nb: Notebook,
        kernel: Result<KernelCommand, KernelError>,
        memory: KernelMemory,
        tmux_keys_missing: bool,
    ) -> (r: App)
        requires
            nb.wf(),
            memory.wf(),
        ensures
            r.wf(),
            r.nb == nb,
            r.memory == memory,
            r@ == (AppV {
                nb: nb_view(&nb),
                executor: exec_start(),
                ui: ui_start(),
                connected: false,
                kernel_cmd: match kernel {
                    Ok(cmd) => Some(cmd@),
                    Err(_) => None,
                },
                kernel_error: match kernel {
                    Ok(_) => None,
                    Err(e) => Some(e.shown() + " ("@ + PICK_KERNEL@ + ")"@),
                },
                kernel_choices: Seq::empty(),
                install: None,
                nvim_ready: false,
                generation: 0,
                pending: Seq::empty(),
                asked: false,
                tmux_keys_missing,
                memory: memory@,
                register: None,
            }),
    {
        let (kernel_cmd, kernel_error) = match kernel {
            Ok(cmd) => (Some(cmd), None),
            Err(e) => {
                let a = cat3(e.message().as_str(), " (", PICK_KERNEL);
                (None, Some(cat(a.as_str(), ")")))
            },
        };
        let r = App {
            nb,
            executor: Executor::default(),
            ui: Ui::new(),
            connected: false,
            kernel_cmd,
            kernel_error,
            kernel_choices: Vec::new(),
            install: None,
            nvim_ready: false,
            generation: 0,
            pending: Vec::new(),
            asked: false,
            tmux_keys_missing,
            memory,
            register: None,
        };
        assert(r@.kernel_choices =~= Seq::empty());
        assert(r@.pending =~= Seq::empty());
        r
    }
}

/// The rows of a cell: those that Neovim measured, or one for each line.
pub open spec fn rows_or_lines(rows: Option<usize>, c: CellV) -> int {
    match rows {
        Some(n) => n as int,
        None => lines_of(source_of(c)).len() as int,
    }
}

/// A cell to lay out. Only code cells show outputs.
pub open spec fn laid_item(d: DocV, i: int, rows: Option<usize>, outputs: usize, item: Item) -> bool {
    let c = d.live[d.order[i]];
    &&& item.key@ == d.order[i]
    &&& item.kind == raw_kind(c.raw)
    &&& item.lines == rows_or_lines(rows, c)
    &&& item.outputs == (if raw_kind(c.raw) == CellKind::Code {
        outputs
    } else {
        0
    })
}

impl App {
    /// The cells to lay out. `rows` are the rows that Neovim measured in each cell's window, and
    /// `outputs` the rows of its outputs, in the order of the cells.
    pub fn items(&self, rows: &Vec<Option<usize>>, outputs: &Vec<usize>) -> (r: Vec<Item>)
        requires
            self.wf(),
            rows@.len() == self.nb.order@.len(),
            outputs@.len() == self.nb.order@.len(),
        ensures
            r@.len() == self.nb.order@.len(),
            forall|i: int|
                0 <= i < r@.len() ==> laid_item(
                    self.nb.doc(),
                    i,
                    rows@[i],
                    outputs@[i],
                    #[trigger] r@[i],
                ),
    {
        let ghost d = self.nb.doc();
        let mut out: Vec<Item> = Vec::new();
        let mut i: usize = 0;
        while i < self.nb.order.len()
            invariant
                self.wf(),
                i <= self.nb.order@.len(),
                d == self.nb.doc(),
                rows@.len() == self.nb.order@.len(),
                outputs@.len() == self.nb.order@.len(),
                out@.len() == i,
                forall|j: int|
                    0 <= j < i ==> laid_item(d, j, rows@[j], outputs@[j], #[trigger] out@[j]),
            decreases self.nb.order@.len() - i,
        {
            let key = &self.nb.order[i];
            assert(d.order[i as int] == key@);
            assert(d.order.contains(key@));
            if let Some(cell) = self.nb.live.get(key) {
                let kind = cell.kind();
                let lines = match rows[i] {
                    Some(n) => n,
                    None => split_chars(&chars_of(cell.source().as_str()), '\n').len(),
                };
                let shown = if kind == CellKind::Code {
                    outputs[i]
                } else {
                    0
                };
                out.push(Item { key: key.clone(), kind, lines, outputs: shown });
            }
            i += 1;
        }
        out
    }

    /// The cells whose outputs are in view.
    pub fn visible_outputs(&self) -> (r: Vec<CellKey>)
        requires
            self.wf(),
        ensures
            keys(r@) == match (self.ui.geometry, self.ui.shown) {
                (Some(g), Some((l, scroll))) => outputs_in_view(
                    l,
                    scroll as int,
                    g.rows(),
                    l.blocks@.len() as int,
                ),
                _ => Seq::empty(),
            },
    {
        let mut out: Vec<CellKey> = Vec::new();
        assert(keys(out@) =~= Seq::empty());
        if let (Some(g), Some(s)) = (self.ui.geometry, &self.ui.shown) {
            let layout = &s.0;
            let scroll = s.1;
            let area = g.area_height();
            let mut i: usize = 0;
            while i < layout.blocks.len()
                invariant
                    i <= layout.blocks@.len(),
                    layout.wf(),
                    area == g.rows(),
                    keys(out@) == outputs_in_view(*layout, scroll as int, area as int, i as int),
                decreases layout.blocks@.len() - i,
            {
                proof {
                    layout.lemma_block(i as int);
                }
                let b = &layout.blocks[i];
                if b.outputs > 0 && b.top + b.height() > scroll && (b.top < scroll || b.top - scroll
                    < area) {
                    let ghost front = out@;
                    out.push(b.key.clone());
                    assert(keys(out@) =~= keys(front).push(b.key@));
                }
                i += 1;
            }
        }
        out
    }

    /// Whether the cursor is shown: not in navigation mode, unless Neovim asks for something.
    pub fn shows_cursor(&self, busy: bool, mode_name: &str) -> (r: bool)
        ensures
            r == (!busy && (!(self.ui.mode@ is Nav) || mode_name@ != "normal"@)),
    {
        !busy && (!self.ui.mode.is_nav() || !str_eq(mode_name, "normal"))
    }
}

/// The cells among the first `n` blocks whose outputs are in view.
pub open spec fn outputs_in_view(l: Layout, scroll: int, area: int, n: int) -> Seq<Name>
    decreases n,
{
    if n <= 0 {
        Seq::empty()
    } else {
        let b = l.blocks@[n - 1];
        let front = outputs_in_view(l, scroll, area, n - 1);
        if b.outputs > 0 && b.top + b.rows() > scroll && b.top < scroll + area {
            front.push(b.key@)
        } else {
            front
        }
    }
}

/// `gg` and `G` stay on cells, also from the header.
pub proof fn jumps_stay_on_cells(before: &App, after: &App, action: Action, changes: u64)
    requires
        action is First || action is Last,
        acted_on(before, after, action, changes),
    ensures
        after.ui.header is None,
        before.nb.doc().order.len() > 0 ==> 0 <= after.ui.selected < after.nb.doc().order.len(),
{
    reveal(acted);
    assert(after@.ui.header is None);
    assert(after@.ui.selected == after.ui.selected);
    assert(after@.nb.doc == before@.nb.doc);
}

/// The header stands above the first cell: a step up from there selects it, and a step down
/// goes back.
pub proof fn header_stands_above_the_cells(before: &App, mid: &App, after: &App, n: usize, changes: u64)
    requires
        before.ui.header is None,
        before.ui.selected == 0,
        acted_on(before, mid, Action::Up(n), changes),
        acted_on(mid, after, Action::Down(1), changes),
    ensures
        mid.ui.header == Some(HeaderItem::Name),
        after.ui.header is None,
        after.ui.selected == 0,
{
    reveal(acted);
    assert(mid@.ui.header == Some(HeaderItem::Name));
    assert(after@.ui.header is None);
    assert(after@.ui.selected == 0);
}

/// Running a cell counts as a change, of the notebook and of its buffer.
pub proof fn running_counts_as_a_change(s: RunV, k: Name, connected: bool, t: RunV, u: UiV)
    requires
        runnable(s.nb.doc, k),
        ran_one(s, k, None, connected, t),
    ensures
        t.nb.mutated,
        heard(u, EventV::Cell(k)).dirty,
{
}

/// When a code cell cannot run, the reason stands in red under whatever the cell shows.
pub proof fn failure_is_shown(
    s: RunV,
    k: Name,
    reason: Seq<char>,
    connected: bool,
    t: RunV,
    sizes: Seq<(u16, u16)>,
    width: int,
)
    requires
        is_code(s.nb.doc, k),
        ran_one(s, k, Some(reason), connected, t),
    ensures
        cell_at(t.nb.doc, k) is Some,
        ({
            let c = cell_at(t.nb.doc, k)->0;
            shown_blocks(raw_outputs(c.raw), c.runtime.error, sizes, width).last()
                == BlockV::Text(wrapped(text_rows(reason, fg_style(Color::LightRed)), width))
        }),
{
}

/// After the last cell has run, there is a new one below it, and it is being edited.
pub proof fn running_past_the_end_adds_a_cell(before: &App, after: &App, k: Name)
    requires
        before.nb.wf(),
        before.nb.doc().order.len() > 0,
        before.nb.doc().order.last() == k,
        advanced(before, after, k),
    ensures
        after.ui@.mode is Edit,
        after.nb.doc().order == before.nb.doc().order.push(after.ui@.mode->Edit_0),
        !before.nb.doc().order.contains(after.ui@.mode->Edit_0),
{
    let order = before.nb.doc().order;
    let n = order.len() as int;
    crate::history::lemma_pos(order, k);
    assert(order[pos(order, k)] == order[n - 1]);
    let (mid, key) = choose|mid: App, key: Name|
        #![trigger opened(before, &mid, key, n)]
        opened(before, &mid, key, n) && only_ui(
            &mid,
            after,
            entering(mid.ui@, key, true, place_of(mid.nb.doc().order, key)),
        );
    let h = with_tomb(&before.nb, key, fresh(CellKind::Code, Seq::empty()));
    let g = seq![ChangeV::Show { key, index: n }];
    assert(g.drop_last() =~= Seq::empty());
    assert(run(h.doc, g.drop_last()) == (h.doc, Seq::<ChangeV>::empty(), None::<int>));
    assert(order.insert(n, key) =~= order.push(key));
    assert(mid.nb.doc() == mid.nb.history().doc);
    assert(after@.nb.doc == mid@.nb.doc);
    assert(after.ui@.mode == ModeV::Edit(key));
    if order.contains(key) {
        assert(before.nb.doc().live.dom().contains(key));
        assert(cell_at(before.nb.doc(), key) is Some);
    }
}

} // verus!
