//! Starting a browser with a DevTools port, as a sequence of decisions.
//!
//! The desktop shell asks whether the port already answers, which browser
//! executables exist, starts one, and polls the port. Each answer is an
//! event; `DebugLaunch::step` turns it into the next thing to do, until the
//! launch finishes with the browser's name or an error message.

use crate::text::{chars_of, push_all, push_str, string_of};
use vstd::prelude::*;

verus! {

/// The DevTools port a debug launch opens.
pub const DEBUG_PORT: i32 = 9222;

/// How many times the port is polled (every half second) after a start.
pub const PORT_POLLS: u32 = 8;

/// A browser executable that may be started.
#[derive(Debug, Clone)]
pub struct Candidate {
    pub path: String,
    pub name: String,
}

/// Per-user Chrome install below `%LOCALAPPDATA%`.
pub open spec fn user_chrome_path(local_app_data: Seq<char>) -> Seq<char> {
    local_app_data + "\\Google\\Chrome\\Application\\chrome.exe"@
}

/// The browsers tried, in order, as (path, name): Edge's two install
/// locations, then Chrome machine-wide (two) and, when `%LOCALAPPDATA%` is
/// known, per user.
pub open spec fn candidates_of(local_app_data: Option<Seq<char>>) -> Seq<(Seq<char>, Seq<char>)> {
    let fixed = seq![
        ("C:\\Program Files (x86)\\Microsoft\\Edge\\Application\\msedge.exe"@, "Microsoft Edge"@),
        ("C:\\Program Files\\Microsoft\\Edge\\Application\\msedge.exe"@, "Microsoft Edge"@),
        ("C:\\Program Files\\Google\\Chrome\\Application\\chrome.exe"@, "Google Chrome"@),
        ("C:\\Program Files (x86)\\Google\\Chrome\\Application\\chrome.exe"@, "Google Chrome"@),
    ];
    match local_app_data {
        Some(d) => fixed.push((user_chrome_path(d), "Google Chrome"@)),
        None => fixed,
    }
}

/// The (path, name) views of a candidate list.
pub open spec fn candidates_view(c: Seq<Candidate>) -> Seq<(Seq<char>, Seq<char>)> {
    c.map_values(|x: Candidate| (x.path@, x.name@))
}

fn candidate(path: &str, name: &str) -> (r: Candidate)
    ensures
        r.path@ == path@,
        r.name@ == name@,
{
    Candidate { path: string_of(&chars_of(path)), name: string_of(&chars_of(name)) }
}

/// The browsers a debug launch tries, in order.
pub fn launch_candidates(local_app_data: Option<&str>) -> (r: Vec<Candidate>)
    ensures
        candidates_view(r@) == candidates_of(
            match local_app_data {
                Some(d) => Some(d@),
                None => None,
            },
        ),
{
    let mut r: Vec<Candidate> = Vec::new();
    r.push(
        candidate("C:\\Program Files (x86)\\Microsoft\\Edge\\Application\\msedge.exe", "Microsoft Edge"),
    );
    r.push(candidate("C:\\Program Files\\Microsoft\\Edge\\Application\\msedge.exe", "Microsoft Edge"));
    r.push(candidate("C:\\Program Files\\Google\\Chrome\\Application\\chrome.exe", "Google Chrome"));
    r.push(
        candidate("C:\\Program Files (x86)\\Google\\Chrome\\Application\\chrome.exe", "Google Chrome"),
    );
    match local_app_data {
        Some(d) => {
            let mut p: Vec<char> = Vec::new();
            push_str(&mut p, d);
            push_str(&mut p, "\\Google\\Chrome\\Application\\chrome.exe");
            r.push(Candidate { path: string_of(&p), name: string_of(&chars_of("Google Chrome")) });
        },
        None => {},
    }
    proof {
        let d = match local_app_data {
            Some(d) => Some(d@),
            None => None,
        };
        assert(candidates_view(r@) =~= candidates_of(d));
    }
    r
}

/// Command-line arguments of a debug launch: the DevTools port, and the
/// dedicated profile directory when there is one.
pub open spec fn launch_args_of(user_data_dir: Option<Seq<char>>) -> Seq<Seq<char>> {
    let port = "--remote-debugging-port=9222"@;
    match user_data_dir {
        Some(d) => seq![port, "--user-data-dir="@ + d],
        None => seq![port],
    }
}

/// The arguments a candidate is started with.
pub fn launch_args(user_data_dir: Option<&str>) -> (r: Vec<String>)
    ensures
        crate::platform::strings_view(r@) == launch_args_of(
            match user_data_dir {
                Some(d) => Some(d@),
                None => None,
            },
        ),
{
    let mut r: Vec<String> = Vec::new();
    r.push(string_of(&chars_of("--remote-debugging-port=9222")));
    match user_data_dir {
        Some(d) => {
            let mut a: Vec<char> = Vec::new();
            push_str(&mut a, "--user-data-dir=");
            push_str(&mut a, d);
            r.push(string_of(&a));
        },
        None => {},
    }
    proof {
        let d = match user_data_dir {
            Some(d) => Some(d@),
            None => None,
        };
        assert(crate::platform::strings_view(r@) =~= launch_args_of(d));
    }
    r
}

/// The answer when the port already answers before anything is started.
pub open spec fn already_open_text() -> Seq<char> {
    "调试模式已开启"@
}

/// The error when no started browser opened the port (`last` is the last
/// browser started, empty when none existed).
pub open spec fn failure_text(isolated: bool, last: Seq<char>) -> Seq<char> {
    if last.len() == 0 {
        "未找到 Edge 或 Chrome，请手动启动浏览器并添加 --remote-debugging-port=9222 参数"@
    } else if isolated {
        "已启动 "@ + last + " 但调试端口未开启：浏览器可能已在运行，请完全退出浏览器后重试"@
    } else {
        "已启动 "@ + last + (" 但调试端口未开启。可能原因：① 浏览器已在运行（请完全退出后重试）；"@
            + "② Chrome/Edge 136+ 出于安全考虑禁止在默认配置文件上开启调试端口。"@
            + "推荐改用 TabFlow 浏览器扩展（概览页「扩展未连接 · 配对」），无需调试模式即可实时管理标签页"@)
    }
}

/// The error when a browser could not be started.
pub open spec fn spawn_failure_text(name: Seq<char>, error: Seq<char>) -> Seq<char> {
    "Failed to launch "@ + name + ": "@ + error
}

/// The error message when no started browser opened the port.
pub fn launch_failure(isolated: bool, last: &str) -> (r: String)
    ensures
        r@ == failure_text(isolated, last@),
{
    let l = chars_of(last);
    let mut out: Vec<char> = Vec::new();
    if l.len() == 0 {
        push_str(&mut out, "未找到 Edge 或 Chrome，请手动启动浏览器并添加 --remote-debugging-port=9222 参数");
    } else if isolated {
        push_str(&mut out, "已启动 ");
        push_all(&mut out, &l);
        push_str(&mut out, " 但调试端口未开启：浏览器可能已在运行，请完全退出浏览器后重试");
    } else {
        push_str(&mut out, "已启动 ");
        push_all(&mut out, &l);
        push_str(&mut out, " 但调试端口未开启。可能原因：① 浏览器已在运行（请完全退出后重试）；");
        push_str(&mut out, "② Chrome/Edge 136+ 出于安全考虑禁止在默认配置文件上开启调试端口。");
        push_str(
            &mut out,
            "推荐改用 TabFlow 浏览器扩展（概览页「扩展未连接 · 配对」），无需调试模式即可实时管理标签页",
        );
        assert(out@ =~= failure_text(isolated, last@));
    }
    string_of(&out)
}

// ─── The launch as a state machine ──────────────────────────

/// Where a launch stands.
#[derive(Debug, PartialEq)]
pub enum LaunchPhase {
    /// Waiting to hear whether the port already answers.
    Probing,
    /// Waiting to hear whether candidate `index` exists.
    Checking { index: usize },
    /// Waiting for candidate `index` to be started.
    Spawning { index: usize },
    /// Candidate `index` was started; `polls` port polls have failed.
    Waiting { index: usize, polls: u32 },
    /// Finished.
    Done { outcome: Result<String, String> },
}

/// What the shell reports.
#[derive(Debug, PartialEq)]
pub enum LaunchEvent {
    /// Whether the DevTools port answered.
    PortOpen { open: bool },
    /// Whether the candidate's executable exists.
    Exists { exists: bool },
    /// Starting the candidate failed with this error text.
    SpawnFailed { error: String },
    /// The candidate was started.
    Spawned,
}

/// What the shell does next.
#[derive(Debug, PartialEq)]
pub enum LaunchAction {
    /// Ask whether the DevTools port answers.
    CheckPort,
    /// Ask whether candidate `index` exists.
    CheckExists { index: usize },
    /// Start candidate `index` with the launch arguments.
    Spawn { index: usize },
    /// Wait half a second, then ask whether the port answers.
    WaitAndPoll,
    /// Report this result.
    Finish { outcome: Result<String, String> },
}

/// A debug launch: whether it uses a dedicated profile, the names of the
/// candidates in order, where it stands, and the last browser started.
#[derive(Debug)]
pub struct DebugLaunch {
    pub isolated: bool,
    pub names: Vec<String>,
    pub phase: LaunchPhase,
    pub last_browser: String,
}

/// `r` is a result with the given kind and text.
pub open spec fn outcome_is(r: Result<String, String>, ok: bool, text: Seq<char>) -> bool {
    match r {
        Ok(s) => ok && s@ == text,
        Err(e) => !ok && e@ == text,
    }
}

/// `t` has finished with the given result, and `a` reports it.
pub open spec fn finished(t: DebugLaunch, a: LaunchAction, ok: bool, text: Seq<char>) -> bool {
    &&& t.phase matches LaunchPhase::Done { outcome } && outcome_is(outcome, ok, text)
    &&& a matches LaunchAction::Finish { outcome } && outcome_is(outcome, ok, text)
}

/// `t` moves on to candidate `i`: checks it when there is one, otherwise
/// finishes with the failure message.
pub open spec fn moved_to(s: DebugLaunch, t: DebugLaunch, a: LaunchAction, i: int) -> bool {
    if i < s.names@.len() {
        t.phase == LaunchPhase::Checking { index: i as usize } && a == LaunchAction::CheckExists {
            index: i as usize,
        }
    } else {
        finished(t, a, false, failure_text(s.isolated, s.last_browser@))
    }
}

/// The action a launch waits on in its phase.
pub open spec fn pending(s: DebugLaunch, a: LaunchAction) -> bool {
    match s.phase {
        LaunchPhase::Probing => a == LaunchAction::CheckPort,
        LaunchPhase::Checking { index } => a == LaunchAction::CheckExists { index },
        LaunchPhase::Spawning { index } => a == LaunchAction::Spawn { index },
        LaunchPhase::Waiting { .. } => a == LaunchAction::WaitAndPoll,
        LaunchPhase::Done { outcome } => a matches LaunchAction::Finish { outcome: o } && o
            == outcome,
    }
}

/// One step of a launch: `s` hears `ev`, becomes `t` and asks for `a`. The
/// port answering first finishes at once; otherwise every existing candidate
/// in turn is started and the port polled up to `PORT_POLLS` times; a
/// failed start ends the launch with its error; when the candidates run out
/// the launch fails. An event the phase does not wait for changes nothing
/// and the pending action is asked again.
pub open spec fn launch_step(s: DebugLaunch, ev: LaunchEvent, t: DebugLaunch, a: LaunchAction) -> bool {
    &&& t.isolated == s.isolated
    &&& t.names@ == s.names@
    &&& match s.phase {
        LaunchPhase::Probing => match ev {
            LaunchEvent::PortOpen { open } => t.last_browser@ == s.last_browser@ && if open {
                finished(t, a, true, already_open_text())
            } else {
                moved_to(s, t, a, 0)
            },
            _ => t.phase == s.phase && t.last_browser@ == s.last_browser@ && pending(s, a),
        },
        LaunchPhase::Checking { index } => match ev {
            LaunchEvent::Exists { exists } => if exists {
                t.last_browser@ == s.names@[index as int]@ && t.phase == LaunchPhase::Spawning {
                    index,
                } && a == LaunchAction::Spawn { index }
            } else {
                t.last_browser@ == s.last_browser@ && moved_to(s, t, a, index + 1)
            },
            _ => t.phase == s.phase && t.last_browser@ == s.last_browser@ && pending(s, a),
        },
        LaunchPhase::Spawning { index } => t.last_browser@ == s.last_browser@ && match ev {
            LaunchEvent::SpawnFailed { error } => finished(
                t,
                a,
                false,
                spawn_failure_text(s.names@[index as int]@, error@),
            ),
            LaunchEvent::Spawned => t.phase == LaunchPhase::Waiting { index, polls: 0 } && a
                == LaunchAction::WaitAndPoll,
            _ => t.phase == s.phase && pending(s, a),
        },
        LaunchPhase::Waiting { index, polls } => t.last_browser@ == s.last_browser@ && match ev {
            LaunchEvent::PortOpen { open } => if open {
                finished(t, a, true, s.names@[index as int]@)
            } else if polls + 1 < PORT_POLLS {
                t.phase == LaunchPhase::Waiting { index, polls: (polls + 1) as u32 } && a
                    == LaunchAction::WaitAndPoll
            } else {
                moved_to(s, t, a, index + 1)
            },
            _ => t.phase == s.phase && pending(s, a),
        },
        LaunchPhase::Done { .. } => t.phase == s.phase && t.last_browser@ == s.last_browser@
            && pending(s, a),
    }
}

impl DebugLaunch {
    /// Indices name candidates, and polls stay below the limit.
    pub open spec fn wf(&self) -> bool {
        match self.phase {
            LaunchPhase::Checking { index } => index < self.names@.len(),
            LaunchPhase::Spawning { index } => index < self.names@.len(),
            LaunchPhase::Waiting { index, polls } => index < self.names@.len() && polls
                < PORT_POLLS,
            _ => true,
        }
    }

    /// A launch over the candidates' names, which first asks about the port.
    pub fn start(isolated: bool, names: Vec<String>) -> (r: (Self, LaunchAction))
        ensures
            r.0.wf(),
            r.0.isolated == isolated,
            r.0.names@ == names@,
            r.0.phase == LaunchPhase::Probing,
            r.0.last_browser@.len() == 0,
            r.1 == LaunchAction::CheckPort,
    {
        (
            DebugLaunch { isolated, names, phase: LaunchPhase::Probing, last_browser: String::new() },
            LaunchAction::CheckPort,
        )
    }

    fn finish(&mut self, ok: bool, text: String) -> (a: LaunchAction)
        ensures
            final(self).isolated == old(self).isolated,
            final(self).names@ == old(self).names@,
            final(self).last_browser == old(self).last_browser,
            final(self).wf(),
            finished(*final(self), a, ok, text@),
    {
        let (kept, reported) = if ok {
            (Ok(text.clone()), Ok(text))
        } else {
            (Err(text.clone()), Err(text))
        };
        self.phase = LaunchPhase::Done { outcome: kept };
        LaunchAction::Finish { outcome: reported }
    }

    fn move_to(&mut self, i: usize) -> (a: LaunchAction)
        ensures
            final(self).isolated == old(self).isolated,
            final(self).names@ == old(self).names@,
            final(self).last_browser == old(self).last_browser,
            final(self).wf(),
            moved_to(*old(self), *final(self), a, i as int),
    {
        if i < self.names.len() {
            self.phase = LaunchPhase::Checking { index: i };
            LaunchAction::CheckExists { index: i }
        } else {
            let msg = launch_failure(self.isolated, self.last_browser.as_str());
            self.finish(false, msg)
        }
    }

    fn pending_action(&self) -> (a: LaunchAction)
        ensures
            pending(*self, a),
    {
        match &self.phase {
            LaunchPhase::Probing => LaunchAction::CheckPort,
            LaunchPhase::Checking { index } => LaunchAction::CheckExists { index: *index },
            LaunchPhase::Spawning { index } => LaunchAction::Spawn { index: *index },
            LaunchPhase::Waiting { .. } => LaunchAction::WaitAndPoll,
            LaunchPhase::Done { outcome } => LaunchAction::Finish {
                outcome: match outcome {
                    Ok(s) => Ok(s.clone()),
                    Err(e) => Err(e.clone()),
                },
            },
        }
    }

    /// Hear one event and say what to do next.
    pub fn step(&mut self, ev: LaunchEvent) -> (a: LaunchAction)
        requires
            old(self).wf(),
        ensures
            final(self).wf(),
            launch_step(*old(self), ev, *final(self), a),
    {
        let ghost s = *self;
        // The candidate count is a `usize`, so the index after any
        // candidate is one too.
        let count = self.names.len();
        assert(count == s.names@.len());
        match self.phase {
            LaunchPhase::Probing => match ev {
                LaunchEvent::PortOpen { open } => {
                    if open {
                        self.finish(true, string_of(&chars_of("调试模式已开启")))
                    } else {
                        self.move_to(0)
                    }
                },
                _ => self.pending_action(),
            },
            LaunchPhase::Checking { index } => match ev {
                LaunchEvent::Exists { exists } => {
                    if exists {
                        self.last_browser = self.names[index].clone();
                        self.phase = LaunchPhase::Spawning { index };
                        LaunchAction::Spawn { index }
                    } else {
                        self.move_to(index + 1)
                    }
                },
                _ => self.pending_action(),
            },
            LaunchPhase::Spawning { index } => match ev {
                LaunchEvent::SpawnFailed { error } => {
                    let mut m: Vec<char> = Vec::new();
                    push_str(&mut m, "Failed to launch ");
                    push_str(&mut m, self.names[index].as_str());
                    push_str(&mut m, ": ");
                    push_str(&mut m, error.as_str());
                    assert(m@ =~= spawn_failure_text(s.names@[index as int]@, error@));
                    self.finish(false, string_of(&m))
                },
                LaunchEvent::Spawned => {
                    self.phase = LaunchPhase::Waiting { index, polls: 0 };
                    LaunchAction::WaitAndPoll
                },
                _ => self.pending_action(),
            },
            LaunchPhase::Waiting { index, polls } => match ev {
                LaunchEvent::PortOpen { open } => {
                    if open {
                        let name = self.names[index].clone();
                        self.finish(true, name)
                    } else if polls + 1 < PORT_POLLS {
                        self.phase = LaunchPhase::Waiting { index, polls: polls + 1 };
                        LaunchAction::WaitAndPoll
                    } else {
                        self.move_to(index + 1)
                    }
                },
                _ => self.pending_action(),
            },
            LaunchPhase::Done { .. } => self.pending_action(),
        }
    }
}

/// A launch reports success only with the "already open" answer or the
/// name of one of its candidates.
pub proof fn lemma_success_names_a_candidate(
    s: DebugLaunch,
    ev: LaunchEvent,
    t: DebugLaunch,
    outcome: String,
)
    requires
        s.wf(),
        s.phase !is Done,
        launch_step(s, ev, t, LaunchAction::Finish { outcome: Ok(outcome) }),
    ensures
        outcome@ == already_open_text() || exists|i: int|
            0 <= i < s.names@.len() && s.names@[i]@ == outcome@,
{
    if let LaunchPhase::Waiting { index, polls } = s.phase {
        if ev matches LaunchEvent::PortOpen { open } && open {
            assert(s.names@[index as int]@ == outcome@);
        }
    }
}

} // verus!
