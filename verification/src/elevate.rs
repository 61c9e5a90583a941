use vstd::prelude::*;
use crate::quote::{
    apple_script_quote_chars, apple_script_quote_spec, fresh_shell_word, law_shell_quote_round_trip,
    lemma_shell_line_concat, lemma_shell_line_within_word, quote_windows_args, quote_windows_args_spec,
    shell_line_run, shell_line_step, shell_quote_chars, shell_quote_spec, shell_run, shell_words_read,
    ShellLineReader,
};
use crate::text::{append_chars, chars_of, string_of};

verus! {

/// The operating system the program runs on.
#[derive(Debug, Clone, Copy, PartialEq, Eq)]
pub enum Platform {
    Windows,
    MacOs,
    Linux,
    Other,
}

/// The session variables that the Linux relaunch passes on to the elevated process
/// (each `None` when it is not set).
#[derive(Debug, Clone, PartialEq, Eq)]
pub struct SessionEnv {
    pub display: Option<String>,
    pub wayland_display: Option<String>,
    pub xauthority: Option<String>,
    pub xdg_runtime_dir: Option<String>,
    pub dbus_session_bus_address: Option<String>,
}

/// What the program knows at start about whether and how to restart itself with
/// administrator rights.
#[derive(Debug, Clone, PartialEq, Eq)]
pub struct RelaunchContext {
    pub platform: Platform,
    /// The process already has administrator (root) rights.
    pub elevated: bool,
    /// `PORT_MANAGER_ELEVATED_CHILD` is set: this process is the restarted one.
    pub elevated_child: bool,
    /// The path of the running executable, if it could be found.
    pub exe: Option<String>,
    /// The command-line arguments after the program name.
    pub args: Vec<String>,
    pub session: SessionEnv,
}

/// What to do to gain administrator rights.
#[derive(Debug, Clone, PartialEq, Eq)]
pub enum RelaunchPlan {
    /// Carry on as this process.
    Stay,
    /// Start `file` with the `runas` verb (Windows), with the given parameters; when that
    /// succeeds, exit.
    RunAs { file: String, parameters: Option<String> },
    /// Start `program` with `args`; when it starts, exit.
    Spawn { program: String, args: Vec<String> },
}

/// A relaunch plan with texts as character sequences.
pub enum PlanView {
    Stay,
    RunAs { file: Seq<char>, parameters: Option<Seq<char>> },
    Spawn { program: Seq<char>, args: Seq<Seq<char>> },
}

/// The texts of a list of strings.
pub open spec fn texts(v: Seq<String>) -> Seq<Seq<char>> {
    v.map_values(|s: String| s@)
}

pub open spec fn plan_view(p: RelaunchPlan) -> PlanView {
    match p {
        RelaunchPlan::Stay => PlanView::Stay,
        RelaunchPlan::RunAs { file, parameters } => PlanView::RunAs {
            file: file@,
            parameters: match parameters {
                Some(s) => Some(s@),
                None => None,
            },
        },
        RelaunchPlan::Spawn { program, args } => PlanView::Spawn { program: program@, args: texts(args@) },
    }
}

/// `KEY=value` when the variable is set.
pub open spec fn env_assignment(key: Seq<char>, value: Option<String>) -> Seq<Seq<char>> {
    match value {
        Some(v) => seq![key + seq!['='] + v@],
        None => Seq::empty(),
    }
}

/// The session variables that are set, as `KEY=value`, in the order DISPLAY,
/// WAYLAND_DISPLAY, XAUTHORITY, XDG_RUNTIME_DIR, DBUS_SESSION_BUS_ADDRESS.
pub open spec fn session_assignments(e: SessionEnv) -> Seq<Seq<char>> {
    env_assignment("DISPLAY"@, e.display) + env_assignment("WAYLAND_DISPLAY"@, e.wayland_display)
        + env_assignment("XAUTHORITY"@, e.xauthority) + env_assignment(
        "XDG_RUNTIME_DIR"@,
        e.xdg_runtime_dir,
    ) + env_assignment("DBUS_SESSION_BUS_ADDRESS"@, e.dbus_session_bus_address)
}

/// The words of a shell command, each quoted, separated by spaces.
pub open spec fn quoted_words(words: Seq<Seq<char>>) -> Seq<char>
    decreases words.len(),
{
    if words.len() == 0 {
        Seq::empty()
    } else {
        quoted_words(words.drop_last()) + seq![' '] + shell_quote_spec(words.last())
    }
}

/// The shell command that restarts the program in the background on macOS, marked as the
/// elevated child and with its output discarded.
pub open spec fn macos_command(exe: Seq<char>, args: Seq<Seq<char>>) -> Seq<char> {
    "PORT_MANAGER_ELEVATED_CHILD=1 "@ + shell_quote_spec(exe) + quoted_words(args)
        + " >/dev/null 2>&1 &"@
}

/// What to do to gain administrator rights: stay when already elevated, when this process is
/// the restarted one (except on Windows, which does not mark it), when the executable is
/// unknown, or on other platforms. Otherwise Windows restarts through `runas` with the quoted
/// arguments, macOS runs the shell command through `osascript` with administrator privileges,
/// and Linux runs the program through `pkexec env`, marked and with the session variables.
pub open spec fn relaunch_plan(ctx: RelaunchContext) -> PlanView {
    let args = texts(ctx.args@);
    match ctx.platform {
        Platform::Windows => if ctx.elevated || ctx.exe is None {
            PlanView::Stay
        } else {
            let params = quote_windows_args_spec(args);
            PlanView::RunAs {
                file: ctx.exe.unwrap()@,
                parameters: if params.len() == 0 {
                    None
                } else {
                    Some(params)
                },
            }
        },
        Platform::MacOs => if ctx.elevated || ctx.elevated_child || ctx.exe is None {
            PlanView::Stay
        } else {
            PlanView::Spawn {
                program: "osascript"@,
                args: seq![
                    "-e"@,
                    "do shell script "@ + apple_script_quote_spec(macos_command(ctx.exe.unwrap()@, args))
                        + " with administrator privileges"@,
                ],
            }
        },
        Platform::Linux => if ctx.elevated || ctx.elevated_child || ctx.exe is None {
            PlanView::Stay
        } else {
            PlanView::Spawn {
                program: "pkexec"@,
                args: seq!["env"@, "PORT_MANAGER_ELEVATED_CHILD=1"@] + session_assignments(ctx.session)
                    + seq![ctx.exe.unwrap()@] + args,
            }
        },
        Platform::Other => PlanView::Stay,
    }
}

fn push_assignment(out: &mut Vec<String>, key: &str, value: &Option<String>)
    ensures
        texts(final(out)@) == texts(old(out)@) + env_assignment(key@, *value),
{
    match value {
        Some(v) => {
            let mut t = chars_of(key);
            t.push('=');
            let vc = chars_of(v.as_str());
            append_chars(&mut t, vc.as_slice());
            let ghost before = out@;
            assert(t@ =~= key@ + seq!['='] + v@);
            out.push(string_of(t.as_slice()));
            assert(texts(out@) =~= texts(before).push(key@ + seq!['='] + v@));
        },
        None => {
            assert(texts(out@) =~= texts(old(out)@) + Seq::<Seq<char>>::empty());
        },
    }
}

fn macos_command_chars(exe: &String, args: &Vec<String>) -> (res: Vec<char>)
    ensures
        res@ == macos_command(exe@, texts(args@)),
{
    let mut v = chars_of("PORT_MANAGER_ELEVATED_CHILD=1 ");
    let e = chars_of(exe.as_str());
    let q = shell_quote_chars(e.as_slice());
    append_chars(&mut v, q.as_slice());
    let ghost head = v@;
    let ghost all = texts(args@);
    let mut i: usize = 0;
    while i < args.len()
        invariant
            i <= args.len(),
            all == texts(args@),
            v@ == head + quoted_words(all.take(i as int)),
        decreases args.len() - i,
    {
        assert(all.take(i + 1).drop_last() =~= all.take(i as int));
        let a = chars_of(args[i].as_str());
        let qa = shell_quote_chars(a.as_slice());
        v.push(' ');
        append_chars(&mut v, qa.as_slice());
        i = i + 1;
        assert(v@ =~= head + quoted_words(all.take(i as int)));
    }
    assert(all.take(args.len() as int) =~= all);
    let tail = chars_of(" >/dev/null 2>&1 &");
    append_chars(&mut v, tail.as_slice());
    v
}

/// Decides how the program gains administrator rights at start (see `relaunch_plan`).
pub fn ensure_elevated_or_relaunch(ctx: &RelaunchContext) -> (plan: RelaunchPlan)
    ensures
        plan_view(plan) == relaunch_plan(*ctx),
{
    match ctx.platform {
        Platform::Windows => {
            if ctx.elevated {
                return RelaunchPlan::Stay;
            }
            let exe = match &ctx.exe {
                Some(e) => e,
                None => return RelaunchPlan::Stay,
            };
            let params = quote_windows_args(&ctx.args);
            let parameters = if params.as_str().is_empty() {
                None
            } else {
                Some(params)
            };
            RelaunchPlan::RunAs { file: exe.clone(), parameters }
        },
        Platform::MacOs => {
            if ctx.elevated || ctx.elevated_child {
                return RelaunchPlan::Stay;
            }
            let exe = match &ctx.exe {
                Some(e) => e,
                None => return RelaunchPlan::Stay,
            };
            let command = macos_command_chars(exe, &ctx.args);
            let quoted = apple_script_quote_chars(command.as_slice());
            let mut script = chars_of("do shell script ");
            append_chars(&mut script, quoted.as_slice());
            let tail = chars_of(" with administrator privileges");
            append_chars(&mut script, tail.as_slice());
            let mut args: Vec<String> = Vec::new();
            args.push("-e".to_owned());
            args.push(string_of(script.as_slice()));
            let ghost want = seq![
                "-e"@,
                "do shell script "@ + apple_script_quote_spec(macos_command(exe@, texts(ctx.args@)))
                    + " with administrator privileges"@,
            ];
            assert(texts(args@) =~= want);
            RelaunchPlan::Spawn { program: "osascript".to_owned(), args }
        },
        Platform::Linux => {
            if ctx.elevated || ctx.elevated_child {
                return RelaunchPlan::Stay;
            }
            let exe = match &ctx.exe {
                Some(e) => e,
                None => return RelaunchPlan::Stay,
            };
            let mut args: Vec<String> = Vec::new();
            args.push("env".to_owned());
            args.push("PORT_MANAGER_ELEVATED_CHILD=1".to_owned());
            assert(texts(args@) =~= seq!["env"@, "PORT_MANAGER_ELEVATED_CHILD=1"@]);
            push_assignment(&mut args, "DISPLAY", &ctx.session.display);
            push_assignment(&mut args, "WAYLAND_DISPLAY", &ctx.session.wayland_display);
            push_assignment(&mut args, "XAUTHORITY", &ctx.session.xauthority);
            push_assignment(&mut args, "XDG_RUNTIME_DIR", &ctx.session.xdg_runtime_dir);
            push_assignment(&mut args, "DBUS_SESSION_BUS_ADDRESS", &ctx.session.dbus_session_bus_address);
            let ghost before_exe = args@;
            args.push(exe.clone());
            let mut i: usize = 0;
            let ghost with_exe = args@;
            while i < ctx.args.len()
                invariant
                    i <= ctx.args.len(),
                    texts(args@) == texts(with_exe) + texts(ctx.args@).take(i as int),
                decreases ctx.args.len() - i,
            {
                let ghost b = args@;
                let a = ctx.args[i].clone();
                assert(a@ == texts(ctx.args@)[i as int]);
                args.push(a);
                assert(texts(args@) =~= texts(b).push(a@));
                assert(texts(ctx.args@).take(i + 1) =~= texts(ctx.args@).take(i as int).push(a@));
                i = i + 1;
                assert(texts(args@) =~= texts(with_exe) + texts(ctx.args@).take(i as int));
            }
            assert(texts(ctx.args@).take(ctx.args.len() as int) =~= texts(ctx.args@));
            assert(texts(with_exe) =~= texts(before_exe).push(exe@));
            assert(texts(args@) =~= seq!["env"@, "PORT_MANAGER_ELEVATED_CHILD=1"@] + session_assignments(ctx.session)
                + seq![exe@] + texts(ctx.args@));
            RelaunchPlan::Spawn { program: "pkexec".to_owned(), args }
        },
        Platform::Other => RelaunchPlan::Stay,
    }
}

/// Reading the quoted executable and arguments leaves all but the last word ended and the
/// last one read.
proof fn lemma_quoted_command_words(exe: Seq<char>, args: Seq<Seq<char>>)
    ensures
        ({
            let all = seq![exe] + args;
            shell_line_run(
                ShellLineReader { words: Seq::empty(), current: fresh_shell_word(), started: false },
                shell_quote_spec(exe) + quoted_words(args),
            ) == (ShellLineReader {
                words: all.drop_last(),
                current: shell_run(fresh_shell_word(), shell_quote_spec(all.last())),
                started: true,
            })
        }),
    decreases args.len(),
{
    let init = ShellLineReader { words: Seq::empty(), current: fresh_shell_word(), started: false };
    let all = seq![exe] + args;
    if args.len() == 0 {
        law_shell_quote_round_trip(exe);
        assert(quoted_words(args) =~= Seq::<char>::empty());
        assert(shell_quote_spec(exe) + quoted_words(args) =~= shell_quote_spec(exe));
        lemma_shell_line_within_word(init, shell_quote_spec(exe));
        assert(all.drop_last() =~= Seq::<Seq<char>>::empty());
    } else {
        let prefix = args.drop_last();
        let last = args.last();
        let q = shell_quote_spec(last);
        let head = shell_quote_spec(exe) + quoted_words(prefix);
        assert(shell_quote_spec(exe) + quoted_words(args) =~= head + seq![' '] + q);
        lemma_quoted_command_words(exe, prefix);
        let before = seq![exe] + prefix;
        assert(before =~= all.drop_last());
        law_shell_quote_round_trip(before.last());
        law_shell_quote_round_trip(last);
        lemma_shell_line_concat(init, head + seq![' '], q);
        lemma_shell_line_concat(init, head, seq![' ']);
        let mid = shell_line_run(init, head);
        reveal_with_fuel(shell_line_run, 2);
        assert(seq![' '].drop_last() =~= Seq::<char>::empty());
        let after_space = shell_line_run(mid, seq![' ']);
        assert(after_space == shell_line_step(mid, ' '));
        assert(after_space.words =~= all.drop_last());
        lemma_shell_line_within_word(after_space, q);
        assert(q.len() > 0);
        assert(all.last() == last);
    }
}

/// Law: in the command that restarts the program on macOS, the shell reads the quoted
/// executable and arguments as exactly the executable followed by the arguments it was given,
/// whatever characters they hold.
pub proof fn law_macos_command_words(exe: Seq<char>, args: Seq<Seq<char>>)
    ensures
        shell_words_read(shell_quote_spec(exe) + quoted_words(args)) == seq![exe] + args,
{
    let all = seq![exe] + args;
    lemma_quoted_command_words(exe, args);
    law_shell_quote_round_trip(all.last());
    assert(all.drop_last().push(all.last()) =~= all);
}

/// `KEY=value` for a session variable that is set is among `args` before place `end`.
#[verifier::opaque]
pub open spec fn passes_variable(args: Seq<Seq<char>>, end: int, key: Seq<char>, value: Option<String>) -> bool {
    value is Some ==> exists|i: int| 2 <= i < end && #[trigger] args[i] == key + seq!['='] + value.unwrap()@
}

/// The session variables that are set appear as `KEY=value` between the marker and the
/// executable in `env PORT_MANAGER_ELEVATED_CHILD=1 <assignments> <exe> <args>`.
proof fn lemma_session_args(e: SessionEnv, exe: Seq<char>, rest: Seq<Seq<char>>)
    ensures
        ({
            let args = seq!["env"@, "PORT_MANAGER_ELEVATED_CHILD=1"@] + session_assignments(e) + seq![exe] + rest;
            let end = args.len() - rest.len() - 1;
            &&& args.len() >= rest.len() + 3
            &&& args[0] == "env"@
            &&& args[1] == "PORT_MANAGER_ELEVATED_CHILD=1"@
            &&& args[end] == exe
            &&& args.subrange(end + 1, args.len() as int) == rest
            &&& passes_variable(args, end, "DISPLAY"@, e.display)
            &&& passes_variable(args, end, "WAYLAND_DISPLAY"@, e.wayland_display)
            &&& passes_variable(args, end, "XAUTHORITY"@, e.xauthority)
            &&& passes_variable(args, end, "XDG_RUNTIME_DIR"@, e.xdg_runtime_dir)
            &&& passes_variable(args, end, "DBUS_SESSION_BUS_ADDRESS"@, e.dbus_session_bus_address)
        }),
{
    let head = seq!["env"@, "PORT_MANAGER_ELEVATED_CHILD=1"@];
    let a1 = env_assignment("DISPLAY"@, e.display);
    let a2 = env_assignment("WAYLAND_DISPLAY"@, e.wayland_display);
    let a3 = env_assignment("XAUTHORITY"@, e.xauthority);
    let a4 = env_assignment("XDG_RUNTIME_DIR"@, e.xdg_runtime_dir);
    let a5 = env_assignment("DBUS_SESSION_BUS_ADDRESS"@, e.dbus_session_bus_address);
    let p1 = head + a1;
    let p2 = p1 + a2;
    let p3 = p2 + a3;
    let p4 = p3 + a4;
    let p5 = p4 + a5;
    let withexe = p5 + seq![exe];
    let args = withexe + rest;
    assert(session_assignments(e) == a1 + a2 + a3 + a4 + a5);
    assert(head + (a1 + a2 + a3 + a4 + a5) == p5) by {
        assert(head + (a1 + a2 + a3 + a4 + a5) =~= p5);
    }
    assert(args == seq!["env"@, "PORT_MANAGER_ELEVATED_CHILD=1"@] + session_assignments(e) + seq![exe] + rest);
    let end = args.len() - rest.len() - 1;
    assert(end == p5.len());
    reveal(passes_variable);
    assert(passes_variable(args, end, "DISPLAY"@, e.display)) by {
        if e.display is Some {
            assert(args[2] == p1[2]);
        }
    }
    assert(passes_variable(args, end, "WAYLAND_DISPLAY"@, e.wayland_display)) by {
        if e.wayland_display is Some {
            assert(args[p1.len() as int] == p2[p1.len() as int]);
        }
    }
    assert(passes_variable(args, end, "XAUTHORITY"@, e.xauthority)) by {
        if e.xauthority is Some {
            assert(args[p2.len() as int] == p3[p2.len() as int]);
        }
    }
    assert(passes_variable(args, end, "XDG_RUNTIME_DIR"@, e.xdg_runtime_dir)) by {
        if e.xdg_runtime_dir is Some {
            assert(args[p3.len() as int] == p4[p3.len() as int]);
        }
    }
    assert(passes_variable(args, end, "DBUS_SESSION_BUS_ADDRESS"@, e.dbus_session_bus_address)) by {
        if e.dbus_session_bus_address is Some {
            assert(args[p4.len() as int] == p5[p4.len() as int]);
        }
    }
    assert(args[end] == withexe[end]);
    assert(args.subrange(end + 1, args.len() as int) =~= rest);
    assert(args[0] == head[0] && args[1] == head[1]);
}

/// Law: on Linux, a process that is neither elevated nor the restarted one and knows its
/// executable restarts through `pkexec env`, marked as the restarted one, with `KEY=value` for
/// each of DISPLAY, WAYLAND_DISPLAY, XAUTHORITY, XDG_RUNTIME_DIR and DBUS_SESSION_BUS_ADDRESS
/// that is set, placed before the executable, which is followed by exactly the arguments the
/// process was given.
pub proof fn law_linux_relaunch_keeps_session(ctx: RelaunchContext)
    requires
        ctx.platform == Platform::Linux,
        !ctx.elevated,
        !ctx.elevated_child,
        ctx.exe is Some,
    ensures
        ({
            let plan = relaunch_plan(ctx);
            &&& plan is Spawn
            &&& plan->program == "pkexec"@
            &&& {
                let args = plan->args;
                let n = ctx.args@.len();
                let e = args.len() - n - 1;
                &&& args.len() >= n + 3
                &&& args[0] == "env"@
                &&& args[1] == "PORT_MANAGER_ELEVATED_CHILD=1"@
                &&& args[e] == ctx.exe.unwrap()@
                &&& args.subrange(e + 1, args.len() as int) == texts(ctx.args@)
                &&& passes_variable(args, e, "DISPLAY"@, ctx.session.display)
                &&& passes_variable(args, e, "WAYLAND_DISPLAY"@, ctx.session.wayland_display)
                &&& passes_variable(args, e, "XAUTHORITY"@, ctx.session.xauthority)
                &&& passes_variable(args, e, "XDG_RUNTIME_DIR"@, ctx.session.xdg_runtime_dir)
                &&& passes_variable(args, e, "DBUS_SESSION_BUS_ADDRESS"@, ctx.session.dbus_session_bus_address)
            }
        }),
{
    let rest = texts(ctx.args@);
    assert(rest.len() == ctx.args@.len());
    assert(relaunch_plan(ctx) == PlanView::Spawn {
        program: "pkexec"@,
        args: seq!["env"@, "PORT_MANAGER_ELEVATED_CHILD=1"@] + session_assignments(ctx.session)
            + seq![ctx.exe.unwrap()@] + rest,
    });
    lemma_session_args(ctx.session, ctx.exe.unwrap()@, rest);
}

} // verus!
