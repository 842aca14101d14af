//! The ephemeral build sandbox: lifecycle states, the teardown table, and
//! the text the sandbox tooling is driven with.
//!
//! One fixed sandbox identity is reused for every build.  Before a build,
//! an existing sandbox is brought to absence by the exact action sequence
//! its current state requires; a state outside the table is rejected where
//! the external status text is parsed, never guessed at.

use vstd::prelude::*;

use crate::text::{str_eq, string_from_chars};

verus! {

/// Errors of sandbox-state handling.
#[derive(Debug, Clone, Copy, PartialEq, Eq, Structural)]
pub enum ZoneError {
    /// The virtualization layer reported a lifecycle state this tool has no
    /// teardown plan for.
    UnknownState,
    /// The service-status query printed something other than one status
    /// line per queried service.
    UnexpectedServiceOutput,
}

/// A lifecycle state of the build sandbox, mirroring the host
/// virtualization layer's own states.
#[derive(Debug, Clone, Copy, PartialEq, Eq, Structural)]
pub enum ZoneState {
    Configured,
    Incomplete,
    Installed,
    Mounted,
    Running,
}

/// One teardown operation on the sandbox.
#[derive(Debug, Clone, Copy, PartialEq, Eq, Structural)]
pub enum TeardownAction {
    Unmount,
    Halt,
    Uninstall,
    Delete,
}

/// The lifecycle state a status word denotes, if any.
pub open spec fn spec_zone_state(s: Seq<char>) -> Option<ZoneState> {
    if s == "configured"@ {
        Some(ZoneState::Configured)
    } else if s == "incomplete"@ {
        Some(ZoneState::Incomplete)
    } else if s == "installed"@ {
        Some(ZoneState::Installed)
    } else if s == "mounted"@ {
        Some(ZoneState::Mounted)
    } else if s == "running"@ {
        Some(ZoneState::Running)
    } else {
        None
    }
}

impl ZoneState {
    /// Parse the status word reported by the virtualization layer; a word
    /// outside the closed vocabulary is a fatal error at this boundary.
    pub fn parse(s: &str) -> (r: Result<ZoneState, ZoneError>)
        ensures
            match r {
                Ok(z) => spec_zone_state(s@) == Some(z),
                Err(e) => spec_zone_state(s@) is None && e == ZoneError::UnknownState,
            },
    {
        if str_eq(s, "configured") {
            Ok(ZoneState::Configured)
        } else if str_eq(s, "incomplete") {
            Ok(ZoneState::Incomplete)
        } else if str_eq(s, "installed") {
            Ok(ZoneState::Installed)
        } else if str_eq(s, "mounted") {
            Ok(ZoneState::Mounted)
        } else if str_eq(s, "running") {
            Ok(ZoneState::Running)
        } else {
            Err(ZoneError::UnknownState)
        }
    }
}

/// The table of teardown actions each state requires, in the order they
/// must be applied to reach absence.
pub open spec fn teardown_spec(s: ZoneState) -> Seq<TeardownAction> {
    match s {
        ZoneState::Mounted => seq![
            TeardownAction::Unmount,
            TeardownAction::Halt,
            TeardownAction::Uninstall,
            TeardownAction::Delete,
        ],
        ZoneState::Running => seq![
            TeardownAction::Halt,
            TeardownAction::Uninstall,
            TeardownAction::Delete,
        ],
        ZoneState::Installed | ZoneState::Incomplete => seq![
            TeardownAction::Uninstall,
            TeardownAction::Delete,
        ],
        ZoneState::Configured => seq![TeardownAction::Delete],
    }
}

/// The teardown actions required to take a sandbox in state `s` to
/// absence, in order.
pub fn teardown_actions(s: ZoneState) -> (r: Vec<TeardownAction>)
    ensures
        r@ == teardown_spec(s),
{
    let mut out: Vec<TeardownAction> = Vec::new();
    match s {
        ZoneState::Mounted => {
            out.push(TeardownAction::Unmount);
            out.push(TeardownAction::Halt);
            out.push(TeardownAction::Uninstall);
            out.push(TeardownAction::Delete);
        },
        ZoneState::Running => {
            out.push(TeardownAction::Halt);
            out.push(TeardownAction::Uninstall);
            out.push(TeardownAction::Delete);
        },
        ZoneState::Installed | ZoneState::Incomplete => {
            out.push(TeardownAction::Uninstall);
            out.push(TeardownAction::Delete);
        },
        ZoneState::Configured => {
            out.push(TeardownAction::Delete);
        },
    }
    proof {
        assert(out@ =~= teardown_spec(s));
    }
    out
}

/// Effect of one teardown action on a sandbox that may be present in some
/// state (`Some`) or absent (`None`); the outer `None` marks an operation
/// the state does not admit.
///
/// Unmounting takes a mounted sandbox back to installed; halting stops a
/// running or mounted sandbox and is a no-op on one already installed;
/// uninstalling takes an installed or incomplete sandbox to configured;
/// deleting removes a configured sandbox entirely.
pub open spec fn teardown_step_spec(
    s: Option<ZoneState>,
    a: TeardownAction,
) -> Option<Option<ZoneState>> {
    match (s, a) {
        (Some(ZoneState::Mounted), TeardownAction::Unmount) => Some(Some(ZoneState::Installed)),
        (Some(ZoneState::Running), TeardownAction::Halt) => Some(Some(ZoneState::Installed)),
        (Some(ZoneState::Mounted), TeardownAction::Halt) => Some(Some(ZoneState::Installed)),
        (Some(ZoneState::Installed), TeardownAction::Halt) => Some(Some(ZoneState::Installed)),
        (Some(ZoneState::Installed), TeardownAction::Uninstall) => Some(
            Some(ZoneState::Configured),
        ),
        (Some(ZoneState::Incomplete), TeardownAction::Uninstall) => Some(
            Some(ZoneState::Configured),
        ),
        (Some(ZoneState::Configured), TeardownAction::Delete) => Some(None),
        _ => None,
    }
}

/// Apply one teardown action, rejecting operations the current state does
/// not admit.
pub fn teardown_step(s: Option<ZoneState>, a: TeardownAction) -> (r: Result<
    Option<ZoneState>,
    ZoneError,
>)
    ensures
        match r {
            Ok(s2) => teardown_step_spec(s, a) == Some(s2),
            Err(e) => teardown_step_spec(s, a) is None && e == ZoneError::UnknownState,
        },
{
    match teardown_step_exec(s, a) {
        Some(s2) => Ok(s2),
        None => Err(ZoneError::UnknownState),
    }
}

fn teardown_step_exec(s: Option<ZoneState>, a: TeardownAction) -> (r: Option<Option<ZoneState>>)
    ensures
        r == teardown_step_spec(s, a),
{
    match (s, a) {
        (Some(ZoneState::Mounted), TeardownAction::Unmount) => Some(Some(ZoneState::Installed)),
        (Some(ZoneState::Running), TeardownAction::Halt) => Some(Some(ZoneState::Installed)),
        (Some(ZoneState::Mounted), TeardownAction::Halt) => Some(Some(ZoneState::Installed)),
        (Some(ZoneState::Installed), TeardownAction::Halt) => Some(Some(ZoneState::Installed)),
        (Some(ZoneState::Installed), TeardownAction::Uninstall) => Some(
            Some(ZoneState::Configured),
        ),
        (Some(ZoneState::Incomplete), TeardownAction::Uninstall) => Some(
            Some(ZoneState::Configured),
        ),
        (Some(ZoneState::Configured), TeardownAction::Delete) => Some(None),
        _ => None,
    }
}

/// The state a sandbox reaches after a sequence of teardown actions, or
/// `None` when some action along the way is not admitted.
pub open spec fn run_teardown(
    s: Option<ZoneState>,
    acts: Seq<TeardownAction>,
) -> Option<Option<ZoneState>>
    decreases acts.len(),
{
    if acts.len() == 0 {
        Some(s)
    } else {
        match teardown_step_spec(s, acts[0]) {
            None => None,
            Some(s2) => run_teardown(s2, acts.skip(1)),
        }
    }
}

/// Teardown completeness: from any of the five lifecycle states, applying
/// that state's teardown actions in table order is admitted at every step
/// and leaves the sandbox absent.
pub proof fn lemma_teardown_complete(s: ZoneState)
    ensures
        run_teardown(Some(s), teardown_spec(s)) == Some(None::<ZoneState>),
{
    reveal_with_fuel(run_teardown, 6);
    let acts = teardown_spec(s);
    match s {
        ZoneState::Mounted => {
            assert(acts.skip(1) =~= seq![
                TeardownAction::Halt,
                TeardownAction::Uninstall,
                TeardownAction::Delete,
            ]);
            assert(acts.skip(1).skip(1) =~= seq![
                TeardownAction::Uninstall,
                TeardownAction::Delete,
            ]);
            assert(acts.skip(1).skip(1).skip(1) =~= seq![TeardownAction::Delete]);
            assert(acts.skip(1).skip(1).skip(1).skip(1) =~= Seq::<TeardownAction>::empty());
        },
        ZoneState::Running => {
            assert(acts.skip(1) =~= seq![TeardownAction::Uninstall, TeardownAction::Delete]);
            assert(acts.skip(1).skip(1) =~= seq![TeardownAction::Delete]);
            assert(acts.skip(1).skip(1).skip(1) =~= Seq::<TeardownAction>::empty());
        },
        ZoneState::Installed | ZoneState::Incomplete => {
            assert(acts.skip(1) =~= seq![TeardownAction::Delete]);
            assert(acts.skip(1).skip(1) =~= Seq::<TeardownAction>::empty());
        },
        ZoneState::Configured => {
            assert(acts.skip(1) =~= Seq::<TeardownAction>::empty());
        },
    }
}

/// The packages of `required` that are not in `installed`, in order: the
/// subset to bulk-install after probing each required package.
pub open spec fn missing_spec(required: Seq<Seq<char>>, installed: Seq<Seq<char>>) -> Seq<
    Seq<char>,
>
    decreases required.len(),
{
    if required.len() == 0 {
        Seq::empty()
    } else {
        let rest = missing_spec(required.drop_last(), installed);
        if installed.contains(required.last()) {
            rest
        } else {
            rest.push(required.last())
        }
    }
}

/// The required dependency packages the sandbox still lacks, preserving
/// order, so that one bulk install brings in exactly the missing subset.
pub fn missing_packages(required: &Vec<String>, installed: &Vec<String>) -> (r: Vec<String>)
    ensures
        r.deep_view() == missing_spec(required.deep_view(), installed.deep_view()),
{
    let ghost rm = required.deep_view();
    let n: usize = required.len();
    let mut out: Vec<String> = Vec::new();
    let mut i: usize = 0;
    proof {
        assert(rm.take(0) =~= Seq::<Seq<char>>::empty());
        assert(out.deep_view() =~= missing_spec(rm.take(0), installed.deep_view()));
    }
    while i < n
        invariant
            i <= n,
            n == required@.len(),
            rm == required.deep_view(),
            out.deep_view() == missing_spec(rm.take(i as int), installed.deep_view()),
        decreases n - i,
    {
        proof {
            assert(rm.take(i as int + 1).drop_last() =~= rm.take(i as int));
            assert(rm.take(i as int + 1).last() == rm[i as int]);
            assert(rm[i as int] == required@[i as int]@);
        }
        if !crate::text::vec_contains_string(installed, required[i].as_str()) {
            let ghost out0 = out.deep_view();
            out.push(required[i].clone());
            proof {
                assert(out.deep_view() =~~= out0.push(rm[i as int]));
            }
        }
        i = i + 1;
    }
    proof {
        assert(rm.take(n as int) =~= rm);
    }
    out
}

/// The configuration script that creates the sandbox: a blank zone bound
/// to its path and brand.
pub open spec fn create_script_spec(path: Seq<char>, name: Seq<char>, brand: Seq<char>) -> Seq<
    char,
> {
    "create -b; set zonepath="@ + path + "; set zonename="@ + name + "; set brand="@ + brand
        + "; commit; "@
}

/// Render the zone-configuration script that creates the sandbox.
pub fn zonecfg_create_script(path: &str, name: &str, brand: &str) -> (r: String)
    ensures
        r@ == create_script_spec(path@, name@, brand@),
{
    let mut s = String::new();
    s.append("create -b; set zonepath=");
    s.append(path);
    s.append("; set zonename=");
    s.append(name);
    s.append("; set brand=");
    s.append(brand);
    s.append("; commit; ");
    proof {
        assert(s@ =~= create_script_spec(path@, name@, brand@));
    }
    s
}

/// The configuration script that loopback-mounts the workspace into the
/// sandbox read-write at an identical path, so absolute paths resolve the
/// same inside and outside.
pub open spec fn lofs_script_spec(dir: Seq<char>, special: Seq<char>) -> Seq<char> {
    "add fs; set dir = "@ + dir + "; set special = "@ + special
        + "; set type = lofs; set options = [rw,nodevices]; end; commit; "@
}

/// Render the zone-configuration script that adds the workspace mount.
pub fn zonecfg_lofs_script(dir: &str, special: &str) -> (r: String)
    ensures
        r@ == lofs_script_spec(dir@, special@),
{
    let mut s = String::new();
    s.append("add fs; set dir = ");
    s.append(dir);
    s.append("; set special = ");
    s.append(special);
    s.append("; set type = lofs; set options = [rw,nodevices]; end; commit; ");
    proof {
        assert(s@ =~= lofs_script_spec(dir@, special@));
    }
    s
}

/// The `export` lines of a build script, one per environment variable, in
/// order.
pub open spec fn env_lines_spec(env: Seq<(Seq<char>, Seq<char>)>) -> Seq<char>
    decreases env.len(),
{
    if env.len() == 0 {
        Seq::empty()
    } else {
        env_lines_spec(env.drop_last()) + "export "@ + env.last().0 + "='"@ + env.last().1
            + "'\n"@
    }
}

/// The shell script that runs one build inside the sandbox: abort on any
/// failing command or pipeline, trace every command, export the build
/// environment, then run the build command.
pub open spec fn build_script_spec(env: Seq<(Seq<char>, Seq<char>)>, cmd: Seq<char>) -> Seq<
    char,
> {
    "#!/bin/sh\nset -o errexit\nset -o pipefail\nset -o xtrace\n"@ + env_lines_spec(env) + cmd
        + "\n"@
}

/// Render the build script deposited into the sandbox.
pub fn render_build_script(env: &Vec<(String, String)>, cmd: &str) -> (r: String)
    ensures
        r@ == build_script_spec(env.deep_view(), cmd@),
{
    let mut s = String::new();
    s.append("#!/bin/sh\nset -o errexit\nset -o pipefail\nset -o xtrace\n");
    let ghost head = s@;
    let n: usize = env.len();
    let mut i: usize = 0;
    proof {
        assert(env.deep_view().take(0) =~= Seq::<(Seq<char>, Seq<char>)>::empty());
        assert(s@ =~= head + env_lines_spec(env.deep_view().take(0)));
    }
    while i < n
        invariant
            i <= n,
            n == env@.len(),
            s@ == head + env_lines_spec(env.deep_view().take(i as int)),
        decreases n - i,
    {
        let ghost em = env.deep_view();
        proof {
            assert(em.take(i as int + 1).drop_last() =~= em.take(i as int));
            assert(em.take(i as int + 1).last() == em[i as int]);
            assert(em[i as int] == env@[i as int].deep_view());
        }
        s.append("export ");
        s.append(env[i].0.as_str());
        s.append("='");
        s.append(env[i].1.as_str());
        s.append("'\n");
        proof {
            assert(s@ =~= head + env_lines_spec(em.take(i as int + 1)));
        }
        i = i + 1;
    }
    proof {
        assert(env.deep_view().take(n as int) =~= env.deep_view());
    }
    s.append(cmd);
    s.append("\n");
    proof {
        assert(s@ =~= build_script_spec(env.deep_view(), cmd@));
    }
    s
}

} // verus!
