//! The decisions of the handoff by which a running program has its own file
//! rewritten.
//!
//! A process that wants to store a payload writes a twin of its own file and
//! launches it in `UpdateOrig` mode. The twin stops the original, copies itself
//! over the original's file and launches it in `KillEvilTwin` mode. The
//! relaunched original stops the twin, removes the twin's file and exits. Each
//! process learns its part from the handoff state it is started with; what it
//! must then do is decided here, and carried out by the caller.
use vstd::prelude::*;
use crate::scanner::same_slice;

verus! {

/// The part a process plays, read from its handoff state at startup.
#[derive(PartialEq, Eq, Structural, Clone, Copy, Debug)]
pub enum StartupMode {
    /// No handoff in progress: the program runs as usual.
    Normal,
    /// This process is the twin and must replace the original's file.
    UpdateOrig,
    /// This process is the updated original and must remove the twin.
    KillEvilTwin,
}

/// The name under which `UpdateOrig` is handed on.
pub open spec fn update_orig_tag() -> Seq<u8> {
    seq![85u8, 80u8, 68u8, 65u8, 84u8, 69u8, 95u8, 79u8, 82u8, 73u8, 71u8]
}

/// The name under which `KillEvilTwin` is handed on.
pub open spec fn kill_evil_twin_tag() -> Seq<u8> {
    seq![75u8, 73u8, 76u8, 76u8, 95u8, 69u8, 86u8, 73u8, 76u8, 95u8, 84u8, 87u8, 73u8, 78u8]
}

/// The name under which a mode is handed on; `Normal` is handed on by its absence.
pub open spec fn mode_tag(mode: StartupMode) -> Seq<u8> {
    match mode {
        StartupMode::Normal => Seq::empty(),
        StartupMode::UpdateOrig => update_orig_tag(),
        StartupMode::KillEvilTwin => kill_evil_twin_tag(),
    }
}

/// The mode that a handed-on value names: an absent or unknown value is `Normal`.
pub open spec fn mode_of(value: Option<&[u8]>) -> StartupMode {
    match value {
        Some(v) => if v@ == update_orig_tag() {
            StartupMode::UpdateOrig
        } else if v@ == kill_evil_twin_tag() {
            StartupMode::KillEvilTwin
        } else {
            StartupMode::Normal
        },
        None => StartupMode::Normal,
    }
}

/// The bytes are all decimal digits, and there is at least one.
pub open spec fn is_decimal(s: Seq<u8>) -> bool {
    s.len() > 0 && forall|i: int| 0 <= i < s.len() ==> 48 <= #[trigger] s[i] <= 57
}

/// The number that a string of decimal digits writes.
pub open spec fn decimal_value(s: Seq<u8>) -> nat
    decreases s.len(),
{
    if s.len() == 0 {
        0
    } else {
        decimal_value(s.drop_last()) * 10 + (s.last() - 48) as nat
    }
}

/// The process id that a handed-on value writes, if it is a decimal number that fits.
pub open spec fn pid_of(s: Seq<u8>) -> Option<u32> {
    if is_decimal(s) && decimal_value(s) <= u32::MAX {
        Some(decimal_value(s) as u32)
    } else {
        None
    }
}

/// What a process is started with when a handoff is under way.
pub struct HandoffState {
    /// The file of the other process of the handoff.
    pub twin_path: String,
    /// The id of the other process of the handoff.
    pub twin_pid: u32,
    pub mode: StartupMode,
}

/// What a process must do at startup.
pub enum StartupAction {
    /// Go on with the program.
    Proceed,
    /// Stop process `kill_pid`, copy this process's own file over
    /// `original_path`, then launch `original_path` with `next` and wait for it.
    ReplaceOriginal { kill_pid: u32, original_path: String, next: HandoffState },
    /// Stop process `kill_pid`, remove the file `twin_path`, then exit.
    RemoveTwin { kill_pid: u32, twin_path: String },
}

/// Why a handoff cannot go on.
#[derive(PartialEq, Eq, Structural, Clone, Copy, Debug)]
pub enum HandoffError {
    MissingTwinPath,
    MissingTwinPid,
    BadTwinPid,
}

/// The action for a process started in the mode that `mode_value` names, with
/// the other process's file and id as handed on, when this process has id
/// `own_pid` and runs from `own_path`.
pub open spec fn action_of(
    mode_value: Option<&[u8]>,
    twin_path: Option<String>,
    twin_pid: Option<&[u8]>,
    own_pid: u32,
    own_path: String,
) -> Result<StartupAction, HandoffError> {
    let mode = mode_of(mode_value);
    if mode == StartupMode::Normal {
        Ok(StartupAction::Proceed)
    } else if twin_path.is_none() {
        Err(HandoffError::MissingTwinPath)
    } else if twin_pid.is_none() {
        Err(HandoffError::MissingTwinPid)
    } else if pid_of(twin_pid.unwrap()@).is_none() {
        Err(HandoffError::BadTwinPid)
    } else if mode == StartupMode::UpdateOrig {
        Ok(
            StartupAction::ReplaceOriginal {
                kill_pid: pid_of(twin_pid.unwrap()@).unwrap(),
                original_path: twin_path.unwrap(),
                next: HandoffState {
                    twin_path: own_path,
                    twin_pid: own_pid,
                    mode: StartupMode::KillEvilTwin,
                },
            },
        )
    } else {
        Ok(
            StartupAction::RemoveTwin {
                kill_pid: pid_of(twin_pid.unwrap()@).unwrap(),
                twin_path: twin_path.unwrap(),
            },
        )
    }
}

/// The mode that a handed-on value names.
pub fn startup_mode(value: Option<&[u8]>) -> (r: StartupMode)
    ensures
        r == mode_of(value),
{
    match value {
        Some(v) => {
            let update: [u8; 11] = [85u8, 80u8, 68u8, 65u8, 84u8, 69u8, 95u8, 79u8, 82u8, 73u8, 71u8];
            let kill: [u8; 14] = [
                75u8, 73u8, 76u8, 76u8, 95u8, 69u8, 86u8, 73u8, 76u8, 95u8, 84u8, 87u8, 73u8, 78u8,
            ];
            assert(update@ == update_orig_tag());
            assert(kill@ == kill_evil_twin_tag());
            if same_slice(v, update.as_slice()) {
                StartupMode::UpdateOrig
            } else if same_slice(v, kill.as_slice()) {
                StartupMode::KillEvilTwin
            } else {
                StartupMode::Normal
            }
        },
        None => StartupMode::Normal,
    }
}

/// The name under which `mode` is handed on (empty for `Normal`).
pub fn mode_name(mode: StartupMode) -> (r: Vec<u8>)
    ensures
        r@ == mode_tag(mode),
{
    match mode {
        StartupMode::Normal => Vec::new(),
        StartupMode::UpdateOrig => {
            let r = vec![85u8, 80u8, 68u8, 65u8, 84u8, 69u8, 95u8, 79u8, 82u8, 73u8, 71u8];
            assert(r@ == update_orig_tag());
            r
        },
        StartupMode::KillEvilTwin => {
            let r = vec![
                75u8, 73u8, 76u8, 76u8, 95u8, 69u8, 86u8, 73u8, 76u8, 95u8, 84u8, 87u8, 73u8, 78u8,
            ];
            assert(r@ == kill_evil_twin_tag());
            r
        },
    }
}

/// A longer run of digits writes at least as large a number.
proof fn lemma_decimal_prefix(s: Seq<u8>, j: int)
    requires
        forall|i: int| 0 <= i < s.len() ==> 48 <= #[trigger] s[i] <= 57,
        0 <= j <= s.len(),
    ensures
        decimal_value(s.take(j)) <= decimal_value(s),
    decreases s.len(),
{
    if j < s.len() {
        let d = s.drop_last();
        assert(d.take(j) =~= s.take(j));
        lemma_decimal_prefix(d, j);
    } else {
        assert(s.take(j) =~= s);
    }
}

/// The process id written in decimal in `s`, if it is one that fits a `u32`.
pub fn parse_pid(s: &[u8]) -> (r: Option<u32>)
    ensures
        r == pid_of(s@),
{
    if s.len() == 0 {
        return None;
    }
    let mut acc: u64 = 0;
    let mut i: usize = 0;
    assert(s@.take(0) =~= Seq::<u8>::empty());
    while i < s.len()
        invariant
            i <= s@.len(),
            s@.len() > 0,
            acc == decimal_value(s@.take(i as int)),
            acc <= u32::MAX,
            forall|k: int| 0 <= k < i ==> 48 <= #[trigger] s@[k] <= 57,
        decreases s@.len() - i,
    {
        let b = s[i];
        if b < 48 || b > 57 {
            assert(!is_decimal(s@));
            return None;
        }
        assert(s@.take(i + 1).drop_last() =~= s@.take(i as int));
        acc = acc * 10 + (b - 48) as u64;
        i = i + 1;
        if acc > 4294967295u64 {
            proof {
                if is_decimal(s@) {
                    lemma_decimal_prefix(s@, i as int);
                }
            }
            return None;
        }
    }
    assert(s@.take(i as int) =~= s@);
    Some(acc as u32)
}

/// The handoff state with which a process that has written its twin launches
/// it: the twin is to replace this process's file and stop this process.
pub fn store_handoff(own_pid: u32, own_path: String) -> (r: HandoffState)
    ensures
        r == (HandoffState { twin_path: own_path, twin_pid: own_pid, mode: StartupMode::UpdateOrig }),
{
    HandoffState { twin_path: own_path, twin_pid: own_pid, mode: StartupMode::UpdateOrig }
}

/// Decides what a process must do at startup, from the handoff values it was
/// started with (absent where not set) and its own id and file.
pub fn startup_action(
    mode_value: Option<&[u8]>,
    twin_path: Option<String>,
    twin_pid: Option<&[u8]>,
    own_pid: u32,
    own_path: String,
) -> (r: Result<StartupAction, HandoffError>)
    ensures
        r == action_of(mode_value, twin_path, twin_pid, own_pid, own_path),
{
    let mode = startup_mode(mode_value);
    if mode == StartupMode::Normal {
        return Ok(StartupAction::Proceed);
    }
    let path = match twin_path {
        Some(p) => p,
        None => return Err(HandoffError::MissingTwinPath),
    };
    let pid_text = match twin_pid {
        Some(t) => t,
        None => return Err(HandoffError::MissingTwinPid),
    };
    let pid = match parse_pid(pid_text) {
        Some(p) => p,
        None => return Err(HandoffError::BadTwinPid),
    };
    if mode == StartupMode::UpdateOrig {
        Ok(
            StartupAction::ReplaceOriginal {
                kill_pid: pid,
                original_path: path,
                next: HandoffState {
                    twin_path: own_path,
                    twin_pid: own_pid,
                    mode: StartupMode::KillEvilTwin,
                },
            },
        )
    } else {
        Ok(StartupAction::RemoveTwin { kill_pid: pid, twin_path: path })
    }
}

} // verus!
