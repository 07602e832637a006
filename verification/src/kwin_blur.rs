//! The KWin blur strength offered on the appearance page.
//!
//! KWin keeps the strength of its blur effect in `kwinrc`. It is read with
//! `kreadconfig6`, written with `kwriteconfig6` and applied by asking KWin over D-Bus
//! to reconfigure the effect. Setting a new strength is a short conversation with
//! those tools; when a step fails, the previous setting is put back if that can be
//! done, so the page always knows which strength is in effect, or that it cannot tell.

use vstd::prelude::*;
use crate::text::{
    debug_quote, debug_quoted, joined, lemma_signed_decimal_parses, parse_i32, parse_i32_error,
    parsed_i32, signed_decimal, signed_decimal_string, trim, trimmed, views,
};
use crate::sidebar::str_eq;

verus! {

/// Weakest blur strength KWin offers.
pub const KWIN_BLUR_MIN: i32 = 1;

/// Strongest blur strength KWin offers.
pub const KWIN_BLUR_MAX: i32 = 15;

/// The strength KWin uses when `kwinrc` sets none.
pub const KWIN_BLUR_DEFAULT: i32 = 15;

/// The default `kreadconfig6` is asked to print when `kwinrc` sets no strength.
pub open spec fn unset_marker() -> Seq<char> {
    "mission-center-unset"@
}

/// A blur strength, and whether `kwinrc` sets it or it is KWin's default.
#[derive(Clone, Copy, Debug, PartialEq, Eq, Structural)]
pub struct KwinBlurState {
    pub value: i32,
    pub explicitly_set: bool,
}

impl Default for KwinBlurState {
    fn default() -> (s: Self)
        ensures
            s == (KwinBlurState { value: KWIN_BLUR_DEFAULT, explicitly_set: false }),
    {
        KwinBlurState { value: KWIN_BLUR_DEFAULT, explicitly_set: false }
    }
}

/// `value` brought into the range KWin offers.
pub open spec fn clamped_strength(value: int) -> int {
    if value < KWIN_BLUR_MIN {
        KWIN_BLUR_MIN as int
    } else if value > KWIN_BLUR_MAX {
        KWIN_BLUR_MAX as int
    } else {
        value
    }
}

fn clamp_strength(value: i32) -> (c: i32)
    ensures
        c == clamped_strength(value as int),
{
    if value < KWIN_BLUR_MIN {
        KWIN_BLUR_MIN
    } else if value > KWIN_BLUR_MAX {
        KWIN_BLUR_MAX
    } else {
        value
    }
}

impl KwinBlurState {
    /// The strength the slider shows: the value brought into the offered range.
    pub fn displayed_value(self) -> (shown: i32)
        ensures
            shown == clamped_strength(self.value as int),
    {
        clamp_strength(self.value)
    }
}

fn unset_marker_str() -> (s: &'static str)
    ensures
        s@ == unset_marker(),
{
    "mission-center-unset"
}

/// The arguments that read the strength from `kwinrc`.
pub fn read_arguments() -> (args: Vec<String>)
    ensures
        views(args@) == seq![
            "kreadconfig6"@,
            "--file"@,
            "kwinrc"@,
            "--group"@,
            "Effect-blur"@,
            "--key"@,
            "BlurStrength"@,
            "--default"@,
            unset_marker(),
        ],
{
    let args = vec![
        String::from_str("kreadconfig6"),
        String::from_str("--file"),
        String::from_str("kwinrc"),
        String::from_str("--group"),
        String::from_str("Effect-blur"),
        String::from_str("--key"),
        String::from_str("BlurStrength"),
        String::from_str("--default"),
        String::from_str(unset_marker_str()),
    ];
    assert(views(args@) =~= seq![
        "kreadconfig6"@,
        "--file"@,
        "kwinrc"@,
        "--group"@,
        "Effect-blur"@,
        "--key"@,
        "BlurStrength"@,
        "--default"@,
        unset_marker(),
    ]);
    args
}

/// The arguments that write `state` to `kwinrc`: its value when it is set explicitly,
/// else a deletion of the key so that KWin's default applies.
pub open spec fn write_arguments_spec(state: KwinBlurState) -> Seq<Seq<char>> {
    seq![
        "kwriteconfig6"@,
        "--file"@,
        "kwinrc"@,
        "--group"@,
        "Effect-blur"@,
        "--key"@,
        "BlurStrength"@,
    ] + if state.explicitly_set {
        seq![signed_decimal(state.value as int)]
    } else {
        seq!["--delete"@, Seq::<char>::empty()]
    }
}

/// The arguments that write `state` to `kwinrc`; see `write_arguments_spec`.
pub fn write_arguments(state: KwinBlurState) -> (args: Vec<String>)
    ensures
        views(args@) == write_arguments_spec(state),
{
    let mut args = vec![
        String::from_str("kwriteconfig6"),
        String::from_str("--file"),
        String::from_str("kwinrc"),
        String::from_str("--group"),
        String::from_str("Effect-blur"),
        String::from_str("--key"),
        String::from_str("BlurStrength"),
    ];
    let ghost head = views(args@);
    if state.explicitly_set {
        let v = signed_decimal_string(state.value);
        let ghost vv = v@;
        args.push(v);
        assert(views(args@) =~= head.push(vv));
    } else {
        let d = String::from_str("--delete");
        let e = String::new();
        let ghost dv = d@;
        let ghost ev = e@;
        args.push(d);
        args.push(e);
        assert(views(args@) =~= head.push(dv).push(ev));
    }
    assert(views(args@) =~= write_arguments_spec(state));
    args
}

/// The arguments that ask KWin to reconfigure its blur effect.
pub fn reload_arguments() -> (args: Vec<String>)
    ensures
        views(args@) == seq![
            "qdbus6"@,
            "org.kde.KWin"@,
            "/Effects"@,
            "org.kde.kwin.Effects.reconfigureEffect"@,
            "blur"@,
        ],
{
    let args = vec![
        String::from_str("qdbus6"),
        String::from_str("org.kde.KWin"),
        String::from_str("/Effects"),
        String::from_str("org.kde.kwin.Effects.reconfigureEffect"),
        String::from_str("blur"),
    ];
    assert(views(args@) =~= seq![
        "qdbus6"@,
        "org.kde.KWin"@,
        "/Effects"@,
        "org.kde.kwin.Effects.reconfigureEffect"@,
        "blur"@,
    ]);
    args
}

/// The arguments that ask KWin whether its blur effect is loaded.
pub fn loaded_query_arguments() -> (args: Vec<String>)
    ensures
        views(args@) == seq![
            "qdbus6"@,
            "org.kde.KWin"@,
            "/Effects"@,
            "org.kde.kwin.Effects.isEffectLoaded"@,
            "blur"@,
        ],
{
    let args = vec![
        String::from_str("qdbus6"),
        String::from_str("org.kde.KWin"),
        String::from_str("/Effects"),
        String::from_str("org.kde.kwin.Effects.isEffectLoaded"),
        String::from_str("blur"),
    ];
    assert(views(args@) =~= seq![
        "qdbus6"@,
        "org.kde.KWin"@,
        "/Effects"@,
        "org.kde.kwin.Effects.isEffectLoaded"@,
        "blur"@,
    ]);
    args
}

/// Whether KWin answered that its blur effect is loaded.
pub fn reports_loaded(output: &str) -> (loaded: bool)
    ensures
        loaded == (trimmed(output@) == "true"@),
{
    str_eq(trim(output), "true")
}

/// What the page writes it reads back: when `kreadconfig6` answers with the strength
/// `write_arguments` wrote for an explicitly set state (give or take white space),
/// `parse_kwin_blur_output` gives that state again.
pub proof fn lemma_written_strength_reads_back(state: KwinBlurState, answer: Seq<char>)
    requires
        state.explicitly_set,
        trimmed(answer) == write_arguments_spec(state).last(),
    ensures
        trimmed(answer) != unset_marker(),
        parsed_i32(trimmed(answer)) == Some(state.value as int),
{
    lemma_signed_decimal_parses(state.value);
    assert(trimmed(answer) == signed_decimal(state.value as int));
    reveal_strlit("mission-center-unset");
    assert(unset_marker()[0] == 'm');
}

/// The prefix of the message for a strength that does not parse.
pub open spec fn invalid_strength_prefix(shown: Seq<char>) -> Seq<char> {
    "Invalid KWin blur strength "@ + debug_quoted(shown) + ": "@
}

/// The state `kreadconfig6` reported: KWin's default when `kwinrc` sets no strength,
/// else the strength it sets; an error when that is not a number.
pub fn parse_kwin_blur_output(output: &str) -> (state: Result<KwinBlurState, String>)
    ensures
        trimmed(output@) == unset_marker() ==> state == Ok::<KwinBlurState, String>(
            KwinBlurState { value: KWIN_BLUR_DEFAULT, explicitly_set: false },
        ),
        trimmed(output@) != unset_marker() ==> (state is Ok <==> parsed_i32(trimmed(output@)) is Some),
        trimmed(output@) != unset_marker() && state is Ok ==> state->Ok_0 == (KwinBlurState {
            value: parsed_i32(trimmed(output@))->0 as i32,
            explicitly_set: true,
        }),
        state is Err ==> state->Err_0@ == invalid_strength_prefix(trimmed(output@))
            + parse_i32_error(trimmed(output@)),
{
    let output = trim(output);
    if str_eq(output, unset_marker_str()) {
        return Ok(KwinBlurState { value: KWIN_BLUR_DEFAULT, explicitly_set: false });
    }
    match parse_i32(output) {
        Ok(value) => Ok(KwinBlurState { value, explicitly_set: true }),
        Err(error) => {
            let mut message = String::from_str("Invalid KWin blur strength ");
            let quoted = debug_quote(output);
            message.append(quoted.as_str());
            message.append(": ");
            let ghost prefix = message@;
            message.append(error.as_str());
            assert(prefix =~= invalid_strength_prefix(output@));
            Err(message)
        },
    }
}

/// What went wrong, and which strength is in effect afterwards, when known.
pub type ApplyError = (Option<KwinBlurState>, String);

/// Where setting a new strength stands.
#[derive(Clone, Debug)]
pub enum BlurApply {
    /// Reading the strength in effect before the change.
    ReadingPrevious { requested: i32, fallback: KwinBlurState },
    /// Writing the new strength.
    Writing { previous: KwinBlurState, state: KwinBlurState },
    /// The write failed; reading back whether the old strength is still in place.
    CheckingRestore { previous: KwinBlurState, error: String },
    /// Asking KWin to apply the new strength.
    Reloading { previous: KwinBlurState, state: KwinBlurState },
    /// Applying failed; writing the old strength back.
    RollingBack { previous: KwinBlurState, error: String },
    /// Asking KWin to apply the old strength again.
    ReloadingRollback { previous: KwinBlurState, error: String },
}

/// What is to be done next.
#[derive(Debug)]
pub enum BlurCommand {
    /// Read the strength from `kwinrc` (`read_arguments`).
    Read,
    /// Write a strength to `kwinrc` (`write_arguments`).
    Write(KwinBlurState),
    /// Ask KWin to reconfigure the effect (`reload_arguments`).
    Reload,
    /// The change is over: the strength now in effect, or what went wrong.
    Finish(Result<KwinBlurState, ApplyError>),
}

/// What a command gave.
#[derive(Debug)]
pub enum BlurOutcome {
    /// The answer to `BlurCommand::Read`.
    Read(Result<KwinBlurState, String>),
    /// The answer to `BlurCommand::Write` or `BlurCommand::Reload`.
    Done(Result<(), String>),
}

/// Whether `outcome` answers the command that led to `step`.
pub open spec fn outcome_fits(step: BlurApply, outcome: BlurOutcome) -> bool {
    match step {
        BlurApply::ReadingPrevious { .. } | BlurApply::CheckingRestore { .. } => outcome is Read,
        _ => outcome is Done,
    }
}

/// Every state a step is about to write or apply is set explicitly and lies in the
/// offered range.
pub open spec fn step_wf(step: BlurApply) -> bool {
    match step {
        BlurApply::Writing { state, .. } | BlurApply::Reloading { state, .. } => state.explicitly_set
            && KWIN_BLUR_MIN <= state.value <= KWIN_BLUR_MAX,
        _ => true,
    }
}

/// Starts setting the strength to `value`; `fallback` is what the page believed to be
/// in effect. The first command reads the strength in effect.
pub fn start_apply(value: i32, fallback: KwinBlurState) -> (started: (BlurApply, BlurCommand))
    ensures
        started.0 == (BlurApply::ReadingPrevious { requested: value, fallback }),
        started.1 is Read,
{
    (BlurApply::ReadingPrevious { requested: value, fallback }, BlurCommand::Read)
}

/// `error` and then `rollback` as one message.
pub open spec fn rollback_failed_message(error: Seq<char>, rollback: Seq<char>) -> Seq<char> {
    error + "; rollback failed: "@ + rollback
}

fn rollback_failed(error: &String, rollback: &String) -> (m: String)
    ensures
        m@ == rollback_failed_message(error@, rollback@),
{
    let mut m = joined(error.as_str(), "; rollback failed: ");
    m.append(rollback.as_str());
    m
}

/// Takes the change one step on: given where it stands and what the last command
/// gave, where it stands next (none once it is over) and the next command.
///
/// - The strength in effect before could not be read: the change ends with that
///   error, and the page keeps what it believed.
/// - Otherwise the requested strength, brought into range, is written.
/// - A failed write ends with its error; the old strength is reported in effect only
///   when reading back shows it unchanged.
/// - A successful write is applied; when applying succeeds the change ends with the
///   new strength.
/// - When applying fails the old strength is written back and applied. If that
///   works the change ends with the error and the old strength in effect; if not, with
///   both errors and no known strength.
pub fn advance(step: BlurApply, outcome: BlurOutcome) -> (next: (Option<BlurApply>, BlurCommand))
    requires
        outcome_fits(step, outcome),
        step_wf(step),
    ensures
        next.0 is Some ==> step_wf(next.0->0),
        next.0 is Some <==> !(next.1 is Finish),
        next.1 matches BlurCommand::Finish(Ok(s)) ==> s.explicitly_set && KWIN_BLUR_MIN <= s.value
            <= KWIN_BLUR_MAX,
        match (step, outcome) {
            (BlurApply::ReadingPrevious { requested, fallback }, BlurOutcome::Read(Err(e))) => {
                next.0 is None && next.1 == BlurCommand::Finish(Err((Some(fallback), e)))
            },
            (BlurApply::ReadingPrevious { requested, fallback }, BlurOutcome::Read(Ok(previous))) => {
                let state = KwinBlurState {
                    value: clamped_strength(requested as int) as i32,
                    explicitly_set: true,
                };
                next.0 == Some(BlurApply::Writing { previous, state }) && next.1
                    == BlurCommand::Write(state)
            },
            (BlurApply::Writing { previous, state }, BlurOutcome::Done(Ok(()))) => {
                next.0 == Some(BlurApply::Reloading { previous, state }) && next.1 is Reload
            },
            (BlurApply::Writing { previous, state }, BlurOutcome::Done(Err(e))) => {
                next.0 == Some(BlurApply::CheckingRestore { previous, error: e }) && next.1 is Read
            },
            (BlurApply::CheckingRestore { previous, error }, BlurOutcome::Read(current)) => {
                next.0 is None && next.1 == BlurCommand::Finish(
                    Err(
                        (
                            if current == Ok::<KwinBlurState, String>(previous) {
                                Some(previous)
                            } else {
                                None
                            },
                            error,
                        ),
                    ),
                )
            },
            (BlurApply::Reloading { previous, state }, BlurOutcome::Done(Ok(()))) => {
                next.0 is None && next.1 == BlurCommand::Finish(Ok(state))
            },
            (BlurApply::Reloading { previous, state }, BlurOutcome::Done(Err(e))) => {
                next.0 == Some(BlurApply::RollingBack { previous, error: e }) && next.1
                    == BlurCommand::Write(previous)
            },
            (BlurApply::RollingBack { previous, error }, BlurOutcome::Done(Ok(()))) => {
                next.0 == Some(BlurApply::ReloadingRollback { previous, error }) && next.1 is Reload
            },
            (BlurApply::RollingBack { previous, error }, BlurOutcome::Done(Err(r))) => {
                next.0 is None && (next.1 matches BlurCommand::Finish(Err((None, m))) && m@
                    == rollback_failed_message(error@, r@))
            },
            (BlurApply::ReloadingRollback { previous, error }, BlurOutcome::Done(Ok(()))) => {
                next.0 is None && next.1 == BlurCommand::Finish(Err((Some(previous), error)))
            },
            (BlurApply::ReloadingRollback { previous, error }, BlurOutcome::Done(Err(r))) => {
                next.0 is None && (next.1 matches BlurCommand::Finish(Err((None, m))) && m@
                    == rollback_failed_message(error@, r@))
            },
            _ => false,
        },
{
    match (step, outcome) {
        (BlurApply::ReadingPrevious { requested, fallback }, BlurOutcome::Read(read)) => {
            match read {
                Err(e) => (None, BlurCommand::Finish(Err((Some(fallback), e)))),
                Ok(previous) => {
                    let state = KwinBlurState {
                        value: clamp_strength(requested),
                        explicitly_set: true,
                    };
                    (Some(BlurApply::Writing { previous, state }), BlurCommand::Write(state))
                },
            }
        },
        (BlurApply::Writing { previous, state }, BlurOutcome::Done(done)) => {
            match done {
                Ok(()) => (Some(BlurApply::Reloading { previous, state }), BlurCommand::Reload),
                Err(e) => (Some(BlurApply::CheckingRestore { previous, error: e }), BlurCommand::Read),
            }
        },
        (BlurApply::CheckingRestore { previous, error }, BlurOutcome::Read(current)) => {
            let restored = match current {
                Ok(c) => c == previous,
                Err(_) => false,
            };
            let known = if restored {
                Some(previous)
            } else {
                None
            };
            (None, BlurCommand::Finish(Err((known, error))))
        },
        (BlurApply::Reloading { previous, state }, BlurOutcome::Done(done)) => {
            match done {
                Ok(()) => (None, BlurCommand::Finish(Ok(state))),
                Err(e) => (
                    Some(BlurApply::RollingBack { previous, error: e }),
                    BlurCommand::Write(previous),
                ),
            }
        },
        (BlurApply::RollingBack { previous, error }, BlurOutcome::Done(done)) => {
            match done {
                Ok(()) => (Some(BlurApply::ReloadingRollback { previous, error }), BlurCommand::Reload),
                Err(r) => {
                    let m = rollback_failed(&error, &r);
                    (None, BlurCommand::Finish(Err((None, m))))
                },
            }
        },
        (BlurApply::ReloadingRollback { previous, error }, BlurOutcome::Done(done)) => {
            match done {
                Ok(()) => (None, BlurCommand::Finish(Err((Some(previous), error)))),
                Err(r) => {
                    let m = rollback_failed(&error, &r);
                    (None, BlurCommand::Finish(Err((None, m))))
                },
            }
        },
        (BlurApply::ReadingPrevious { .. }, BlurOutcome::Done(_)) => {
            proof {
                assert(false);
            }
            (None, BlurCommand::Read)
        },
        (BlurApply::CheckingRestore { .. }, BlurOutcome::Done(_)) => {
            proof {
                assert(false);
            }
            (None, BlurCommand::Read)
        },
        (_, BlurOutcome::Read(_)) => {
            proof {
                assert(false);
            }
            (None, BlurCommand::Read)
        },
    }
}

/// The five acrylic presets of the appearance page, each as tint, noise, highlight,
/// shadow and divider opacity in percent.
pub open spec fn preset_values(i: int) -> Seq<i32> {
    if i == 0 {
        seq![20, 3, 5, 2, 8]
    } else if i == 1 {
        seq![46, 8, 9, 6, 13]
    } else if i == 2 {
        seq![68, 14, 13, 9, 18]
    } else {
        seq![100, 0, 0, 0, 20]
    }
}

/// Number of presets; the preset list shows one more entry, "Custom".
pub const PRESET_COUNT: usize = 4;

/// The opacities of preset `i`.
pub fn preset(i: usize) -> (values: [i32; 5])
    requires
        i < 4,
    ensures
        values@ == preset_values(i as int),
{
    let v: [i32; 5] = if i == 0 {
        [20, 3, 5, 2, 8]
    } else if i == 1 {
        [46, 8, 9, 6, 13]
    } else if i == 2 {
        [68, 14, 13, 9, 18]
    } else {
        [100, 0, 0, 0, 20]
    };
    assert(v@ =~= preset_values(i as int));
    v
}

/// The entry the preset list selects for the opacities `values`: the first preset
/// that has exactly these values, else "Custom" (entry 4).
pub fn preset_index(values: [i32; 5]) -> (index: u32)
    ensures
        index <= 4,
        index < 4 ==> preset_values(index as int) == values@ && forall|j: int|
            0 <= j < index ==> preset_values(j) != values@,
        index == 4 ==> forall|j: int| 0 <= j < 4 ==> preset_values(j) != values@,
{
    let mut i: usize = 0;
    while i < PRESET_COUNT
        invariant
            i <= 4,
            forall|j: int| 0 <= j < i ==> preset_values(j) != values@,
        decreases 4 - i,
    {
        let p = preset(i);
        if p[0] == values[0] && p[1] == values[1] && p[2] == values[2] && p[3] == values[3]
            && p[4] == values[4] {
            assert(p@ =~= values@);
            return i as u32;
        }
        assert(p@[0] != values@[0] || p@[1] != values@[1] || p@[2] != values@[2] || p@[3]
            != values@[3] || p@[4] != values@[4]);
        i += 1;
    }
    4
}

/// Whether a refresh of the KWin blur row may start now: one was asked for, and no
/// change is being applied, waiting, or refreshed already.
pub fn refresh_may_start(
    requested: bool,
    applying: bool,
    pending: bool,
    refreshing: bool,
) -> (start: bool)
    ensures
        start == (requested && !applying && !pending && !refreshing),
{
    requested && !applying && !pending && !refreshing
}

/// An acrylic opacity setting brought into 0..=100 percent.
pub fn clamp_percent(v: i32) -> (p: i32)
    ensures
        0 <= p <= 100,
        p == (if v < 0 {
            0
        } else if v > 100 {
            100
        } else {
            v as int
        }),
{
    if v < 0 {
        0
    } else if v > 100 {
        100
    } else {
        v
    }
}

/// What became of a helper program, as the result the page works with: its output
/// when it exited successfully, else a message that names what went wrong.
pub open spec fn command_result_spec(
    program: Seq<char>,
    signaled: bool,
    term_sig: i32,
    exited: bool,
    successful: bool,
    exit_status: i32,
    stdout: Option<Seq<char>>,
    stderr: Option<Seq<char>>,
) -> Result<Seq<char>, Seq<char>> {
    if signaled {
        Err(program + " terminated by signal "@ + signed_decimal(term_sig as int))
    } else if !exited {
        Err(program + " did not exit normally"@)
    } else if !successful {
        let err = match stderr {
            Some(e) => trimmed(e),
            None => trimmed(Seq::empty()),
        };
        if err.len() == 0 {
            Err(program + " exited with status "@ + signed_decimal(exit_status as int))
        } else {
            Err(err)
        }
    } else {
        Ok(
            match stdout {
                Some(o) => o,
                None => Seq::empty(),
            },
        )
    }
}

/// The result of a helper program; see `command_result_spec`.
pub fn command_result(
    program: &str,
    signaled: bool,
    term_sig: i32,
    exited: bool,
    successful: bool,
    exit_status: i32,
    stdout: Option<String>,
    stderr: Option<String>,
) -> (result: Result<String, String>)
    ensures
        match (
            result,
            command_result_spec(
                program@,
                signaled,
                term_sig,
                exited,
                successful,
                exit_status,
                match stdout {
                    Some(s) => Some(s@),
                    None => None,
                },
                match stderr {
                    Some(s) => Some(s@),
                    None => None,
                },
            ),
        ) {
            (Ok(a), Ok(b)) => a@ == b,
            (Err(a), Err(b)) => a@ == b,
            _ => false,
        },
{
    if signaled {
        let mut m = joined(program, " terminated by signal ");
        let n = signed_decimal_string(term_sig);
        m.append(n.as_str());
        return Err(m);
    }
    if !exited {
        return Err(joined(program, " did not exit normally"));
    }
    if !successful {
        let raw = match stderr {
            Some(e) => e,
            None => String::new(),
        };
        let err = trim(raw.as_str());
        if err.unicode_len() == 0 {
            let mut m = joined(program, " exited with status ");
            let n = signed_decimal_string(exit_status);
            m.append(n.as_str());
            return Err(m);
        }
        return Err(String::from_str(err));
    }
    match stdout {
        Some(o) => Ok(o),
        None => Ok(String::new()),
    }
}

/// A helper program's output counts only when it exited normally with success, and
/// then it is what it printed (nothing when it printed nothing). Otherwise the error
/// names the program when it was killed by a signal or did not exit normally, and
/// when it failed it is what it printed on its error stream, trimmed, or, when that
/// is empty, a message naming the program and its status.
pub proof fn lemma_command_result(
    program: Seq<char>,
    signaled: bool,
    term_sig: i32,
    exited: bool,
    successful: bool,
    exit_status: i32,
    stdout: Option<Seq<char>>,
    stderr: Option<Seq<char>>,
)
    ensures
        ({
            let r = command_result_spec(program, signaled, term_sig, exited, successful, exit_status, stdout, stderr);
            let err = match stderr {
                Some(e) => trimmed(e),
                None => Seq::<char>::empty(),
            };
            &&& r is Ok <==> (!signaled && exited && successful)
            &&& r is Ok && stdout is Some ==> r->Ok_0 == stdout->0
            &&& r is Ok && stdout is None ==> r->Ok_0.len() == 0
            &&& signaled ==> program.is_prefix_of(r->Err_0)
            &&& !signaled && !exited ==> program.is_prefix_of(r->Err_0)
            &&& !signaled && exited && !successful && err.len() > 0 ==> r->Err_0 == err
            &&& !signaled && exited && !successful && err.len() == 0 ==> program.is_prefix_of(r->Err_0)
        }),
{
    let r = command_result_spec(program, signaled, term_sig, exited, successful, exit_status, stdout, stderr);
    if signaled {
        assert(r->Err_0 =~= program + (" terminated by signal "@ + signed_decimal(term_sig as int)));
    } else if !exited {
        assert(r->Err_0 =~= program + " did not exit normally"@);
    } else if !successful {
        if stderr is None {
            assert(trimmed(Seq::<char>::empty()) =~= Seq::<char>::empty());
        }
        let e = match stderr {
            Some(e) => trimmed(e),
            None => trimmed(Seq::empty()),
        };
        if e.len() == 0 {
            assert(r->Err_0 =~= program + (" exited with status "@ + signed_decimal(exit_status as int)));
        }
    }
}

} // verus!
