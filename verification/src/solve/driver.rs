//! A solve: what is done about each failure in an environment, what becomes of the
//! manifest when the environment is done, and what the user is told.
use crate::solve::audit::{
    add_set_in, set_in, suggested_manifest, ClashView, RetreadMutuallyUnsatisfiable,
};
use crate::solve::document::is_sound;
use crate::solve::error::{
    code_of, message_of, EXIT_EXHAUSTED, EXIT_INTERRUPTED, EXIT_MAX_ITERS, EXIT_OK,
    EXIT_SMOKE_FAILED, EXIT_UNPARSEABLE, ErrorView, SolveError,
};
use crate::solve::ladder::{repair_step, LadderView, PlanView};
use crate::solve::ledger::{
    add_attempts, append_attempt, differ_at_most_in, finished, law_attempt_is_recorded_last,
    law_attempts_are_recorded_in_order, law_outcome_is_the_runs_own, law_strategy_names_round_trip,
    mark_last_widen_failed, strategy_name, strategy_named, widen_failed, with_attempt,
    with_attempts, with_run, AttemptView, LedgerAttempt, LedgerView, RelaxPreference, RevertedEdit,
    RunView, SolveLedger, Strategy, TriedState,
};
use crate::solve::lock::without_colours;
use crate::solve::manifest::ManifestEditor;
use crate::solve::parse::{
    is_conda_unsat, parsed_conflict, tail, tail_of, Conflict, ConflictParser, ConflictView,
    RegexConflictParser,
};
use crate::solve::ranges::{can_widen, widenable};
use crate::solve::repair::{
    OutcomeView, PackOverrideWrite, RepairOutcome, RepairPlanner, WriteView,
};
use crate::solve::session::{
    orders_undone, pending_of, undo_refused, undone, PendingEdit, PendingView,
};
use crate::solve::workspace::{
    find_key, is_first_with, law_first_pair_counts, lookup, Facts, WorkspaceManifest, WorkspaceView,
};
use crate::text::{
    contains, decimal, decimal_text, join, joined, line_pieces, lines, occurs, push_view,
    same_name, split_whitespace, text_eq, trim_end, trimmed_end, words,
};
use vstd::prelude::*;

verus! {

broadcast use vstd::seq_lib::group_seq_properties;

// ---------------------------------------------------------------------------
// Before the first round
// ---------------------------------------------------------------------------

/// The environments to solve: those that were asked for, or the default one.
pub open spec fn environments_of(asked: Seq<Seq<char>>) -> Seq<Option<Seq<char>>> {
    if asked.len() == 0 {
        seq![None]
    } else {
        asked.map_values(|e: Seq<char>| Some(e))
    }
}

/// The environments to solve: those that were asked for, or the default one.
pub fn requested_environments(asked: &Vec<String>) -> (r: Vec<Option<String>>)
    ensures
        r.deep_view() == environments_of(asked.deep_view()),
{
    let mut out: Vec<Option<String>> = Vec::new();
    if asked.len() == 0 {
        out.push(None);
        assert(out.deep_view() =~= seq![None]);
        return out;
    }
    let ghost all = asked.deep_view();
    let n: usize = asked.len();
    let mut i: usize = 0;
    assert(out.deep_view() =~= all.take(0).map_values(|e: Seq<char>| Some(e)));
    while i < n
        invariant
            i <= n,
            n == asked@.len(),
            all == asked.deep_view(),
            out.deep_view() == all.take(i as int).map_values(|e: Seq<char>| Some(e)),
        decreases n - i,
    {
        assert(all[i as int] == asked@[i as int].deep_view());
        push_view(&mut out, Some(asked[i].clone()));
        assert(out.deep_view() =~= all.take(i + 1).map_values(|e: Seq<char>| Some(e)));
        i = i + 1;
    }
    assert(all.take(n as int) =~= all);
    out
}

/// The one feature of an environment that leaves the top-level tables out.
pub open spec fn sole_feature(ws: Option<WorkspaceView>, env: Option<Seq<char>>) -> Option<
    Seq<char>,
> {
    match (ws, env) {
        (Some(w), Some(name)) => match lookup(w.environments, name) {
            Some(def) => if def.no_default_feature && def.features.len() == 1 {
                Some(def.features[0])
            } else {
                None
            },
            None => None,
        },
        _ => None,
    }
}

/// The feature that repairs go to: the one that was asked for, or the only one of
/// the environment where it composes no other, or the top-level tables.
pub open spec fn target_feature(
    ws: Option<WorkspaceView>,
    env: Option<Seq<char>>,
    explicit: Option<Seq<char>>,
) -> Seq<char> {
    match explicit {
        Some(feature) => feature,
        None => match sole_feature(ws, env) {
            Some(feature) => feature,
            None => "default"@,
        },
    }
}

/// What the user is told of the choice.
pub open spec fn target_note(
    ws: Option<WorkspaceView>,
    env: Option<Seq<char>>,
    explicit: Option<Seq<char>>,
) -> Option<Seq<char>> {
    match (explicit, env) {
        (None, Some(name)) => Some(
            match sole_feature(ws, env) {
                Some(feature) => "retread solve: targeting feature "@ + feature + " for env "@
                    + name,
                None =>
                    "retread solve: default-feature pins re-solve all environments; use --feature for scoped repair when possible"@,
            },
        ),
        _ => None,
    }
}

fn find_sole_feature(ws: Option<&WorkspaceManifest>, env: Option<&str>) -> (r: Option<String>)
    ensures
        r.deep_view() == sole_feature(ws.deep_view(), env.deep_view()),
{
    let w: &WorkspaceManifest = match ws {
        Some(w) => w,
        None => {
            return None;
        },
    };
    let name: &str = match env {
        Some(name) => name,
        None => {
            return None;
        },
    };
    match find_key(&w.environments, name) {
        Some(i) => {
            let def = &w.environments[i].1;
            assert(def.features.deep_view().len() == def.features@.len());
            if def.no_default_feature && def.features.len() == 1 {
                assert(def.features.deep_view()[0] == def.features@[0].deep_view());
                Some(def.features[0].clone())
            } else {
                None
            }
        },
        None => None,
    }
}

/// The feature that repairs go to: the one that was asked for, or the only one of
/// the environment where it composes no other, or the top-level tables.
pub fn resolve_feature(
    ws: Option<&WorkspaceManifest>,
    env: Option<&str>,
    explicit: Option<&str>,
) -> (r: String)
    ensures
        r@ == target_feature(ws.deep_view(), env.deep_view(), explicit.deep_view()),
{
    match explicit {
        Some(feature) => feature.to_owned(),
        None => match find_sole_feature(ws, env) {
            Some(feature) => feature,
            None => "default".to_owned(),
        },
    }
}

/// What the user is told of the feature that repairs go to.
pub fn feature_note(
    ws: Option<&WorkspaceManifest>,
    env: Option<&str>,
    explicit: Option<&str>,
) -> (r: Option<String>)
    ensures
        r.deep_view() == target_note(ws.deep_view(), env.deep_view(), explicit.deep_view()),
{
    if explicit.is_some() {
        return None;
    }
    match env {
        Some(name) => match find_sole_feature(ws, env) {
            Some(feature) => {
                let mut s: String = "retread solve: targeting feature ".to_owned();
                s.append(&feature);
                s.append(" for env ");
                s.append(name);
                Some(s)
            },
            None => Some(
                "retread solve: default-feature pins re-solve all environments; use --feature for scoped repair when possible".to_owned(),
            ),
        },
        None => None,
    }
}

/// Whether the messages of a release of `pixi` are known.
pub open spec fn is_calibrated(version: Seq<char>) -> bool {
    occurs(version, "0.70"@)
}

/// What the user is told where the messages of the release are not known.
pub fn calibration_warning(version: Option<&str>) -> (r: Option<String>)
    ensures
        r.deep_view() == match version {
            Some(v) => if is_calibrated(v@) {
                None
            } else {
                Some(
                    "retread solve: parser calibrated for pixi 0.70.x; running against "@ + v@
                        + " -- conflict parsing may fail (exit 2). Capture fixtures and extend CALIBRATED."@,
                )
            },
            None => None,
        },
{
    let v: &str = match version {
        Some(v) => v,
        None => {
            return None;
        },
    };
    let known = RegexConflictParser::calibrated();
    assert(known.deep_view()[0] == "0.70"@);
    assert(known.deep_view().len() == known@.len());
    if contains(v, known[0]) {
        return None;
    }
    let mut s: String =
        "retread solve: parser calibrated for pixi 0.70.x; running against ".to_owned();
    s.append(v);
    s.append(
        " -- conflict parsing may fail (exit 2). Capture fixtures and extend CALIBRATED.",
    );
    Some(s)
}

/// Which of the two a repair relaxes first: what the command line says, or else
/// what the manifest does.
pub fn preference(prefer_pypi: bool, configured: &str) -> (r: RelaxPreference)
    ensures
        r == if prefer_pypi || same_name(configured@, "pypi"@) {
            RelaxPreference::Pypi
        } else {
            RelaxPreference::Conda
        },
{
    if prefer_pypi {
        RelaxPreference::Pypi
    } else {
        RelaxPreference::from_config_str(configured)
    }
}

/// What the user is told when a round begins.
pub open spec fn round_line(iter: u32, max_iters: u32, env: Option<Seq<char>>) -> Seq<char> {
    "retread solve: pixi install iteration "@ + decimal(iter as nat) + "/"@ + decimal(
        max_iters as nat,
    ) + match env {
        Some(name) => " ("@ + name + ")"@,
        None => ""@,
    }
}

/// What the user is told when a round begins.
pub fn describe_round(iter: u32, max_iters: u32, env: Option<&str>) -> (r: String)
    ensures
        r@ == round_line(iter, max_iters, env.deep_view()),
{
    let mut s: String = "retread solve: pixi install iteration ".to_owned();
    s.append(&decimal_text(iter as u64));
    s.append("/");
    s.append(&decimal_text(max_iters as u64));
    let mut place: String = "".to_owned();
    match env {
        Some(name) => {
            place = " (".to_owned();
            place.append(name);
            place.append(")");
        },
        None => {},
    }
    s.append(&place);
    s
}

/// A text with one space for each run of white space, and none at its ends.
pub fn collapse_diagnostic_whitespace(value: &str) -> (r: String)
    ensures
        r@ == joined(words(value@), " "@),
{
    join(&split_whitespace(value), " ")
}

// ---------------------------------------------------------------------------
// The rounds in one environment
// ---------------------------------------------------------------------------

/// What is to be done after a round: write the manifest, record an override with the
/// kind of conflict that it answers, tell the user, and end with an exit code or a
/// failure or go on.
#[derive(Debug)]
pub struct EnvStep {
    pub write_manifest: bool,
    pub pack_override: Option<(PackOverrideWrite, String)>,
    pub lines: Vec<String>,
    pub end: Option<SolveError>,
}

/// What an `EnvStep` says.
#[verifier::ext_equal]
pub struct EnvStepView {
    pub write_manifest: bool,
    pub pack_override: Option<(WriteView, Seq<char>)>,
    pub lines: Seq<Seq<char>>,
    pub end: Option<ErrorView>,
}

impl DeepView for EnvStep {
    type V = EnvStepView;

    open spec fn deep_view(&self) -> EnvStepView {
        EnvStepView {
            write_manifest: self.write_manifest,
            pack_override: self.pack_override.deep_view(),
            lines: self.lines.deep_view(),
            end: self.end.deep_view(),
        }
    }
}

/// What the rounds in an environment change.
#[verifier::ext_equal]
pub struct EnvView {
    pub ladder: LadderView,
    pub failed: Set<(Seq<char>, Strategy)>,
    pub ledger: LedgerView,
    pub pending: Option<PendingView>,
}

/// The ledger with the attempts of a repair, where the run is recorded.
pub open spec fn noted(
    l: LedgerView,
    run_idx: Option<int>,
    extra: Seq<AttemptView>,
    attempt: AttemptView,
) -> LedgerView {
    match run_idx {
        Some(idx) => with_attempt(with_attempts(l, idx, extra), idx, attempt),
        None => l,
    }
}

/// A run with an edit that was taken back.
pub open spec fn edit_reverted(r: RunView, p: PendingView) -> RunView {
    RunView {
        kept_pins: Some(
            if r.attempts.len() > 0 {
                (r.attempts.len() - 1) as usize
            } else {
                0
            },
        ),
        reverted: r.reverted.push((p.package, strategy_name(p.strategy))),
        ..r
    }
}

/// What a round comes to whose failure is a known conflict.
pub open spec fn env_conflict(
    plan: PlanView,
    v: EnvView,
    run_idx: Option<int>,
    file: Seq<char>,
    c: ConflictView,
    iter: u32,
) -> (EnvView, EnvStepView) {
    let (after, out) = repair_step(plan, v.ladder, c, iter);
    match out {
        Ok(o) => (
            EnvView {
                ladder: after,
                ledger: noted(v.ledger, run_idx, o.extra_attempts, o.attempt),
                pending: pending_of(o.applied),
                ..v
            },
            EnvStepView {
                write_manifest: true,
                pack_override: match o.pack_override {
                    Some(w) => Some((w, o.attempt.conflict)),
                    None => None,
                },
                lines: seq!["WARNING: editing "@ + file + " now: "@ + o.summary_line],
                end: None,
            },
        ),
        Err(package) => (
            EnvView { ladder: after, ..v },
            EnvStepView {
                write_manifest: false,
                pack_override: None,
                lines: Seq::empty(),
                end: Some(ErrorView::Exhausted { package }),
            },
        ),
    }
}

/// The state with the last edits taken back.
pub open spec fn env_taken_back(v: EnvView, p: PendingView) -> EnvView {
    EnvView {
        ladder: LadderView {
            nodes: undone(v.ladder.nodes, p.edits),
            orders: orders_undone(v.ladder.nodes, v.ladder.orders, p.edits),
            refused: v.ladder.refused || undo_refused(v.ladder.nodes, p.edits),
            ..v.ladder
        },
        pending: None,
        ..v
    }
}

/// The round after a widening with which the failure cannot be read: it is taken
/// back, and counts as failed.
pub open spec fn env_unwidened(v: EnvView, run_idx: Option<int>, p: PendingView, unsat: bool) -> (
    EnvView,
    EnvStepView,
) {
    let back = env_taken_back(v, p);
    let pair = (p.package, Strategy::WidenConda);
    (
        EnvView {
            ladder: LadderView { tried: back.ladder.tried.insert(pair), ..back.ladder },
            failed: v.failed.insert(pair),
            ledger: match run_idx {
                Some(idx) => with_run(v.ledger, idx, |r: RunView| widen_failed(r, p.package)),
                None => v.ledger,
            },
            ..back
        },
        EnvStepView {
            write_manifest: true,
            pack_override: None,
            lines: if unsat {
                seq![
                    "retread solve: post-widen conda unsat for "@ + p.package
                        + "; reverting only that widen"@,
                ]
            } else {
                Seq::empty()
            },
            end: None,
        },
    )
}

/// The end of the rounds where the failure cannot be read.
pub open spec fn env_unreadable(write_manifest: bool, raw: Seq<char>) -> EnvStepView {
    EnvStepView {
        write_manifest,
        pack_override: None,
        lines: seq![
            "retread solve: could not parse solver error; manifest restored"@,
            tail_of(raw, 4000),
        ],
        end: Some(ErrorView::Unparseable { stderr_tail: tail_of(raw, 4000) }),
    }
}

/// What a round comes to whose failure is of no known shape.
pub open spec fn env_lost(v: EnvView, run_idx: Option<int>, unsat: bool, raw: Seq<char>) -> (
    EnvView,
    EnvStepView,
) {
    match v.pending {
        Some(p) => if p.strategy == Strategy::WidenConda {
            env_unwidened(v, run_idx, p, unsat)
        } else {
            (
                EnvView {
                    ledger: match run_idx {
                        Some(idx) => with_run(v.ledger, idx, |r: RunView| edit_reverted(r, p)),
                        None => v.ledger,
                    },
                    ..env_taken_back(v, p)
                },
                env_unreadable(true, raw),
            )
        },
        None => (v, env_unreadable(false, raw)),
    }
}

/// The end of the rounds where requirements of a pack cannot be met together.
pub open spec fn clash_refused(c: ClashView) -> EnvStepView {
    EnvStepView {
        write_manifest: false,
        pack_override: None,
        lines: seq![
            "retread solve: the backend supplied a ledger relaxation for `"@ + c.package
                + "`; --edit-manifest will not translate it into a pixi.toml edit"@,
            "proposed relaxation for "@ + suggested_manifest(c.suggestion) + " (not applied):"@,
        ] + set_in(line_pieces(trimmed_end(c.relaxation)), "  "@) + seq![
            "rerun without --edit-manifest for a read-only audit, or use --apply-ledger to persist the proposal"@,
        ],
        end: Some(ErrorView::Exhausted { package: c.package }),
    }
}

/// What is done about a round that failed.
#[derive(Debug, Clone, Copy, PartialEq, Eq, Structural)]
pub enum FailedRound {
    /// A clash within a pack is told, and ends the environment.
    Refuse,
    /// It is told what a repair would do.
    Preview,
    /// The conflict is repaired, once there is a copy of the manifest.
    Repair,
    /// What the message says is not known.
    Lost,
}

/// What is done about a round that failed, on what was read of its message.
pub fn failed_round(
    dry_run: bool,
    clash: &Option<RetreadMutuallyUnsatisfiable>,
    conflict: &Option<Conflict>,
) -> (r: FailedRound)
    ensures
        r == if clash is Some {
            FailedRound::Refuse
        } else if conflict is None {
            FailedRound::Lost
        } else if dry_run {
            FailedRound::Preview
        } else {
            FailedRound::Repair
        },
{
    if clash.is_some() {
        FailedRound::Refuse
    } else if conflict.is_none() {
        FailedRound::Lost
    } else if dry_run {
        FailedRound::Preview
    } else {
        FailedRound::Repair
    }
}

/// What a failed round comes to.
pub open spec fn env_round(
    plan: PlanView,
    v: EnvView,
    run_idx: Option<int>,
    file: Seq<char>,
    conflict: Option<ConflictView>,
    unsat: bool,
    raw: Seq<char>,
    iter: u32,
) -> (EnvView, EnvStepView) {
    match conflict {
        Some(c) => env_conflict(plan, v, run_idx, file, c, iter),
        None => env_lost(v, run_idx, unsat, raw),
    }
}

/// The rounds in one environment. What they share with those in others is handed
/// to each.
pub struct EnvRun {
    pub planner: RepairPlanner,
    pub pending: Option<PendingEdit>,
    pub run_idx: Option<usize>,
    /// How many rounds have begun.
    pub rounds: u32,
}

/// The place of a run in the ledger.
pub open spec fn place(run_idx: Option<usize>) -> Option<int> {
    match run_idx {
        Some(idx) => Some(idx as int),
        None => None,
    }
}

impl EnvRun {
    /// What the rounds change.
    pub open spec fn view(&self, editor: ManifestEditor, tried: TriedState, ledger: SolveLedger) -> EnvView {
        EnvView {
            ladder: self.planner.ladder(editor, tried),
            failed: tried.failed_set(),
            ledger: ledger.deep_view(),
            pending: self.pending.deep_view(),
        }
    }

    /// Whether the rounds are set up as others were.
    pub open spec fn same_setup(&self, other: EnvRun) -> bool {
        &&& other.planner.feature@ == self.planner.feature@
        &&& other.planner.ceiling_policy == self.planner.ceiling_policy
        &&& other.planner.relax_preference == self.planner.relax_preference
        &&& other.planner.names() == self.planner.names()
        &&& other.run_idx == self.run_idx
        &&& other.rounds == self.rounds
    }

    /// An environment before its first round.
    pub fn new(planner: RepairPlanner, run_idx: Option<usize>) -> (r: Self)
        ensures
            r.planner == planner,
            r.pending is None,
            r.run_idx == run_idx,
            r.rounds == 0,
    {
        EnvRun { planner, pending: None, run_idx, rounds: 0 }
    }

    /// Begins a round. Where none is left, the failure that ends the environment.
    pub fn begin_round(&mut self, max_iters: u32) -> (r: Option<SolveError>)
        ensures
            match r {
                None => old(self).rounds < max_iters && final(self).rounds == old(self).rounds + 1,
                Some(e) => old(self).rounds >= max_iters && e.deep_view() == ErrorView::MaxIters(
                    max_iters,
                ) && final(self).rounds == old(self).rounds,
            },
            final(self).planner == old(self).planner,
            final(self).pending == old(self).pending,
            final(self).run_idx == old(self).run_idx,
    {
        if self.rounds >= max_iters {
            return Some(SolveError::MaxIters(max_iters));
        }
        self.rounds = self.rounds + 1;
        None
    }

    /// Ends the environment on requirements of a pack that cannot be met together. The
    /// manifest cannot settle them: what would is told, and nothing is changed.
    pub fn refuse_clash(&self, clash: &RetreadMutuallyUnsatisfiable) -> (r: EnvStep)
        ensures
            r.deep_view() == clash_refused(clash.deep_view()),
    {
        let relaxation = lines(&trim_end(&clash.relaxation));
        let mut lines: Vec<String> = Vec::new();
        assert(lines.deep_view() =~= Seq::<Seq<char>>::empty());
        let mut first: String = "retread solve: the backend supplied a ledger relaxation for `"
            .to_owned();
        first.append(&clash.package);
        first.append("`; --edit-manifest will not translate it into a pixi.toml edit");
        push_view(&mut lines, first);
        let mut second: String = "proposed relaxation for ".to_owned();
        second.append(clash.suggestion.pack_manifest());
        second.append(" (not applied):");
        push_view(&mut lines, second);
        add_set_in(&mut lines, &relaxation, "  ");
        push_view(
            &mut lines,
            "rerun without --edit-manifest for a read-only audit, or use --apply-ledger to persist the proposal"
                .to_owned(),
        );
        assert(lines.deep_view() =~= clash_refused(clash.deep_view()).lines);
        EnvStep {
            write_manifest: false,
            pack_override: None,
            lines,
            end: Some(SolveError::Exhausted { package: clash.package.clone() }),
        }
    }

    fn take_outcome(&mut self, file: &str, ledger: &mut SolveLedger, out: RepairOutcome) -> (r:
        EnvStep)
        ensures
            final(self).planner == old(self).planner,
            final(self).run_idx == old(self).run_idx,
            final(self).rounds == old(self).rounds,
            final(self).pending.deep_view() == pending_of(out.deep_view().applied),
            final(ledger).deep_view() == noted(
                old(ledger).deep_view(),
                place(old(self).run_idx),
                out.deep_view().extra_attempts,
                out.deep_view().attempt,
            ),
            r.deep_view() == (EnvStepView {
                write_manifest: true,
                pack_override: match out.deep_view().pack_override {
                    Some(w) => Some((w, out.deep_view().attempt.conflict)),
                    None => None,
                },
                lines: seq!["WARNING: editing "@ + file@ + " now: "@ + out.deep_view().summary_line],
                end: None,
            }),
    {
        let RepairOutcome { attempt, extra_attempts, applied, summary_line, pack_override } = out;
        let mut line: String = "WARNING: editing ".to_owned();
        line.append(file);
        line.append(" now: ");
        line.append(&summary_line);
        let ghost text = line@;
        let mut lines: Vec<String> = Vec::new();
        assert(lines.deep_view() =~= Seq::<Seq<char>>::empty());
        push_view(&mut lines, line);
        assert(lines.deep_view() =~= seq![text]);
        let recorded: Option<(PackOverrideWrite, String)> = match pack_override {
            Some(w) => Some((w, attempt.conflict.clone())),
            None => None,
        };
        match self.run_idx {
            Some(idx) => {
                add_attempts(ledger, idx, extra_attempts);
                append_attempt(ledger, idx, attempt);
            },
            None => {},
        }
        self.pending = PendingEdit::from_edits(applied);
        EnvStep { write_manifest: true, pack_override: recorded, lines, end: None }
    }

    fn on_conflict(
        &mut self,
        editor: &mut ManifestEditor,
        tried: &mut TriedState,
        ledger: &mut SolveLedger,
        facts: &Facts,
        conflict: &Conflict,
        iter: u32,
    ) -> (r: EnvStep)
        requires
            is_sound(old(editor).nodes()),
            conflict.deep_view() matches ConflictView::CondaWidenNeeded { floor, .. } ==> can_widen(
                floor,
                old(self).planner.ceiling_policy,
            ),
        ensures
            (final(self).view(*final(editor), *final(tried), *final(ledger)), r.deep_view())
                == env_conflict(
                old(self).planner.plan(*old(editor), *facts),
                old(self).view(*old(editor), *old(tried), *old(ledger)),
                place(old(self).run_idx),
                old(editor).file(),
                conflict.deep_view(),
                iter,
            ),
            old(self).same_setup(*final(self)),
            is_sound(final(editor).nodes()),
            final(editor).file() == old(editor).file(),
            final(editor).dir() == old(editor).dir(),
    {
        let result = self.planner.repair(editor, tried, facts, conflict, iter);
        match result {
            Ok(out) => self.take_outcome(editor.manifest_path(), ledger, out),
            Err(package) => {
                let lines: Vec<String> = Vec::new();
                assert(lines.deep_view() =~= Seq::<Seq<char>>::empty());
                EnvStep {
                    write_manifest: false,
                    pack_override: None,
                    lines,
                    end: Some(SolveError::Exhausted { package }),
                }
            },
        }
    }

    fn unwiden(
        &mut self,
        editor: &mut ManifestEditor,
        tried: &mut TriedState,
        ledger: &mut SolveLedger,
        pending: PendingEdit,
        unsat: bool,
    ) -> (r: EnvStep)
        requires
            is_sound(old(editor).nodes()),
            old(self).pending is None,
        ensures
            (final(self).view(*final(editor), *final(tried), *final(ledger)), r.deep_view())
                == env_unwidened(
                old(self).view(*old(editor), *old(tried), *old(ledger)),
                place(old(self).run_idx),
                pending.deep_view(),
                unsat,
            ),
            old(self).same_setup(*final(self)),
            is_sound(final(editor).nodes()),
            final(editor).file() == old(editor).file(),
            final(editor).dir() == old(editor).dir(),
    {
        let mut lines: Vec<String> = Vec::new();
        assert(lines.deep_view() =~= Seq::<Seq<char>>::empty());
        if unsat {
            let mut line: String = "retread solve: post-widen conda unsat for ".to_owned();
            line.append(&pending.package);
            line.append("; reverting only that widen");
            let ghost text = line@;
            push_view(&mut lines, line);
            assert(lines.deep_view() =~= seq![text]);
        }
        pending.restore(editor);
        tried.mark(&pending.package, Strategy::WidenConda, true);
        match self.run_idx {
            Some(idx) => {
                mark_last_widen_failed(ledger, idx, &pending.package);
            },
            None => {},
        }
        EnvStep { write_manifest: true, pack_override: None, lines, end: None }
    }

    fn on_lost(
        &mut self,
        editor: &mut ManifestEditor,
        tried: &mut TriedState,
        ledger: &mut SolveLedger,
        unsat: bool,
        raw: &str,
    ) -> (r: EnvStep)
        requires
            is_sound(old(editor).nodes()),
        ensures
            (final(self).view(*final(editor), *final(tried), *final(ledger)), r.deep_view())
                == env_lost(
                old(self).view(*old(editor), *old(tried), *old(ledger)),
                place(old(self).run_idx),
                unsat,
                raw@,
            ),
            old(self).same_setup(*final(self)),
            is_sound(final(editor).nodes()),
            final(editor).file() == old(editor).file(),
            final(editor).dir() == old(editor).dir(),
    {
        let ghost v = self.view(*editor, *tried, *ledger);
        let mut pending: Option<PendingEdit> = None;
        std::mem::swap(&mut pending, &mut self.pending);
        match pending {
            Some(p) => {
                assert(v.pending == Some(p.deep_view()));
                if p.strategy == Strategy::WidenConda {
                    return self.unwiden(editor, tried, ledger, p, unsat);
                }
                p.restore(editor);
                match self.run_idx {
                    Some(idx) => {
                        note_reverted(ledger, idx, p);
                    },
                    None => {},
                }
                unreadable_step(true, raw)
            },
            None => {
                assert(self.view(*editor, *tried, *ledger) == v);
                unreadable_step(false, raw)
            },
        }
    }

    /// Decides a round that failed, on what was read of its message.
    pub fn round_on(
        &mut self,
        editor: &mut ManifestEditor,
        tried: &mut TriedState,
        ledger: &mut SolveLedger,
        facts: &Facts,
        conflict: &Option<Conflict>,
        unsat: bool,
        raw: &str,
        iter: u32,
    ) -> (r: EnvStep)
        requires
            is_sound(old(editor).nodes()),
            conflict.deep_view() matches Some(ConflictView::CondaWidenNeeded { floor, .. })
                ==> can_widen(floor, old(self).planner.ceiling_policy),
        ensures
            (final(self).view(*final(editor), *final(tried), *final(ledger)), r.deep_view())
                == env_round(
                old(self).planner.plan(*old(editor), *facts),
                old(self).view(*old(editor), *old(tried), *old(ledger)),
                place(old(self).run_idx),
                old(editor).file(),
                conflict.deep_view(),
                unsat,
                raw@,
                iter,
            ),
            old(self).same_setup(*final(self)),
            is_sound(final(editor).nodes()),
            final(editor).file() == old(editor).file(),
            final(editor).dir() == old(editor).dir(),
    {
        match conflict {
            Some(c) => self.on_conflict(editor, tried, ledger, facts, c, iter),
            None => self.on_lost(editor, tried, ledger, unsat, raw),
        }
    }

    /// Decides a round that failed with this message. `None`, with nothing changed,
    /// where the conflict names a floor whose numbers are too large to step.
    pub fn round(
        &mut self,
        editor: &mut ManifestEditor,
        tried: &mut TriedState,
        ledger: &mut SolveLedger,
        facts: &Facts,
        raw: &str,
        iter: u32,
    ) -> (r: Option<EnvStep>)
        requires
            is_sound(old(editor).nodes()),
        ensures
            ({
                let stripped = without_colours(raw@);
                let conflict = parsed_conflict(stripped);
                let steps = conflict matches Some(ConflictView::CondaWidenNeeded { floor, .. })
                    ==> can_widen(floor, old(self).planner.ceiling_policy);
                match r {
                    Some(step) => steps && (
                        final(self).view(*final(editor), *final(tried), *final(ledger)),
                        step.deep_view(),
                    ) == env_round(
                        old(self).planner.plan(*old(editor), *facts),
                        old(self).view(*old(editor), *old(tried), *old(ledger)),
                        place(old(self).run_idx),
                        old(editor).file(),
                        conflict,
                        is_conda_unsat(stripped),
                        raw@,
                        iter,
                    ),
                    None => !steps && *final(self) == *old(self) && *final(editor) == *old(editor)
                        && *final(tried) == *old(tried) && *final(ledger) == *old(ledger),
                }
            }),
            old(self).same_setup(*final(self)),
            is_sound(final(editor).nodes()),
            final(editor).file() == old(editor).file(),
            final(editor).dir() == old(editor).dir(),
    {
        let parser = RegexConflictParser::new();
        let stripped: String = parser.strip_ansi(raw);
        let conflict = parser.parse(&stripped);
        let unsat: bool = RegexConflictParser::is_post_widen_conda_unsat(&stripped);
        match &conflict {
            Some(Conflict::CondaWidenNeeded { floor, .. }) => {
                if !widenable(floor, self.planner.ceiling_policy) {
                    return None;
                }
            },
            _ => {},
        }
        Some(self.round_on(editor, tried, ledger, facts, &conflict, unsat, raw, iter))
    }

    /// What a repair of the conflict would do, tried on an editor whose edits are
    /// not written.
    pub fn preview(
        &mut self,
        editor: &mut ManifestEditor,
        tried: &mut TriedState,
        facts: &Facts,
        conflict: &Conflict,
        iter: u32,
    ) -> (r: Result<String, SolveError>)
        requires
            is_sound(old(editor).nodes()),
            conflict.deep_view() matches ConflictView::CondaWidenNeeded { floor, .. } ==> can_widen(
                floor,
                old(self).planner.ceiling_policy,
            ),
        ensures
            ({
                let (after, out) = repair_step(
                    old(self).planner.plan(*old(editor), *facts),
                    old(self).planner.ladder(*old(editor), *old(tried)),
                    conflict.deep_view(),
                    iter,
                );
                &&& match out {
                    Ok(o) => r matches Ok(line) && line@ == o.summary_line,
                    Err(package) => r matches Err(e) && e.deep_view() == (ErrorView::Exhausted {
                        package,
                    }),
                }
                &&& final(self).planner.ladder(*final(editor), *final(tried)) == after
                &&& final(tried).failed_set() == old(tried).failed_set()
            }),
            final(self).pending == old(self).pending,
            old(self).same_setup(*final(self)),
    {
        match self.planner.repair(editor, tried, facts, conflict, iter) {
            Ok(out) => Ok(out.summary_line),
            Err(package) => Err(SolveError::Exhausted { package }),
        }
    }
}

fn note_reverted(ledger: &mut SolveLedger, run_idx: usize, pending: PendingEdit)
    ensures
        final(ledger).deep_view() == with_run(
            old(ledger).deep_view(),
            run_idx as int,
            |r: RunView| edit_reverted(r, pending.deep_view()),
        ),
{
    let ghost before = ledger.runs.deep_view();
    if run_idx < ledger.runs.len() {
        let ghost run = before[run_idx as int];
        let ghost reverted = ledger.runs@[run_idx as int].reverted.deep_view();
        assert(run.attempts.len() == ledger.runs@[run_idx as int].attempts@.len());
        let count: usize = ledger.runs[run_idx].attempts.len();
        let kept: usize = if count > 0 {
            count - 1
        } else {
            0
        };
        ledger.runs[run_idx].kept_pins = Some(kept);
        let strategy: String = pending.strategy.as_str().to_owned();
        let ghost pair = (pending.package@, strategy@);
        ledger.runs[run_idx].reverted.push(RevertedEdit { package: pending.package, strategy });
        assert(ledger.runs@[run_idx as int].reverted.deep_view() =~= reverted.push(pair));
        assert(ledger.runs.deep_view() =~= before.update(
            run_idx as int,
            edit_reverted(run, pending.deep_view()),
        ));
    }
}

fn unreadable_step(write_manifest: bool, raw: &str) -> (r: EnvStep)
    ensures
        r.deep_view() == env_unreadable(write_manifest, raw@),
{
    let mut lines: Vec<String> = Vec::new();
    assert(lines.deep_view() =~= Seq::<Seq<char>>::empty());
    push_view(
        &mut lines,
        "retread solve: could not parse solver error; manifest restored".to_owned(),
    );
    push_view(&mut lines, tail(raw, 4000));
    assert(lines.deep_view() =~= seq![
        "retread solve: could not parse solver error; manifest restored"@,
        tail_of(raw@, 4000),
    ]);
    EnvStep {
        write_manifest,
        pack_override: None,
        lines,
        end: Some(SolveError::Unparseable { stderr_tail: tail(raw, 4000) }),
    }
}

// ---------------------------------------------------------------------------
// The end of an environment
// ---------------------------------------------------------------------------

/// What is done when an environment installs.
#[derive(Debug, Clone, Copy, PartialEq, Eq, Structural)]
pub enum AfterInstall {
    /// It was only asked what a repair would do.
    NothingToDo,
    /// The modules are imported first.
    Smoke,
    /// The repairs are told.
    Converged,
}

/// What is done when an environment installs.
pub fn after_install(dry_run: bool, no_smoke_test: bool, smoke_modules: &Vec<String>) -> (r:
    AfterInstall)
    ensures
        r == if dry_run {
            AfterInstall::NothingToDo
        } else if !no_smoke_test && smoke_modules@.len() > 0 {
            AfterInstall::Smoke
        } else {
            AfterInstall::Converged
        },
{
    if dry_run {
        AfterInstall::NothingToDo
    } else if !no_smoke_test && smoke_modules.len() > 0 {
        AfterInstall::Smoke
    } else {
        AfterInstall::Converged
    }
}

/// What a failure of the smoke test comes to: an import that fails ends the
/// environment with its own exit code, and anything else is a failure of usage.
pub open spec fn smoke_end(e: ErrorView) -> Result<i32, ErrorView> {
    match e {
        ErrorView::SmokeFailed { .. } => Ok(EXIT_SMOKE_FAILED),
        ErrorView::Usage(text) => Err(ErrorView::Usage(text)),
        other => Err(ErrorView::Usage(message_of(other))),
    }
}

/// What a failure of the smoke test comes to, and what the user is told of it.
pub fn smoke_verdict(e: SolveError) -> (r: (Option<String>, Result<i32, SolveError>))
    ensures
        r.0.deep_view() == match e.deep_view() {
            ErrorView::SmokeFailed { stderr_tail, .. } => Some(stderr_tail),
            _ => None,
        },
        end_view(r.1) == smoke_end(e.deep_view()),
{
    match e {
        SolveError::SmokeFailed { module: _, stderr_tail } => {
            (Some(stderr_tail), Ok(EXIT_SMOKE_FAILED))
        },
        SolveError::Usage(text) => (None, Err(SolveError::Usage(text))),
        other => (None, Err(SolveError::Usage(other.message()))),
    }
}

/// How the rounds in an environment ended: with an exit code, or a failure.
pub open spec fn end_view(r: Result<i32, SolveError>) -> Result<i32, ErrorView> {
    match r {
        Ok(code) => Ok(code),
        Err(e) => Err(e.deep_view()),
    }
}

/// How the ledger calls an exit code.
pub open spec fn outcome_named(code: i32) -> Seq<char> {
    if code == EXIT_UNPARSEABLE {
        "unparseable"@
    } else if code == EXIT_EXHAUSTED {
        "exhausted"@
    } else if code == EXIT_MAX_ITERS {
        "max_iters"@
    } else if code == EXIT_INTERRUPTED {
        "interrupted"@
    } else {
        "failed"@
    }
}

/// How the ledger calls an exit code.
pub fn outcome_for_code(code: i32) -> (r: &'static str)
    ensures
        r@ == outcome_named(code),
{
    if code == EXIT_UNPARSEABLE {
        "unparseable"
    } else if code == EXIT_EXHAUSTED {
        "exhausted"
    } else if code == EXIT_MAX_ITERS {
        "max_iters"
    } else if code == EXIT_INTERRUPTED {
        "interrupted"
    } else {
        "failed"
    }
}

/// What is told of a failure: its message, and the end of what the solver or the
/// import wrote.
pub open spec fn failure_lines(e: ErrorView) -> Seq<Seq<char>> {
    match e {
        ErrorView::Unparseable { stderr_tail } => seq![message_of(e), stderr_tail],
        ErrorView::SmokeFailed { stderr_tail, .. } => seq![message_of(e), stderr_tail],
        _ => seq![message_of(e)],
    }
}

/// What is told of a failure.
pub fn describe_failure(e: &SolveError) -> (r: Vec<String>)
    ensures
        r.deep_view() == failure_lines(e.deep_view()),
{
    let mut lines: Vec<String> = Vec::new();
    assert(lines.deep_view() =~= Seq::<Seq<char>>::empty());
    push_view(&mut lines, e.message());
    match e {
        SolveError::Unparseable { stderr_tail } => {
            push_view(&mut lines, stderr_tail.clone());
        },
        SolveError::SmokeFailed { module: _, stderr_tail } => {
            push_view(&mut lines, stderr_tail.clone());
        },
        _ => {},
    }
    assert(lines.deep_view() =~= failure_lines(e.deep_view()));
    lines
}

/// What becomes of what was written when an environment is done: whether the
/// manifest goes back to what it was before the environment or before the solve,
/// whether the overrides go back, whether what was written stays for good, what is
/// told, the exit code so far, and the exit code where the solve ends here.
#[derive(Debug)]
pub struct EnvEnd {
    pub restore_checkpoint: bool,
    pub roll_back_manifest: bool,
    pub roll_back_overrides: bool,
    pub settle: bool,
    pub lines: Vec<String>,
    pub code_so_far: i32,
    pub exit: Option<i32>,
}

/// What an `EnvEnd` says.
#[verifier::ext_equal]
pub struct EnvEndView {
    pub restore_checkpoint: bool,
    pub roll_back_manifest: bool,
    pub roll_back_overrides: bool,
    pub settle: bool,
    pub lines: Seq<Seq<char>>,
    pub code_so_far: i32,
    pub exit: Option<i32>,
}

impl DeepView for EnvEnd {
    type V = EnvEndView;

    open spec fn deep_view(&self) -> EnvEndView {
        EnvEndView {
            restore_checkpoint: self.restore_checkpoint,
            roll_back_manifest: self.roll_back_manifest,
            roll_back_overrides: self.roll_back_overrides,
            settle: self.settle,
            lines: self.lines.deep_view(),
            code_so_far: self.code_so_far,
            exit: self.exit,
        }
    }
}

/// The ledger with a run's outcome, where the run is recorded.
pub open spec fn closed_run(l: LedgerView, run_idx: Option<int>, outcome: Seq<char>) -> LedgerView {
    match run_idx {
        Some(idx) => finished(l, idx, outcome),
        None => l,
    }
}

/// The ledger with a run that solves and does not import.
pub open spec fn smoke_failed_run(l: LedgerView, run_idx: Option<int>) -> LedgerView {
    match run_idx {
        Some(idx) => with_run(
            l,
            idx,
            |r: RunView| RunView { outcome: "converged"@, smoke_failed: true, ..r },
        ),
        None => l,
    }
}

/// Nothing is undone, and the next environment follows.
pub open spec fn next_environment(code: i32) -> EnvEndView {
    EnvEndView {
        restore_checkpoint: false,
        roll_back_manifest: false,
        roll_back_overrides: false,
        settle: false,
        lines: Seq::empty(),
        code_so_far: code,
        exit: None,
    }
}

/// What becomes of what was written when an environment fails.
pub open spec fn failed_environment(
    l: LedgerView,
    run_idx: Option<int>,
    e: ErrorView,
    keep_going: bool,
    code_so_far: i32,
) -> (LedgerView, EnvEndView) {
    let code = code_of(e);
    if keep_going && code != EXIT_INTERRUPTED {
        (
            closed_run(l, run_idx, outcome_named(code)),
            EnvEndView {
                restore_checkpoint: true,
                roll_back_overrides: true,
                ..next_environment(code)
            },
        )
    } else {
        let end = EnvEndView {
            roll_back_manifest: code != EXIT_UNPARSEABLE,
            roll_back_overrides: code != EXIT_UNPARSEABLE,
            lines: failure_lines(e),
            exit: Some(code),
            ..next_environment(code_so_far)
        };
        (
            if outcome_named(code) == "failed"@ {
                l
            } else {
                closed_run(l, run_idx, outcome_named(code))
            },
            end,
        )
    }
}

/// What becomes of what was written when an environment is done.
pub open spec fn environment_end(
    l: LedgerView,
    run_idx: Option<int>,
    result: Result<i32, ErrorView>,
    keep_going: bool,
    code_so_far: i32,
) -> (LedgerView, EnvEndView) {
    match result {
        Ok(code) => if code == EXIT_OK {
            (closed_run(l, run_idx, "converged"@), next_environment(code_so_far))
        } else if code == EXIT_SMOKE_FAILED {
            (
                smoke_failed_run(l, run_idx),
                EnvEndView { settle: true, exit: Some(code), ..next_environment(code_so_far) },
            )
        } else {
            (l, next_environment(code))
        },
        Err(e) => failed_environment(l, run_idx, e, keep_going, code_so_far),
    }
}

fn going_on(code: i32) -> (r: EnvEnd)
    ensures
        r.deep_view() == next_environment(code),
{
    let lines: Vec<String> = Vec::new();
    assert(lines.deep_view() =~= Seq::<Seq<char>>::empty());
    EnvEnd {
        restore_checkpoint: false,
        roll_back_manifest: false,
        roll_back_overrides: false,
        settle: false,
        lines,
        code_so_far: code,
        exit: None,
    }
}

fn close_run(ledger: &mut SolveLedger, run_idx: Option<usize>, outcome: &str)
    ensures
        final(ledger).deep_view() == closed_run(old(ledger).deep_view(), place(run_idx), outcome@),
{
    match run_idx {
        Some(idx) => {
            ledger.finish_run(idx, outcome);
        },
        None => {},
    }
}

fn note_smoke_failure(ledger: &mut SolveLedger, run_idx: Option<usize>)
    ensures
        final(ledger).deep_view() == smoke_failed_run(old(ledger).deep_view(), place(run_idx)),
{
    let ghost before = ledger.runs.deep_view();
    match run_idx {
        Some(idx) => {
            if idx < ledger.runs.len() {
                ledger.runs[idx].outcome = "converged".to_owned();
                ledger.runs[idx].smoke_failed = true;
                assert(ledger.runs.deep_view() =~= before.update(
                    idx as int,
                    RunView {
                        outcome: "converged"@,
                        smoke_failed: true,
                        ..before[idx as int]
                    },
                ));
            }
        },
        None => {},
    }
}

proof fn lemma_outcomes_differ()
    ensures
        "unparseable"@ != "failed"@,
        "exhausted"@ != "failed"@,
        "max_iters"@ != "failed"@,
        "interrupted"@ != "failed"@,
{
    reveal_strlit("unparseable");
    reveal_strlit("exhausted");
    reveal_strlit("max_iters");
    reveal_strlit("interrupted");
    reveal_strlit("failed");
    assert("failed"@.len() == 6);
    assert("unparseable"@.len() == 11);
    assert("exhausted"@.len() == 9);
    assert("max_iters"@.len() == 9);
    assert("interrupted"@.len() == 11);
}

/// Decides what becomes of what was written when an environment is done, and
/// records how it ended.
pub fn end_environment(
    ledger: &mut SolveLedger,
    run_idx: Option<usize>,
    result: Result<i32, SolveError>,
    keep_going: bool,
    code_so_far: i32,
) -> (r: EnvEnd)
    ensures
        (final(ledger).deep_view(), r.deep_view()) == environment_end(
            old(ledger).deep_view(),
            place(run_idx),
            end_view(result),
            keep_going,
            code_so_far,
        ),
{
    match result {
        Ok(code) => {
            if code == EXIT_OK {
                close_run(ledger, run_idx, "converged");
                going_on(code_so_far)
            } else if code == EXIT_SMOKE_FAILED {
                note_smoke_failure(ledger, run_idx);
                let mut end = going_on(code_so_far);
                end.settle = true;
                end.exit = Some(code);
                end
            } else {
                going_on(code)
            }
        },
        Err(e) => {
            proof {
                lemma_outcomes_differ();
            }
            let code: i32 = e.exit_code();
            if keep_going && code != EXIT_INTERRUPTED {
                close_run(ledger, run_idx, outcome_for_code(code));
                let mut end = going_on(code);
                end.restore_checkpoint = true;
                end.roll_back_overrides = true;
                return end;
            }
            if code == EXIT_UNPARSEABLE || code == EXIT_EXHAUSTED || code == EXIT_MAX_ITERS || code
                == EXIT_INTERRUPTED {
                close_run(ledger, run_idx, outcome_for_code(code));
            }
            let mut end = going_on(code_so_far);
            end.roll_back_manifest = code != EXIT_UNPARSEABLE;
            end.roll_back_overrides = code != EXIT_UNPARSEABLE;
            end.lines = describe_failure(&e);
            end.exit = Some(code);
            end
        },
    }
}

/// A solve that the user stops ends at once and leaves nothing behind, whether or
/// not it was to keep going.
pub proof fn law_interruption_leaves_nothing(
    l: LedgerView,
    run_idx: Option<int>,
    keep_going: bool,
    code_so_far: i32,
)
    ensures
        ({
            let (_, end) = environment_end(
                l,
                run_idx,
                Err(ErrorView::Interrupted),
                keep_going,
                code_so_far,
            );
            &&& end.exit == Some(EXIT_INTERRUPTED)
            &&& end.roll_back_manifest
            &&& end.roll_back_overrides
        }),
{
}

/// A solve that keeps going takes back what a failed environment wrote, and only
/// that, before it goes on to the next.
pub proof fn law_failed_environments_are_skipped(
    l: LedgerView,
    run_idx: Option<int>,
    e: ErrorView,
    code_so_far: i32,
)
    requires
        !(e is Interrupted),
    ensures
        ({
            let (_, end) = environment_end(l, run_idx, Err(e), true, code_so_far);
            &&& end.exit is None
            &&& end.restore_checkpoint
            &&& end.roll_back_overrides
            &&& !end.roll_back_manifest
            &&& !end.settle
            &&& end.code_so_far == code_of(e)
        }),
{
}

/// A failure is never forgotten: once the exit code so far is not that of success,
/// the solve does not end as one that succeeds.
pub proof fn law_failures_are_remembered(
    l: LedgerView,
    run_idx: Option<int>,
    result: Result<i32, ErrorView>,
    keep_going: bool,
    code_so_far: i32,
)
    requires
        code_so_far != EXIT_OK,
    ensures
        ({
            let (_, end) = environment_end(l, run_idx, result, keep_going, code_so_far);
            match end.exit {
                Some(code) => code != EXIT_OK,
                None => end.code_so_far != EXIT_OK,
            }
        }),
{
}

// ---------------------------------------------------------------------------
// What is told in the end
// ---------------------------------------------------------------------------

/// What is told of an attempt that was kept: the spec that it set, or else the
/// version that it pinned.
pub open spec fn kept_line(a: AttemptView) -> Option<Seq<char>> {
    match (a.new_spec, a.version) {
        (Some(spec), _) => Some("  "@ + a.package + " = \""@ + spec + "\""@),
        (None, Some(version)) => Some("  "@ + a.package + " = \"=="@ + version + "\""@),
        (None, None) => None,
    }
}

/// What is told of the attempts with one strategy.
pub open spec fn kept_lines(attempts: Seq<AttemptView>, strategy: Seq<char>) -> Seq<Seq<char>>
    decreases attempts.len(),
{
    if attempts.len() == 0 {
        Seq::empty()
    } else {
        let before = kept_lines(attempts.drop_last(), strategy);
        let a = attempts.last();
        if a.strategy == strategy && kept_line(a) is Some {
            before.push(kept_line(a)->0)
        } else {
            before
        }
    }
}

/// Whether an attempt has the strategy.
pub open spec fn has_strategy(attempts: Seq<AttemptView>, strategy: Seq<char>) -> bool {
    exists|i: int| 0 <= i < attempts.len() && (#[trigger] attempts[i]).strategy == strategy
}

/// What is told of the attempts with one strategy, under its name.
pub open spec fn kept_group(attempts: Seq<AttemptView>, strategy: Seq<char>) -> Seq<Seq<char>> {
    if has_strategy(attempts, strategy) {
        seq![strategy + ":"@] + kept_lines(attempts, strategy)
    } else {
        Seq::empty()
    }
}

/// What is told when an environment solves: the attempts, by their strategies.
pub open spec fn success_lines(attempts: Seq<AttemptView>) -> Seq<Seq<char>> {
    if attempts.len() == 0 {
        seq!["retread solve: pixi install converged without manifest repairs"@]
    } else {
        seq!["retread solve: converged repairs"@] + kept_group(attempts, "widen-conda"@)
            + kept_group(attempts, "conda"@) + kept_group(attempts, "pypi_dep"@) + kept_group(
            attempts,
            "pypi_override"@,
        )
    }
}

fn describe_kept(a: &LedgerAttempt) -> (r: Option<String>)
    ensures
        r.deep_view() == kept_line(a.deep_view()),
{
    let mut s: String = "  ".to_owned();
    s.append(&a.package);
    match &a.new_spec {
        Some(spec) => {
            s.append(" = \"");
            s.append(spec);
            s.append("\"");
            Some(s)
        },
        None => match &a.version {
            Some(version) => {
                s.append(" = \"==");
                s.append(version);
                s.append("\"");
                Some(s)
            },
            None => None,
        },
    }
}

fn add_group(lines: &mut Vec<String>, attempts: &Vec<LedgerAttempt>, strategy: &str)
    ensures
        final(lines).deep_view() == old(lines).deep_view() + kept_group(
            attempts.deep_view(),
            strategy@,
        ),
{
    let ghost before = lines.deep_view();
    let ghost all = attempts.deep_view();
    let mut group: Vec<String> = Vec::new();
    assert(group.deep_view() =~= Seq::<Seq<char>>::empty());
    let mut any: bool = false;
    let n: usize = attempts.len();
    let mut i: usize = 0;
    while i < n
        invariant
            i <= n,
            n == attempts@.len(),
            all == attempts.deep_view(),
            any == has_strategy(all.take(i as int), strategy@),
            group.deep_view() == kept_lines(all.take(i as int), strategy@),
        decreases n - i,
    {
        let ghost t = all.take(i + 1);
        assert(t.drop_last() =~= all.take(i as int));
        assert(t.last() == all[i as int]);
        assert(all[i as int] == attempts@[i as int].deep_view());
        assert forall|k: int| 0 <= k < i implies all.take(i as int)[k] == t[k] by {}
        if text_eq(&attempts[i].strategy, strategy) {
            any = true;
            assert(t[i as int].strategy == strategy@);
            match describe_kept(&attempts[i]) {
                Some(line) => {
                    push_view(&mut group, line);
                },
                None => {},
            }
        } else {
            if any {
                let ghost k = choose|k: int|
                    0 <= k < i && (#[trigger] all.take(i as int)[k]).strategy == strategy@;
                assert(t[k].strategy == strategy@);
            }
        }
        i = i + 1;
    }
    assert(all.take(n as int) =~= all);
    if any {
        push_view(lines, strategy.to_owned().concat(":"));
        let ghost told = group.deep_view();
        lines.append(&mut group);
        assert(lines.deep_view() =~= before + (seq![strategy@ + ":"@] + told));
    } else {
        assert(lines.deep_view() =~= before + Seq::<Seq<char>>::empty());
    }
}

/// What is told when an environment solves.
pub fn describe_success(attempts: &Vec<LedgerAttempt>) -> (r: Vec<String>)
    ensures
        r.deep_view() == success_lines(attempts.deep_view()),
{
    let mut lines: Vec<String> = Vec::new();
    assert(lines.deep_view() =~= Seq::<Seq<char>>::empty());
    assert(attempts.deep_view().len() == attempts@.len());
    if attempts.len() == 0 {
        push_view(
            &mut lines,
            "retread solve: pixi install converged without manifest repairs".to_owned(),
        );
        assert(lines.deep_view() =~= success_lines(attempts.deep_view()));
        return lines;
    }
    push_view(&mut lines, "retread solve: converged repairs".to_owned());
    assert(lines.deep_view() =~= seq!["retread solve: converged repairs"@]);
    add_group(&mut lines, attempts, "widen-conda");
    add_group(&mut lines, attempts, "conda");
    add_group(&mut lines, attempts, "pypi_dep");
    add_group(&mut lines, attempts, "pypi_override");
    lines
}

/// What is told before the pins are taken out of the manifest, and after.
pub fn describe_cleaning(file: &str, removed: usize) -> (r: (String, String))
    ensures
        r.0@ == "WARNING: editing "@ + file@ + " now: remove "@ + decimal(removed as nat)
            + " retread-managed manifest pins"@,
        r.1@ == "retread solve: removed "@ + decimal(removed as nat) + " retread pins"@,
{
    let count: String = decimal_text(removed as u64);
    let mut first: String = "WARNING: editing ".to_owned();
    first.append(file);
    first.append(" now: remove ");
    first.append(&count);
    first.append(" retread-managed manifest pins");
    let mut second: String = "retread solve: removed ".to_owned();
    second.append(&count);
    second.append(" retread pins");
    (first, second)
}

// ---------------------------------------------------------------------------
// Laws of what is recorded and told
// ---------------------------------------------------------------------------

/// The environments that were asked for are solved one by one, in their order; where none
/// was, the default one is.
pub proof fn law_asked_environments_are_solved(asked: Seq<Seq<char>>)
    ensures
        asked.len() > 0 ==> environments_of(asked).len() == asked.len(),
        forall|i: int|
            0 <= i < asked.len() ==> #[trigger] environments_of(asked)[i] == Some(asked[i]),
        asked.len() == 0 ==> environments_of(asked).len() == 1 && environments_of(asked)[0] is None,
{
}

/// A feature that was asked for takes the repairs; where none was, the only feature of an
/// environment that does without the top-level tables does, and otherwise these do.
pub proof fn law_repairs_go_where_they_belong(
    ws: WorkspaceView,
    env: Seq<char>,
    at: int,
    feature: Seq<char>,
)
    requires
        is_first_with(ws.environments, env, at),
    ensures
        target_feature(Some(ws), Some(env), Some(feature)) == feature,
        target_feature(None, Some(env), Some(feature)) == feature,
        target_feature(None, Some(env), None) == "default"@,
        target_feature(Some(ws), None, None) == "default"@,
        ({
            let e = ws.environments[at].1;
            &&& e.no_default_feature && e.features.len() == 1 ==> target_feature(
                Some(ws),
                Some(env),
                None,
            ) == e.features[0]
            &&& !e.no_default_feature || e.features.len() != 1 ==> target_feature(
                Some(ws),
                Some(env),
                None,
            ) == "default"@
            &&& e.no_default_feature && e.features.len() == 1 ==> target_note(
                Some(ws),
                Some(env),
                None,
            ) == Some("retread solve: targeting feature "@ + e.features[0] + " for env "@ + env)
        }),
        target_note(Some(ws), Some(env), Some(feature)) is None,
        target_note(Some(ws), None, None) is None,
{
    law_first_pair_counts(ws.environments, env, at);
}

/// A repair in an environment is recorded in the ledger behind what the run has tried
/// before; the manifest is written, what is written to a pack is recorded with the
/// conflict that it answers, and the edits can be taken back.
pub proof fn law_environments_repair_is_recorded(
    plan: PlanView,
    v: EnvView,
    idx: int,
    file: Seq<char>,
    c: ConflictView,
    iter: u32,
    after: LadderView,
    out: OutcomeView,
)
    requires
        0 <= idx < v.ledger.runs.len(),
        repair_step(plan, v.ladder, c, iter) == (after, Ok::<OutcomeView, Seq<char>>(out)),
    ensures
        ({
            let (next, step) = env_conflict(plan, v, Some(idx), file, c, iter);
            &&& next.ledger.runs[idx].attempts == v.ledger.runs[idx].attempts + out.extra_attempts
                + seq![out.attempt]
            &&& differ_at_most_in(next.ledger, v.ledger, idx)
            &&& next.ladder == after && next.failed == v.failed
            &&& out.applied.len() > 0 ==> (next.pending matches Some(p) && p.edits == out.applied)
            &&& out.applied.len() == 0 ==> next.pending is None
            &&& step.write_manifest && step.end is None
            &&& out.pack_override matches Some(w) ==> step.pack_override == Some(
                (w, out.attempt.conflict),
            )
            &&& out.pack_override is None ==> step.pack_override is None
            &&& step.lines == seq!["WARNING: editing "@ + file + " now: "@ + out.summary_line]
            &&& env_conflict(plan, v, None, file, c, iter).0.ledger == v.ledger
        }),
{
    law_attempts_are_recorded_in_order(v.ledger, idx, out.extra_attempts);
    law_attempt_is_recorded_last(
        with_attempts(v.ledger, idx, out.extra_attempts),
        idx,
        out.attempt,
    );
    let (next, step) = env_conflict(plan, v, Some(idx), file, c, iter);
    assert(next.ledger.runs[idx].attempts =~= v.ledger.runs[idx].attempts + out.extra_attempts
        + seq![out.attempt]);
}

/// A conflict that nothing is left to try for ends the environment, and neither the
/// manifest nor the ledger is changed by it.
pub proof fn law_environment_without_repairs_ends(
    plan: PlanView,
    v: EnvView,
    run_idx: Option<int>,
    file: Seq<char>,
    c: ConflictView,
    iter: u32,
    after: LadderView,
    package: Seq<char>,
)
    requires
        repair_step(plan, v.ladder, c, iter) == (after, Err::<OutcomeView, Seq<char>>(package)),
    ensures
        ({
            let (next, step) = env_conflict(plan, v, run_idx, file, c, iter);
            &&& step.end == Some(ErrorView::Exhausted { package })
            &&& !step.write_manifest && step.pack_override is None && step.lines.len() == 0
            &&& next.ledger == v.ledger && next.pending == v.pending && next.failed == v.failed
        }),
{
}

/// A widening after which the message cannot be read is taken back alone, counts as
/// failed and is not tried again, and the environment goes on.
pub proof fn law_widening_is_taken_back_alone(
    v: EnvView,
    idx: int,
    unsat: bool,
    raw: Seq<char>,
)
    requires
        v.pending matches Some(p) && p.strategy == Strategy::WidenConda,
        0 <= idx < v.ledger.runs.len(),
    ensures
        ({
            let (next, step) = env_lost(v, Some(idx), unsat, raw);
            let p = v.pending->0;
            let pair = (p.package, Strategy::WidenConda);
            &&& next.ladder.nodes == undone(v.ladder.nodes, p.edits)
            &&& next.ladder.tried.contains(pair) && next.failed.contains(pair)
            &&& forall|q: (Seq<char>, Strategy)|
                q != pair ==> (#[trigger] next.failed.contains(q) <==> v.failed.contains(q))
            &&& next.pending is None
            &&& differ_at_most_in(next.ledger, v.ledger, idx)
            &&& next.ledger.runs[idx] == widen_failed(v.ledger.runs[idx], p.package)
            &&& step.write_manifest && step.end is None && step.pack_override is None
            &&& unsat ==> step.lines == seq![
                "retread solve: post-widen conda unsat for "@ + p.package
                    + "; reverting only that widen"@,
            ]
            &&& !unsat ==> step.lines.len() == 0
        }),
{
}

/// Any other edit after which the message cannot be read is taken back and recorded as
/// such, and the environment ends with the end of the message.
pub proof fn law_unread_message_ends_the_environment(
    v: EnvView,
    idx: int,
    unsat: bool,
    raw: Seq<char>,
)
    requires
        v.pending matches Some(p) ==> p.strategy != Strategy::WidenConda,
        0 <= idx < v.ledger.runs.len(),
    ensures
        ({
            let (next, step) = env_lost(v, Some(idx), unsat, raw);
            let before = v.ledger.runs[idx];
            let run = next.ledger.runs[idx];
            &&& step.end == Some(ErrorView::Unparseable { stderr_tail: tail_of(raw, 4000) })
            &&& step.lines.len() == 2 && step.lines[1] == tail_of(raw, 4000)
            &&& step.write_manifest <==> v.pending is Some
            &&& next.failed == v.failed && next.ladder.tried == v.ladder.tried
            &&& differ_at_most_in(next.ledger, v.ledger, idx)
            &&& run.attempts == before.attempts && run.outcome == before.outcome
            &&& v.pending is None ==> next == v
            &&& v.pending matches Some(p) ==> {
                &&& next.pending is None
                &&& next.ladder.nodes == undone(v.ladder.nodes, p.edits)
                &&& run.reverted.drop_last() == before.reverted
                &&& run.reverted.last().0 == p.package
                &&& strategy_named(run.reverted.last().1) == p.strategy
                &&& 0 < before.attempts.len() <= usize::MAX ==> (run.kept_pins matches Some(n) && n
                    == before.attempts.len() - 1)
                &&& before.attempts.len() == 0 ==> run.kept_pins == Some(0usize)
            }
        }),
{
    if let Some(p) = v.pending {
        law_strategy_names_round_trip(p.strategy);
        let (next, step) = env_lost(v, Some(idx), unsat, raw);
        assert(next.ledger.runs[idx].reverted.drop_last() =~= v.ledger.runs[idx].reverted);
    }
}

/// How the ledger calls the end of a run tells the ends apart.
pub proof fn law_ends_are_recorded_by_name(code: i32)
    ensures
        outcome_named(code) == "unparseable"@ <==> code == 2,
        outcome_named(code) == "exhausted"@ <==> code == 3,
        outcome_named(code) == "max_iters"@ <==> code == 4,
        outcome_named(code) == "interrupted"@ <==> code == 130,
        outcome_named(code) == "failed"@ <==> code != 2 && code != 3 && code != 4 && code != 130,
{
    reveal_strlit("unparseable");
    reveal_strlit("exhausted");
    reveal_strlit("max_iters");
    reveal_strlit("interrupted");
    reveal_strlit("failed");
    assert("unparseable"@[0] == 'u' && "exhausted"@[0] == 'e' && "max_iters"@[0] == 'm');
    assert("interrupted"@[0] == 'i' && "failed"@[0] == 'f');
}

/// An environment that solves is recorded as such and the next one follows; nothing is
/// taken back, and the exit code so far is kept.
pub proof fn law_solved_environment_is_kept(
    l: LedgerView,
    idx: int,
    keep_going: bool,
    code_so_far: i32,
)
    requires
        0 <= idx < l.runs.len(),
    ensures
        ({
            let (after, end) = environment_end(l, Some(idx), Ok(0i32), keep_going, code_so_far);
            &&& after.runs[idx].outcome == "converged"@
            &&& after.runs[idx].smoke_failed == l.runs[idx].smoke_failed
            &&& differ_at_most_in(after, l, idx)
            &&& end.exit is None && end.code_so_far == code_so_far
            &&& !end.restore_checkpoint && !end.roll_back_manifest && !end.roll_back_overrides
            &&& !end.settle && end.lines.len() == 0
        }),
{
    law_outcome_is_the_runs_own(l, idx, "converged"@);
}

/// An environment that solves and does not import ends the solve with what was written,
/// for good; the ledger says both of it.
pub proof fn law_failed_import_keeps_the_solution(
    l: LedgerView,
    idx: int,
    keep_going: bool,
    code_so_far: i32,
)
    requires
        0 <= idx < l.runs.len(),
    ensures
        ({
            let (after, end) = environment_end(l, Some(idx), Ok(5i32), keep_going, code_so_far);
            &&& after.runs[idx].outcome == "converged"@ && after.runs[idx].smoke_failed
            &&& after.runs[idx].attempts == l.runs[idx].attempts
            &&& differ_at_most_in(after, l, idx)
            &&& end.exit == Some(5i32) && end.settle
            &&& !end.restore_checkpoint && !end.roll_back_manifest && !end.roll_back_overrides
        }),
{
}

/// A solve that does not keep going ends with the failure's own code, after what it
/// says: what was written is taken back, but for a message that cannot be read.
pub proof fn law_failure_ends_the_solve(
    l: LedgerView,
    idx: int,
    e: ErrorView,
    code_so_far: i32,
)
    requires
        0 <= idx < l.runs.len(),
    ensures
        ({
            let (after, end) = environment_end(l, Some(idx), Err(e), false, code_so_far);
            &&& end.exit == Some(code_of(e)) && !end.settle && !end.restore_checkpoint
            &&& end.roll_back_manifest <==> !(e is Unparseable)
            &&& end.roll_back_overrides <==> !(e is Unparseable)
            &&& end.lines[0] == message_of(e)
            &&& differ_at_most_in(after, l, idx)
            &&& e is Exhausted ==> after.runs[idx].outcome == "exhausted"@
            &&& e is Unparseable ==> after.runs[idx].outcome == "unparseable"@
            &&& e is MaxIters ==> after.runs[idx].outcome == "max_iters"@
            &&& e is Interrupted ==> after.runs[idx].outcome == "interrupted"@
            &&& e is Usage || e is SmokeFailed ==> after == l
            &&& e matches ErrorView::Unparseable { stderr_tail } ==> end.lines.len() == 2
                && end.lines[1] == stderr_tail
        }),
{
    law_ends_are_recorded_by_name(code_of(e));
    law_outcome_is_the_runs_own(l, idx, outcome_named(code_of(e)));
}

/// An import that fails ends the environment with a code of its own; any other failure of
/// the test is one of usage, and says what it said.
pub proof fn law_only_failed_imports_have_their_code(e: ErrorView)
    ensures
        e is SmokeFailed ==> smoke_end(e) == Ok::<i32, ErrorView>(5i32),
        !(e is SmokeFailed) ==> (smoke_end(e) matches Err(f) && f is Usage && message_of(f)
            == message_of(e)),
{
}

/// Whether a line is the one that is told of a kept attempt.
pub open spec fn tells_kept(a: AttemptView, line: Seq<char>) -> bool {
    ||| a.new_spec matches Some(spec) && line == "  "@ + a.package + " = \""@ + spec + "\""@
    ||| a.new_spec is None && (a.version matches Some(version) && line == "  "@ + a.package
        + " = \"=="@ + version + "\""@)
}

proof fn lemma_kept_lines(attempts: Seq<AttemptView>, strategy: Seq<char>, line: Seq<char>)
    ensures
        kept_lines(attempts, strategy).contains(line) <==> exists|i: int|
            0 <= i < attempts.len() && (#[trigger] attempts[i]).strategy == strategy && tells_kept(
                attempts[i],
                line,
            ),
    decreases attempts.len(),
{
    if attempts.len() > 0 {
        let short = attempts.drop_last();
        lemma_kept_lines(short, strategy, line);
        let last = attempts.len() - 1;
        assert(attempts[last] == attempts.last());
        assert(tells_kept(attempts[last], line) <==> kept_line(attempts[last]) == Some(line));
        if exists|i: int|
            0 <= i < short.len() && (#[trigger] short[i]).strategy == strategy && tells_kept(
                short[i],
                line,
            ) {
            let i = choose|i: int|
                0 <= i < short.len() && (#[trigger] short[i]).strategy == strategy && tells_kept(
                    short[i],
                    line,
                );
            assert(attempts[i] == short[i]);
        }
        if exists|i: int|
            0 <= i < attempts.len() && (#[trigger] attempts[i]).strategy == strategy && tells_kept(
                attempts[i],
                line,
            ) {
            let i = choose|i: int|
                0 <= i < attempts.len() && (#[trigger] attempts[i]).strategy == strategy
                    && tells_kept(attempts[i], line);
            if i < short.len() {
                assert(short[i] == attempts[i]);
            }
        }
    }
}

/// When an environment solves, each kept attempt is told with the spec that it set or the
/// version that it pinned, under the name of its strategy.
pub proof fn law_kept_attempts_are_told(attempts: Seq<AttemptView>, i: int, line: Seq<char>)
    requires
        0 <= i < attempts.len(),
        attempts[i].strategy == "widen-conda"@ || attempts[i].strategy == "conda"@
            || attempts[i].strategy == "pypi_dep"@ || attempts[i].strategy == "pypi_override"@,
        tells_kept(attempts[i], line),
    ensures
        success_lines(attempts)[0] == "retread solve: converged repairs"@,
        success_lines(attempts).contains(line),
        success_lines(attempts).contains(attempts[i].strategy + ":"@),
{
    let s = attempts[i].strategy;
    lemma_kept_lines(attempts, s, line);
    let group = kept_group(attempts, s);
    assert(group[0] == s + ":"@);
    let k = choose|k: int|
        0 <= k < kept_lines(attempts, s).len() && kept_lines(attempts, s)[k] == line;
    assert(group[k + 1] == line);
    let head = seq!["retread solve: converged repairs"@];
    let a = head + kept_group(attempts, "widen-conda"@);
    let b = a + kept_group(attempts, "conda"@);
    let c = b + kept_group(attempts, "pypi_dep"@);
    let all = c + kept_group(attempts, "pypi_override"@);
    assert(success_lines(attempts) == all);
    let from = if s == "widen-conda"@ {
        head.len()
    } else if s == "conda"@ {
        a.len()
    } else if s == "pypi_dep"@ {
        b.len()
    } else {
        c.len()
    };
    assert(all[from as int] == group[0]);
    assert(all[from + k + 1] == group[k + 1]);
}

/// A clash within a pack ends the environment for its package; the user is told what would
/// settle it, line by line, and that it was not applied.
pub proof fn law_clash_is_told_and_not_applied(c: ClashView, i: int)
    requires
        0 <= i < line_pieces(trimmed_end(c.relaxation)).len(),
    ensures
        ({
            let step = clash_refused(c);
            &&& step.end == Some(ErrorView::Exhausted { package: c.package })
            &&& !step.write_manifest && step.pack_override is None
            &&& step.lines[1] == "proposed relaxation for "@ + suggested_manifest(c.suggestion)
                + " (not applied):"@
            &&& step.lines[i + 2] == "  "@ + line_pieces(trimmed_end(c.relaxation))[i]
            &&& step.lines.len() == line_pieces(trimmed_end(c.relaxation)).len() + 3
        }),
{
}

/// A conflict that is known is repaired or ends the environment for want of repairs; only
/// a message that says of none ends it as one that cannot be read.
pub proof fn law_only_unread_messages_end_unread(
    plan: PlanView,
    v: EnvView,
    run_idx: Option<int>,
    file: Seq<char>,
    conflict: Option<ConflictView>,
    unsat: bool,
    raw: Seq<char>,
    iter: u32,
)
    ensures
        ({
            let (_, step) = env_round(plan, v, run_idx, file, conflict, unsat, raw, iter);
            &&& conflict matches Some(c) ==> (step.end is None <==> repair_step(
                plan,
                v.ladder,
                c,
                iter,
            ).1 is Ok)
            &&& conflict is Some && step.end is Some ==> step.end->0 is Exhausted
            &&& conflict is None && v.pending is None ==> (step.end matches Some(e)
                && e is Unparseable)
        }),
{
}

/// The line of a round shows which of how many it is, and the environment where one was
/// asked for.
pub proof fn law_round_line_counts(iter: u32, max_iters: u32, env: Seq<char>)
    ensures
        round_line(iter, max_iters, Some(env)) == "retread solve: pixi install iteration "@
            + decimal(iter as nat) + "/"@ + decimal(max_iters as nat) + (" ("@ + env + ")"@),
        round_line(iter, max_iters, None) == "retread solve: pixi install iteration "@ + decimal(
            iter as nat,
        ) + "/"@ + decimal(max_iters as nat),
{
    reveal_strlit("");
    let head = "retread solve: pixi install iteration "@ + decimal(iter as nat) + "/"@ + decimal(
        max_iters as nat,
    );
    assert(head + ""@ =~= head);
}

} // verus!
