//! The rounds of a lock: what is done about each failure, and when to stop.
pub mod args;

use crate::patterns::regex_replaced_all;
use crate::solve::document::is_sound;
use crate::solve::error::{
    EXIT_EXHAUSTED, EXIT_INTERRUPTED, EXIT_MAX_ITERS, EXIT_OK, EXIT_UNPARSEABLE,
};
use crate::solve::fallback::{batch_result, candidates_of, law_batch_only_adds};
use crate::solve::ladder::{repair_step, LadderView, PlanView};
use crate::solve::ledger::{
    add_attempts, append_attempt, differ_at_most_in, finished, law_attempt_is_recorded_last,
    law_attempts_are_recorded_in_order, law_outcome_is_the_runs_own, mark_last_widen_failed,
    widen_failed, with_attempt, with_attempts, with_run, AttemptView, LedgerView, RunView,
    SolveLedger, Strategy, TriedState,
};
use crate::solve::manifest::ManifestEditor;
use crate::solve::ownership::SceneView;
use crate::solve::parse::{
    abi_tail_diagnosis, bundle_name, diagnose_abi_build_tail, generic_mentions, is_conda_unsat,
    law_closure_names_its_pack, law_refusal_is_one_of_two_sentences, parsed_conflict, reads, tail,
    tail_of, text_begins, text_has, ANSI, Conflict, ConflictParser, ConflictView, Mention,
    MentionView, RegexConflictParser,
};
use crate::solve::ranges::{can_widen, widenable};
use crate::solve::repair::{
    is_abi_anchor, is_anchor, OutcomeView, PackOverrideWrite, RepairOutcome, RepairPlanner,
    WriteView,
};
use crate::solve::session::{
    orders_undone, pending_of, record_of, record_repair, summarize, summary_lines, undo_refused, undone,
    PendingEdit, PendingView, RecordView, RepairRecord,
};
use crate::solve::workspace::Facts;
use crate::text::{decimal, decimal_text, push_view, text_eq};
use vstd::prelude::*;

verus! {

broadcast use vstd::seq_lib::group_seq_properties;

/// How many repairs a lock makes where nothing says otherwise.
pub const DEFAULT_MAX_REPAIRS: u32 = 50;

/// What the user asks of a lock.
#[derive(Debug)]
pub struct LockArgs {
    pub manifest: String,
    pub max_repairs: u32,
    pub no_repair: bool,
}

/// What a `LockArgs` says.
#[verifier::ext_equal]
pub struct LockArgsView {
    pub manifest: Seq<char>,
    pub max_repairs: u32,
    pub no_repair: bool,
}

impl DeepView for LockArgs {
    type V = LockArgsView;

    open spec fn deep_view(&self) -> LockArgsView {
        LockArgsView {
            manifest: self.manifest@,
            max_repairs: self.max_repairs,
            no_repair: self.no_repair,
        }
    }
}

/// What is asked for where the command line says nothing.
pub open spec fn default_lock_args() -> LockArgsView {
    LockArgsView { manifest: "pixi.toml"@, max_repairs: DEFAULT_MAX_REPAIRS, no_repair: false }
}

impl Default for LockArgs {
    fn default() -> (r: Self)
        ensures
            r.deep_view() == default_lock_args(),
    {
        LockArgs {
            manifest: "pixi.toml".to_owned(),
            max_repairs: DEFAULT_MAX_REPAIRS,
            no_repair: false,
        }
    }
}

// ---------------------------------------------------------------------------
// What a round comes to
// ---------------------------------------------------------------------------

/// What becomes of what the run has written so far.
#[derive(Debug, Clone, Copy, PartialEq, Eq, Structural)]
pub enum Fate {
    /// It stays, and can still be taken back.
    Keep,
    /// It is taken back.
    Rollback,
    /// It stays for good.
    Settle,
}

/// What is to be done after a round: write the manifest, record overrides with the
/// kind of conflict that they answer, take back or settle what was written, tell the
/// user `lines` as they come and `summary` as the result, and stop with an exit code
/// or go on. The ledger is written in any case.
#[derive(Debug)]
pub struct LockStep {
    pub write_manifest: bool,
    pub overrides: Vec<(PackOverrideWrite, String)>,
    pub fate: Fate,
    pub lines: Vec<String>,
    pub summary: Vec<String>,
    pub exit: Option<i32>,
}

/// What a `LockStep` says.
#[verifier::ext_equal]
pub struct LockStepView {
    pub write_manifest: bool,
    pub overrides: Seq<(WriteView, Seq<char>)>,
    pub fate: Fate,
    pub lines: Seq<Seq<char>>,
    pub summary: Seq<Seq<char>>,
    pub exit: Option<i32>,
}

impl DeepView for LockStep {
    type V = LockStepView;

    open spec fn deep_view(&self) -> LockStepView {
        LockStepView {
            write_manifest: self.write_manifest,
            overrides: self.overrides.deep_view(),
            fate: self.fate,
            lines: self.lines.deep_view(),
            summary: self.summary.deep_view(),
            exit: self.exit,
        }
    }
}

/// Stop with this exit code.
pub open spec fn stop(
    fate: Fate,
    lines: Seq<Seq<char>>,
    summary: Seq<Seq<char>>,
    exit: i32,
) -> LockStepView {
    LockStepView {
        write_manifest: false,
        overrides: Seq::empty(),
        fate,
        lines,
        summary,
        exit: Some(exit),
    }
}

/// Go on.
pub open spec fn again(
    write_manifest: bool,
    overrides: Seq<(WriteView, Seq<char>)>,
    lines: Seq<Seq<char>>,
) -> LockStepView {
    LockStepView {
        write_manifest,
        overrides,
        fate: Fate::Keep,
        lines,
        summary: Seq::empty(),
        exit: None,
    }
}

fn stopping(fate: Fate, lines: Vec<String>, summary: Vec<String>, exit: i32) -> (r: LockStep)
    ensures
        r.deep_view() == stop(fate, lines.deep_view(), summary.deep_view(), exit),
{
    let overrides: Vec<(PackOverrideWrite, String)> = Vec::new();
    assert(overrides.deep_view() =~= Seq::<(WriteView, Seq<char>)>::empty());
    LockStep { write_manifest: false, overrides, fate, lines, summary, exit: Some(exit) }
}

fn going_on(
    write_manifest: bool,
    overrides: Vec<(PackOverrideWrite, String)>,
    lines: Vec<String>,
) -> (r: LockStep)
    ensures
        r.deep_view() == again(write_manifest, overrides.deep_view(), lines.deep_view()),
{
    let summary: Vec<String> = Vec::new();
    assert(summary.deep_view() =~= Seq::<Seq<char>>::empty());
    LockStep { write_manifest, overrides, fate: Fate::Keep, lines, summary, exit: None }
}

/// What a run changes as it goes.
#[verifier::ext_equal]
pub struct LockView {
    pub ladder: LadderView,
    pub failed: Set<(Seq<char>, Strategy)>,
    pub ledger: LedgerView,
    pub records: Seq<RecordView>,
    pub pending: Option<PendingView>,
    pub applied: u32,
}

/// What stays as it is in a run: the ledger's run, the number of repairs that may
/// be made, and the manifest.
#[verifier::ext_equal]
pub struct LockSetup {
    pub run_idx: int,
    pub max_repairs: u32,
    pub file: Seq<char>,
}

/// What is told when the number of repairs is used up.
pub open spec fn used_up_lines(setup: LockSetup, note: Seq<char>, raw: Seq<char>) -> Seq<Seq<char>> {
    seq![
        "retread lock: max repairs ("@ + decimal(setup.max_repairs as nat)
            + ") reached; last conflict unresolved"@ + note + " for manifest "@ + setup.file,
        tail_of(raw, 4000),
    ]
}

/// The end of a run whose repairs are used up: what was written stays.
pub open spec fn used_up(v: LockView, setup: LockSetup, note: Seq<char>, raw: Seq<char>) -> (
    LockView,
    LockStepView,
) {
    (
        LockView { ledger: finished(v.ledger, setup.run_idx, "max_repairs"@), ..v },
        stop(
            Fate::Keep,
            used_up_lines(setup, note, raw),
            summary_lines(v.records),
            EXIT_MAX_ITERS,
        ),
    )
}

/// The end of a run in which nothing is left to try: what was written is taken
/// back.
pub open spec fn exhausted(v: LockView, setup: LockSetup, line: Seq<char>) -> (
    LockView,
    LockStepView,
) {
    (
        LockView { ledger: finished(v.ledger, setup.run_idx, "exhausted"@), ..v },
        stop(Fate::Rollback, seq![line], summary_lines(v.records), EXIT_EXHAUSTED),
    )
}

/// What is told when nothing is left to try for a package.
pub open spec fn exhausted_line(package: Seq<char>) -> Seq<char> {
    if is_anchor(package) {
        "retread lock: ABI-anchor package "@ + package
            + " cannot be auto-repaired; edit the manifest manually"@
    } else {
        "retread lock: exhausted repair strategies for "@ + package
    }
}

/// The round after one repair.
pub open spec fn repaired(v: LockView, setup: LockSetup, after: LadderView, out: OutcomeView) -> (
    LockView,
    LockStepView,
) {
    (
        LockView {
            ladder: after,
            ledger: with_attempt(
                with_attempts(v.ledger, setup.run_idx, out.extra_attempts),
                setup.run_idx,
                out.attempt,
            ),
            records: v.records.push(record_of(out.attempt, out.applied, out.pack_override)),
            pending: pending_of(out.applied),
            applied: (v.applied + 1) as u32,
            ..v
        },
        again(
            true,
            match out.pack_override {
                Some(w) => seq![(w, out.attempt.conflict)],
                None => Seq::empty(),
            },
            Seq::empty(),
        ),
    )
}

/// What a round comes to whose failure is a known conflict.
pub open spec fn conflict_round(
    plan: PlanView,
    v: LockView,
    setup: LockSetup,
    c: ConflictView,
    raw: Seq<char>,
) -> (LockView, LockStepView) {
    if v.applied >= setup.max_repairs {
        used_up(v, setup, ""@, raw)
    } else {
        let (after, out) = repair_step(plan, v.ladder, c, (v.applied + 1) as u32);
        match out {
            Ok(o) => repaired(v, setup, after, o),
            Err(package) => exhausted(
                LockView { ladder: after, ..v },
                setup,
                exhausted_line(package),
            ),
        }
    }
}

/// The records with those of a batch.
pub open spec fn batch_records(
    records: Seq<RecordView>,
    made: Seq<(OutcomeView, Option<WriteView>)>,
) -> Seq<RecordView>
    decreases made.len(),
{
    if made.len() == 0 {
        records
    } else {
        let (o, w) = made.last();
        batch_records(records, made.drop_last()).push(record_of(o.attempt, o.applied, w))
    }
}

/// What is to be recorded of a batch.
pub open spec fn batch_overrides(made: Seq<(OutcomeView, Option<WriteView>)>) -> Seq<
    (WriteView, Seq<char>),
>
    decreases made.len(),
{
    if made.len() == 0 {
        Seq::empty()
    } else {
        let (o, w) = made.last();
        let before = batch_overrides(made.drop_last());
        match w {
            Some(write) => before.push((write, o.attempt.conflict)),
            None => before,
        }
    }
}

/// The attempts of a batch.
pub open spec fn batch_attempts(made: Seq<(OutcomeView, Option<WriteView>)>) -> Seq<AttemptView> {
    made.map_values(|m: (OutcomeView, Option<WriteView>)| m.0.attempt)
}

/// A count with more added, as far as it can count.
pub open spec fn raised(count: u32, more: nat) -> u32 {
    if count + more > u32::MAX {
        u32::MAX
    } else {
        (count + more) as u32
    }
}

/// The round after a batch of repairs.
pub open spec fn batch_repaired(
    v: LockView,
    setup: LockSetup,
    made: Seq<(OutcomeView, Option<WriteView>)>,
) -> (LockView, LockStepView) {
    (
        LockView {
            ledger: with_attempts(v.ledger, setup.run_idx, batch_attempts(made)),
            records: batch_records(v.records, made),
            pending: None,
            applied: raised(v.applied, made.len()),
            ..v
        },
        again(false, batch_overrides(made), Seq::empty()),
    )
}

/// What a round comes to whose failure is of no known shape; `None` where its
/// mentions allow no repair.
pub open spec fn fallback_round(
    sc: SceneView,
    v: LockView,
    setup: LockSetup,
    pack_name: Option<Seq<char>>,
    mentions: Seq<MentionView>,
    raw: Seq<char>,
) -> Option<(LockView, LockStepView)> {
    let (after, out) = batch_result(sc, v.ladder, pack_name, mentions, raised(v.applied, 1));
    let next = LockView { ladder: after, ..v };
    match out {
        None => None,
        Some(result) => if v.applied >= setup.max_repairs {
            Some(used_up(next, setup, " (generic fallback)"@, raw))
        } else {
            match result {
                Ok(made) => Some(batch_repaired(next, setup, made)),
                Err(package) => Some(
                    exhausted(
                        next,
                        setup,
                        "retread lock: exhausted generic fallback repair strategies for "@
                            + package,
                    ),
                ),
            }
        },
    }
}

/// The records without the widenings of a package.
pub open spec fn without_widenings(records: Seq<RecordView>, package: Seq<char>) -> Seq<RecordView>
    decreases records.len(),
{
    if records.len() == 0 {
        records
    } else {
        let before = without_widenings(records.drop_last(), package);
        let r = records.last();
        if r.package == package && r.strategy == Strategy::WidenConda {
            before
        } else {
            before.push(r)
        }
    }
}

/// The state with the last edits taken back.
pub open spec fn taken_back(v: LockView, p: PendingView) -> LockView {
    LockView {
        ladder: LadderView {
            nodes: undone(v.ladder.nodes, p.edits),
            orders: orders_undone(v.ladder.nodes, v.ladder.orders, p.edits),
            refused: v.ladder.refused || undo_refused(v.ladder.nodes, p.edits),
            ..v.ladder
        },
        pending: None,
        ..v
    }
}

/// The round after a widening that the conda solver refuses: it alone is taken
/// back, and counts as failed.
pub open spec fn widening_refused(v: LockView, setup: LockSetup, p: PendingView) -> (
    LockView,
    LockStepView,
) {
    let back = taken_back(v, p);
    let pair = (p.package, Strategy::WidenConda);
    (
        LockView {
            ladder: LadderView { tried: back.ladder.tried.insert(pair), ..back.ladder },
            failed: v.failed.insert(pair),
            ledger: with_run(
                v.ledger,
                setup.run_idx,
                |r: RunView| widen_failed(r, p.package),
            ),
            records: without_widenings(v.records, p.package),
            ..back
        },
        again(
            true,
            Seq::empty(),
            seq![
                "retread lock: post-widen conda unsat for "@ + p.package
                    + "; reverting only that widen"@,
            ],
        ),
    )
}

/// The end of a run whose failure cannot be read: what was written is taken back.
/// `write_manifest` says whether an edit was taken back before.
pub open spec fn unreadable(
    v: LockView,
    setup: LockSetup,
    write_manifest: bool,
    diagnosis: Option<Seq<char>>,
    raw: Seq<char>,
) -> (LockView, LockStepView) {
    let told = match diagnosis {
        Some(d) => seq![
            "retread lock: could not parse solver error; manifest kept as-is"@,
            d,
            tail_of(raw, 4000),
        ],
        None => seq![
            "retread lock: could not parse solver error; manifest kept as-is"@,
            tail_of(raw, 4000),
        ],
    };
    (
        LockView { ledger: finished(v.ledger, setup.run_idx, "unparseable"@), ..v },
        LockStepView {
            write_manifest,
            ..stop(Fate::Rollback, told, summary_lines(v.records), EXIT_UNPARSEABLE)
        },
    )
}

/// What a round comes to whose failure allows no repair.
pub open spec fn lost_round(
    v: LockView,
    setup: LockSetup,
    unsat: bool,
    diagnosis: Option<Seq<char>>,
    raw: Seq<char>,
) -> (LockView, LockStepView) {
    match v.pending {
        Some(p) => if p.strategy == Strategy::WidenConda && unsat {
            widening_refused(v, setup, p)
        } else {
            unreadable(taken_back(v, p), setup, true, diagnosis, raw)
        },
        None => unreadable(v, setup, false, diagnosis, raw),
    }
}

/// What is read of a failure's message.
#[verifier::ext_equal]
pub struct ReadingView {
    pub conflict: Option<ConflictView>,
    pub pack_name: Option<Seq<char>>,
    pub mentions: Seq<MentionView>,
    pub unsat: bool,
    pub diagnosis: Option<Seq<char>>,
}

/// What a failed round comes to.
pub open spec fn failed_round(
    plan: PlanView,
    sc: SceneView,
    v: LockView,
    setup: LockSetup,
    reading: ReadingView,
    raw: Seq<char>,
) -> (LockView, LockStepView) {
    match reading.conflict {
        Some(c) => conflict_round(plan, v, setup, c, raw),
        None => match fallback_round(sc, v, setup, reading.pack_name, reading.mentions, raw) {
            Some(r) => r,
            None => lost_round(v, setup, reading.unsat, reading.diagnosis, raw),
        },
    }
}

/// A message without the colours of a terminal.
pub open spec fn without_colours(raw: Seq<char>) -> Seq<char> {
    regex_replaced_all(ANSI@, raw, ""@)
}

/// What the reader makes of a message without its colours.
pub open spec fn reading_of(stripped: Seq<char>) -> ReadingView {
    ReadingView {
        conflict: parsed_conflict(stripped),
        pack_name: bundle_name(stripped),
        mentions: generic_mentions(stripped),
        unsat: is_conda_unsat(stripped),
        diagnosis: abi_tail_diagnosis(stripped),
    }
}

// ---------------------------------------------------------------------------
// Laws
// ---------------------------------------------------------------------------

/// A failed round ends the run in one of three ways. Where the repairs are used up
/// what was written stays; where nothing is left to try, or the failure cannot be
/// read, it is taken back. A round that goes on keeps it.
pub proof fn law_dead_ends_are_taken_back(
    plan: PlanView,
    sc: SceneView,
    v: LockView,
    setup: LockSetup,
    reading: ReadingView,
    raw: Seq<char>,
)
    ensures
        ({
            let (_, step) = failed_round(plan, sc, v, setup, reading, raw);
            match step.exit {
                None => step.fate == Fate::Keep,
                Some(code) => {
                    ||| code == EXIT_MAX_ITERS && step.fate == Fate::Keep
                    ||| code == EXIT_EXHAUSTED && step.fate == Fate::Rollback
                    ||| code == EXIT_UNPARSEABLE && step.fate == Fate::Rollback
                },
            }
        }),
{
}

/// Once the repairs are used up, a failed round writes nothing but what takes an
/// edit back, and counts no further repair.
pub proof fn law_used_up_makes_no_repair(
    plan: PlanView,
    sc: SceneView,
    v: LockView,
    setup: LockSetup,
    reading: ReadingView,
    raw: Seq<char>,
)
    requires
        v.applied >= setup.max_repairs,
    ensures
        ({
            let (after, step) = failed_round(plan, sc, v, setup, reading, raw);
            &&& step.overrides.len() == 0
            &&& after.applied == v.applied
            &&& step.write_manifest ==> v.pending is Some && after.ladder.nodes == undone(
                v.ladder.nodes,
                v.pending->0.edits,
            )
            &&& !step.write_manifest ==> after.ladder.nodes == v.ladder.nodes
        }),
{
    let iter = raised(v.applied, 1);
    if reading.conflict is None {
        let candidates = candidates_of(sc, reading.pack_name, reading.mentions);
        law_batch_only_adds(sc, v.ladder, candidates, iter);
    }
}

/// A repair of a known conflict counts once, and is made only while some are left.
pub proof fn law_known_conflict_counts_once(
    plan: PlanView,
    v: LockView,
    setup: LockSetup,
    c: ConflictView,
    raw: Seq<char>,
)
    requires
        v.applied <= setup.max_repairs,
    ensures
        ({
            let (after, step) = conflict_round(plan, v, setup, c, raw);
            &&& after.applied <= setup.max_repairs
            &&& step.exit is None <==> after.applied == v.applied + 1
            &&& step.exit is Some <==> after.applied == v.applied
        }),
{
}

/// A widening that the conda solver refuses is taken back alone and never tried
/// again; the run goes on without counting it.
pub proof fn law_refused_widening_is_not_repeated(
    v: LockView,
    setup: LockSetup,
    diagnosis: Option<Seq<char>>,
    raw: Seq<char>,
)
    requires
        v.pending matches Some(p) && p.strategy == Strategy::WidenConda,
    ensures
        ({
            let (after, step) = lost_round(v, setup, true, diagnosis, raw);
            let p = v.pending->0;
            &&& step.exit is None
            &&& step.write_manifest
            &&& after.ladder.nodes == undone(v.ladder.nodes, p.edits)
            &&& after.ladder.tried.contains((p.package, Strategy::WidenConda))
            &&& after.failed.contains((p.package, Strategy::WidenConda))
            &&& after.pending is None
            &&& after.applied == v.applied
        }),
{
}

// ---------------------------------------------------------------------------
// The run
// ---------------------------------------------------------------------------

/// What is read of a failure's message.
#[derive(Debug)]
pub struct Reading {
    pub conflict: Option<Conflict>,
    pub pack_name: Option<String>,
    pub mentions: Vec<Mention>,
    pub unsat: bool,
    pub diagnosis: Option<String>,
}

impl DeepView for Reading {
    type V = ReadingView;

    open spec fn deep_view(&self) -> ReadingView {
        ReadingView {
            conflict: self.conflict.deep_view(),
            pack_name: self.pack_name.deep_view(),
            mentions: self.mentions.deep_view(),
            unsat: self.unsat,
            diagnosis: self.diagnosis.deep_view(),
        }
    }
}

/// Reads a failure's message, without its colours.
pub fn read_failure(parser: &RegexConflictParser, stripped: &str) -> (r: Reading)
    ensures
        r.deep_view() == reading_of(stripped@),
{
    Reading {
        conflict: parser.parse(stripped),
        pack_name: parser.extract_bundle_name(stripped),
        mentions: parser.extract_generic_mentions(stripped),
        unsat: RegexConflictParser::is_post_widen_conda_unsat(stripped),
        diagnosis: diagnose_abi_build_tail(stripped),
    }
}

/// A lock under way.
pub struct LockRun {
    pub planner: RepairPlanner,
    pub editor: ManifestEditor,
    pub tried: TriedState,
    pub ledger: SolveLedger,
    pub run_idx: usize,
    pub max_repairs: u32,
    pub records: Vec<RepairRecord>,
    pub pending: Option<PendingEdit>,
    pub repairs_applied: u32,
    pub rounds_left: u64,
}

/// Whether a run is set up as another was: its planner, its manifest's place, its
/// place in the ledger and its bounds are the same, and its manifest can be
/// written.
pub open spec fn same_setup(a: LockRun, b: LockRun) -> bool {
    &&& b.planner.feature@ == a.planner.feature@
    &&& b.planner.ceiling_policy == a.planner.ceiling_policy
    &&& b.planner.relax_preference == a.planner.relax_preference
    &&& b.planner.names() == a.planner.names()
    &&& b.editor.file() == a.editor.file()
    &&& b.editor.dir() == a.editor.dir()
    &&& is_sound(b.editor.nodes())
    &&& b.run_idx == a.run_idx
    &&& b.max_repairs == a.max_repairs
    &&& b.rounds_left == a.rounds_left
}

impl LockRun {
    /// What the run changes as it goes.
    pub open spec fn view(&self) -> LockView {
        LockView {
            ladder: self.planner.ladder(self.editor, self.tried),
            failed: self.tried.failed_set(),
            ledger: self.ledger.deep_view(),
            records: self.records.deep_view(),
            pending: self.pending.deep_view(),
            applied: self.repairs_applied,
        }
    }

    /// What stays as it is in the run.
    pub open spec fn setup(&self) -> LockSetup {
        LockSetup {
            run_idx: self.run_idx as int,
            max_repairs: self.max_repairs,
            file: self.editor.file(),
        }
    }

    /// A lock that has not repaired anything. It has rounds for each repair to be
    /// made and taken back, and a few more.
    pub fn new(
        planner: RepairPlanner,
        editor: ManifestEditor,
        tried: TriedState,
        ledger: SolveLedger,
        run_idx: usize,
        max_repairs: u32,
    ) -> (r: Self)
        ensures
            r.planner == planner,
            r.editor == editor,
            r.tried == tried,
            r.ledger == ledger,
            r.run_idx == run_idx,
            r.max_repairs == max_repairs,
            r.view().records == Seq::<RecordView>::empty(),
            r.pending is None,
            r.repairs_applied == 0,
            r.rounds_left == 2 * max_repairs + 8,
    {
        let records: Vec<RepairRecord> = Vec::new();
        assert(records.deep_view() =~= Seq::<RecordView>::empty());
        LockRun {
            planner,
            editor,
            tried,
            ledger,
            run_idx,
            max_repairs,
            records,
            pending: None,
            repairs_applied: 0,
            rounds_left: max_repairs as u64 * 2 + 8,
        }
    }

    /// Begins a round. Where no round is left the run ends: what was written stays.
    pub fn begin_round(&mut self) -> (r: Option<LockStep>)
        ensures
            match r {
                None => old(self).rounds_left > 0 && final(self).rounds_left == old(
                    self,
                ).rounds_left - 1 && final(self).view() == old(self).view(),
                Some(step) => old(self).rounds_left == 0 && step.deep_view() == stop(
                    Fate::Keep,
                    seq!["retread lock: internal loop bound reached without converging"@],
                    summary_lines(old(self).view().records),
                    EXIT_MAX_ITERS,
                ) && final(self).view() == (LockView {
                    ledger: finished(old(self).view().ledger, old(self).run_idx as int, "max_iters"@),
                    ..old(self).view()
                }) && final(self).rounds_left == 0,
            },
            final(self).editor == old(self).editor,
            final(self).planner == old(self).planner,
            final(self).run_idx == old(self).run_idx,
            final(self).max_repairs == old(self).max_repairs,
    {
        if self.rounds_left > 0 {
            self.rounds_left = self.rounds_left - 1;
            return None;
        }
        self.ledger.finish_run(self.run_idx, "max_iters");
        let lines: Vec<String> = vec![
            "retread lock: internal loop bound reached without converging".to_owned(),
        ];
        assert(lines.deep_view() =~= seq![
            "retread lock: internal loop bound reached without converging"@,
        ]);
        Some(stopping(Fate::Keep, lines, summarize(&self.records), EXIT_MAX_ITERS))
    }

    fn finish(&mut self, outcome: &str)
        ensures
            final(self).view() == (LockView {
                ledger: finished(old(self).view().ledger, old(self).run_idx as int, outcome@),
                ..old(self).view()
            }),
            final(self).editor == old(self).editor,
            final(self).planner == old(self).planner,
            final(self).records == old(self).records,
            final(self).run_idx == old(self).run_idx,
            final(self).max_repairs == old(self).max_repairs,
            final(self).rounds_left == old(self).rounds_left,
    {
        self.ledger.finish_run(self.run_idx, outcome);
    }

    /// Ends the run where the solver could not be run at all: what was written is
    /// taken back.
    pub fn on_crash(&mut self) -> (fate: Fate)
        ensures
            fate == Fate::Rollback,
            final(self).view() == (LockView {
                ledger: finished(old(self).view().ledger, old(self).run_idx as int, "crashed"@),
                ..old(self).view()
            }),
    {
        self.finish("crashed");
        Fate::Rollback
    }

    /// Ends the run where the user stopped it: what was written is taken back.
    pub fn on_interrupt(&mut self) -> (r: LockStep)
        ensures
            r.deep_view() == stop(Fate::Rollback, Seq::empty(), Seq::empty(), EXIT_INTERRUPTED),
            final(self).view() == (LockView {
                ledger: finished(old(self).view().ledger, old(self).run_idx as int, "interrupted"@),
                ..old(self).view()
            }),
    {
        self.finish("interrupted");
        let lines: Vec<String> = Vec::new();
        let summary: Vec<String> = Vec::new();
        assert(lines.deep_view() =~= Seq::<Seq<char>>::empty());
        assert(summary.deep_view() =~= Seq::<Seq<char>>::empty());
        stopping(Fate::Rollback, lines, summary, EXIT_INTERRUPTED)
    }

    /// Ends the run where the lock succeeds: what was written stays for good.
    pub fn on_success(&mut self) -> (r: LockStep)
        ensures
            r.deep_view() == stop(
                Fate::Settle,
                Seq::empty(),
                summary_lines(old(self).view().records),
                EXIT_OK,
            ),
            final(self).view() == (LockView {
                ledger: finished(old(self).view().ledger, old(self).run_idx as int, "converged"@),
                ..old(self).view()
            }),
    {
        self.finish("converged");
        let lines: Vec<String> = Vec::new();
        assert(lines.deep_view() =~= Seq::<Seq<char>>::empty());
        stopping(Fate::Settle, lines, summarize(&self.records), EXIT_OK)
    }

    fn use_up(&mut self, note: &str, raw: &str) -> (r: LockStep)
        requires
            is_sound(old(self).editor.nodes()),
        ensures
            (final(self).view(), r.deep_view()) == used_up(
                old(self).view(),
                old(self).setup(),
                note@,
                raw@,
            ),
            same_setup(*old(self), *final(self)),
    {
        self.finish("max_repairs");
        let mut first: String = "retread lock: max repairs (".to_owned();
        first.append(&decimal_text(self.max_repairs as u64));
        first.append(") reached; last conflict unresolved");
        first.append(note);
        first.append(" for manifest ");
        first.append(self.editor.manifest_path());
        let mut lines: Vec<String> = Vec::new();
        assert(lines.deep_view() =~= Seq::<Seq<char>>::empty());
        push_view(&mut lines, first);
        push_view(&mut lines, tail(raw, 4000));
        assert(lines.deep_view() =~= used_up_lines(old(self).setup(), note@, raw@));
        stopping(Fate::Keep, lines, summarize(&self.records), EXIT_MAX_ITERS)
    }

    fn exhaust(&mut self, line: String) -> (r: LockStep)
        requires
            is_sound(old(self).editor.nodes()),
        ensures
            (final(self).view(), r.deep_view()) == exhausted(
                old(self).view(),
                old(self).setup(),
                line@,
            ),
            same_setup(*old(self), *final(self)),
    {
        self.finish("exhausted");
        let mut lines: Vec<String> = Vec::new();
        assert(lines.deep_view() =~= Seq::<Seq<char>>::empty());
        let ghost text = line@;
        push_view(&mut lines, line);
        assert(lines.deep_view() =~= seq![text]);
        stopping(Fate::Rollback, lines, summarize(&self.records), EXIT_EXHAUSTED)
    }

    fn take_outcome(&mut self, out: RepairOutcome) -> (r: LockStep)
        requires
            is_sound(old(self).editor.nodes()),
            old(self).repairs_applied < u32::MAX,
        ensures
            (final(self).view(), r.deep_view()) == repaired(
                old(self).view(),
                old(self).setup(),
                old(self).view().ladder,
                out.deep_view(),
            ),
            same_setup(*old(self), *final(self)),
    {
        let run_idx: usize = self.run_idx;
        let RepairOutcome { attempt, extra_attempts, applied, summary_line: _, pack_override } = out;
        let conflict: String = attempt.conflict.clone();
        record_repair(
            &mut self.records,
            &attempt,
            &applied,
            match &pack_override {
                Some(w) => Some(w),
                None => None,
            },
        );
        add_attempts(&mut self.ledger, run_idx, extra_attempts);
        append_attempt(&mut self.ledger, run_idx, attempt);
        self.pending = PendingEdit::from_edits(applied);
        self.repairs_applied = self.repairs_applied + 1;
        let mut overrides: Vec<(PackOverrideWrite, String)> = Vec::new();
        assert(overrides.deep_view() =~= Seq::<(WriteView, Seq<char>)>::empty());
        match pack_override {
            Some(w) => {
                let ghost pair = (w.deep_view(), conflict@);
                push_view(&mut overrides, (w, conflict));
                assert(overrides.deep_view() =~= seq![pair]);
            },
            None => {},
        }
        let lines: Vec<String> = Vec::new();
        assert(lines.deep_view() =~= Seq::<Seq<char>>::empty());
        going_on(true, overrides, lines)
    }

    fn on_conflict(&mut self, facts: &Facts, conflict: &Conflict, raw: &str) -> (r: LockStep)
        requires
            is_sound(old(self).editor.nodes()),
            conflict.deep_view() matches ConflictView::CondaWidenNeeded { floor, .. } ==> can_widen(
                floor,
                old(self).planner.ceiling_policy,
            ),
        ensures
            (final(self).view(), r.deep_view()) == conflict_round(
                old(self).planner.plan(old(self).editor, *facts),
                old(self).view(),
                old(self).setup(),
                conflict.deep_view(),
                raw@,
            ),
            same_setup(*old(self), *final(self)),
    {
        if self.repairs_applied >= self.max_repairs {
            return self.use_up("", raw);
        }
        let iter: u32 = self.repairs_applied + 1;
        let result = self.planner.repair(
            &mut self.editor,
            &mut self.tried,
            facts,
            conflict,
            iter,
        );
        match result {
            Ok(out) => self.take_outcome(out),
            Err(package) => {
                let line: String = if is_abi_anchor(&package) {
                    let mut s: String = "retread lock: ABI-anchor package ".to_owned();
                    s.append(&package);
                    s.append(" cannot be auto-repaired; edit the manifest manually");
                    s
                } else {
                    "retread lock: exhausted repair strategies for ".to_owned().concat(&package)
                };
                self.exhaust(line)
            },
        }
    }

    fn take_batch(&mut self, made: Vec<(RepairOutcome, Option<PackOverrideWrite>)>) -> (r: LockStep)
        requires
            is_sound(old(self).editor.nodes()),
        ensures
            (final(self).view(), r.deep_view()) == batch_repaired(
                old(self).view(),
                old(self).setup(),
                made.deep_view(),
            ),
            same_setup(*old(self), *final(self)),
    {
        let ghost v = self.view();
        let ghost idx = self.run_idx as int;
        let ghost all = made.deep_view();
        let n: usize = made.len();
        let run_idx: usize = self.run_idx;
        let mut rest: Vec<(RepairOutcome, Option<PackOverrideWrite>)> = made;
        let mut overrides: Vec<(PackOverrideWrite, String)> = Vec::new();
        assert(overrides.deep_view() =~= Seq::<(WriteView, Seq<char>)>::empty());
        let mut i: usize = 0;
        assert(rest.deep_view() =~= all.skip(0));
        assert(batch_attempts(all.take(0)) =~= Seq::<AttemptView>::empty());
        while i < n
            invariant
                i <= n,
                n == all.len(),
                n - i == rest@.len(),
                rest.deep_view() == all.skip(i as int),
                run_idx == idx,
                v == old(self).view(),
                overrides.deep_view() == batch_overrides(all.take(i as int)),
                self.ledger.deep_view() == with_attempts(
                    v.ledger,
                    idx,
                    batch_attempts(all.take(i as int)),
                ),
                self.records.deep_view() == batch_records(v.records, all.take(i as int)),
                self.planner == old(self).planner,
                self.editor == old(self).editor,
                self.tried == old(self).tried,
                self.run_idx == old(self).run_idx,
                self.max_repairs == old(self).max_repairs,
                self.repairs_applied == old(self).repairs_applied,
                self.rounds_left == old(self).rounds_left,
            decreases n - i,
        {
            assert(all.take(i + 1).drop_last() =~= all.take(i as int));
            assert(all.take(i + 1).last() == all[i as int]);
            let ghost attempts = batch_attempts(all.take(i + 1));
            assert(attempts.drop_last() =~= batch_attempts(all.take(i as int)));
            assert(attempts.last() == all[i as int].0.attempt);
            let (out, written) = rest.remove(0);
            assert(out.deep_view() == all[i as int].0);
            assert(written.deep_view() == all[i as int].1);
            assert(rest.deep_view() =~= all.skip(i + 1));
            let conflict: String = out.attempt.conflict.clone();
            record_repair(
                &mut self.records,
                &out.attempt,
                &out.applied,
                match &written {
                    Some(w) => Some(w),
                    None => None,
                },
            );
            append_attempt(&mut self.ledger, run_idx, out.attempt);
            match written {
                Some(w) => {
                    push_view(&mut overrides, (w, conflict));
                },
                None => {},
            }
            i = i + 1;
        }
        assert(all.take(n as int) =~= all);
        self.pending = None;
        let room: u32 = u32::MAX - self.repairs_applied;
        if n as u64 > room as u64 {
            self.repairs_applied = u32::MAX;
        } else {
            self.repairs_applied = self.repairs_applied + n as u32;
        }
        let lines: Vec<String> = Vec::new();
        assert(lines.deep_view() =~= Seq::<Seq<char>>::empty());
        going_on(false, overrides, lines)
    }

    fn on_mentions(
        &mut self,
        facts: &Facts,
        pack_name: Option<&str>,
        mentions: &Vec<Mention>,
        raw: &str,
    ) -> (r: Option<LockStep>)
        requires
            is_sound(old(self).editor.nodes()),
        ensures
            match (
                r,
                fallback_round(
                    old(self).planner.scene(old(self).editor, *facts),
                    old(self).view(),
                    old(self).setup(),
                    pack_name.deep_view(),
                    mentions.deep_view(),
                    raw@,
                ),
            ) {
                (Some(step), Some(out)) => (final(self).view(), step.deep_view()) == out,
                (None, None) => final(self).view() == old(self).view() && final(self).pending
                    == old(self).pending,
                _ => false,
            },
            same_setup(*old(self), *final(self)),
    {
        let iter: u32 = if self.repairs_applied < u32::MAX {
            self.repairs_applied + 1
        } else {
            u32::MAX
        };
        let result = self.planner.repair_mentions_batch(
            &self.editor,
            &mut self.tried,
            facts,
            pack_name,
            mentions,
            iter,
        );
        match result {
            None => None,
            Some(made) => {
                if self.repairs_applied >= self.max_repairs {
                    return Some(self.use_up(" (generic fallback)", raw));
                }
                match made {
                    Ok(made) => Some(self.take_batch(made)),
                    Err(package) => {
                        Some(
                            self.exhaust(
                                "retread lock: exhausted generic fallback repair strategies for ".to_owned().concat(
                                    &package),
                            ),
                        )
                    },
                }
            },
        }
    }

    fn revert_widening(&mut self, pending: PendingEdit) -> (r: LockStep)
        requires
            is_sound(old(self).editor.nodes()),
            old(self).pending is None,
        ensures
            (final(self).view(), r.deep_view()) == widening_refused(
                old(self).view(),
                old(self).setup(),
                pending.deep_view(),
            ),
            same_setup(*old(self), *final(self)),
    {
        pending.restore(&mut self.editor);
        self.tried.mark(&pending.package, Strategy::WidenConda, true);
        mark_last_widen_failed(&mut self.ledger, self.run_idx, &pending.package);
        drop_widenings(&mut self.records, &pending.package);
        let mut line: String = "retread lock: post-widen conda unsat for ".to_owned();
        line.append(&pending.package);
        line.append("; reverting only that widen");
        let ghost text = line@;
        let mut lines: Vec<String> = Vec::new();
        assert(lines.deep_view() =~= Seq::<Seq<char>>::empty());
        push_view(&mut lines, line);
        assert(lines.deep_view() =~= seq![text]);
        let overrides: Vec<(PackOverrideWrite, String)> = Vec::new();
        assert(overrides.deep_view() =~= Seq::<(WriteView, Seq<char>)>::empty());
        going_on(true, overrides, lines)
    }

    fn give_up(&mut self, write_manifest: bool, diagnosis: Option<String>, raw: &str) -> (r:
        LockStep)
        requires
            is_sound(old(self).editor.nodes()),
        ensures
            (final(self).view(), r.deep_view()) == unreadable(
                old(self).view(),
                old(self).setup(),
                write_manifest,
                diagnosis.deep_view(),
                raw@,
            ),
            same_setup(*old(self), *final(self)),
    {
        self.finish("unparseable");
        let mut lines: Vec<String> = Vec::new();
        assert(lines.deep_view() =~= Seq::<Seq<char>>::empty());
        push_view(
            &mut lines,
            "retread lock: could not parse solver error; manifest kept as-is".to_owned(),
        );
        match diagnosis {
            Some(d) => {
                let ghost text = d@;
                push_view(&mut lines, d);
                push_view(&mut lines, tail(raw, 4000));
                assert(lines.deep_view() =~= seq![
                    "retread lock: could not parse solver error; manifest kept as-is"@,
                    text,
                    tail_of(raw@, 4000),
                ]);
            },
            None => {
                push_view(&mut lines, tail(raw, 4000));
                assert(lines.deep_view() =~= seq![
                    "retread lock: could not parse solver error; manifest kept as-is"@,
                    tail_of(raw@, 4000),
                ]);
            },
        }
        let mut step = stopping(Fate::Rollback, lines, summarize(&self.records), EXIT_UNPARSEABLE);
        step.write_manifest = write_manifest;
        step
    }

    fn on_lost(&mut self, unsat: bool, diagnosis: Option<String>, raw: &str) -> (r: LockStep)
        requires
            is_sound(old(self).editor.nodes()),
        ensures
            (final(self).view(), r.deep_view()) == lost_round(
                old(self).view(),
                old(self).setup(),
                unsat,
                diagnosis.deep_view(),
                raw@,
            ),
            same_setup(*old(self), *final(self)),
    {
        let ghost v = self.view();
        let mut pending: Option<PendingEdit> = None;
        std::mem::swap(&mut pending, &mut self.pending);
        match pending {
            Some(p) => {
                assert(v.pending == Some(p.deep_view()));
                if p.strategy == Strategy::WidenConda && unsat {
                    return self.revert_widening(p);
                }
                p.restore(&mut self.editor);
                assert(self.view() == taken_back(v, p.deep_view()));
                self.give_up(true, diagnosis, raw)
            },
            None => {
                assert(self.view() == v);
                self.give_up(false, diagnosis, raw)
            },
        }
    }

    /// Decides a round that failed, on what was read of its message.
    pub fn round_on(&mut self, facts: &Facts, reading: Reading, raw: &str) -> (r: LockStep)
        requires
            is_sound(old(self).editor.nodes()),
            reading.deep_view().conflict matches Some(
                ConflictView::CondaWidenNeeded { floor, .. },
            ) ==> can_widen(floor, old(self).planner.ceiling_policy),
        ensures
            (final(self).view(), r.deep_view()) == failed_round(
                old(self).planner.plan(old(self).editor, *facts),
                old(self).planner.scene(old(self).editor, *facts),
                old(self).view(),
                old(self).setup(),
                reading.deep_view(),
                raw@,
            ),
            same_setup(*old(self), *final(self)),
    {
        match &reading.conflict {
            Some(conflict) => {
                return self.on_conflict(facts, conflict, raw);
            },
            None => {},
        }
        let pack: Option<&str> = match &reading.pack_name {
            Some(p) => Some(p.as_str()),
            None => None,
        };
        match self.on_mentions(facts, pack, &reading.mentions, raw) {
            Some(step) => step,
            None => self.on_lost(reading.unsat, reading.diagnosis, raw),
        }
    }

    /// Decides a round that failed with this message. `None`, with nothing changed,
    /// where the conflict names a floor whose numbers are too large to step.
    pub fn round(&mut self, facts: &Facts, raw: &str) -> (r: Option<LockStep>)
        requires
            is_sound(old(self).editor.nodes()),
        ensures
            ({
                let reading = reading_of(without_colours(raw@));
                let steps = reading.conflict matches Some(
                    ConflictView::CondaWidenNeeded { floor, .. },
                ) ==> can_widen(floor, old(self).planner.ceiling_policy);
                match r {
                    Some(step) => steps && (final(self).view(), step.deep_view()) == failed_round(
                        old(self).planner.plan(old(self).editor, *facts),
                        old(self).planner.scene(old(self).editor, *facts),
                        old(self).view(),
                        old(self).setup(),
                        reading,
                        raw@,
                    ),
                    None => !steps && *final(self) == *old(self),
                }
            }),
            same_setup(*old(self), *final(self)),
    {
        let parser = RegexConflictParser::new();
        let stripped: String = parser.strip_ansi(raw);
        let reading = read_failure(&parser, &stripped);
        match &reading.conflict {
            Some(Conflict::CondaWidenNeeded { floor, .. }) => {
                if !widenable(floor, self.planner.ceiling_policy) {
                    return None;
                }
            },
            _ => {},
        }
        Some(self.round_on(facts, reading, raw))
    }
}

fn drop_widenings(records: &mut Vec<RepairRecord>, package: &str)
    ensures
        final(records).deep_view() == without_widenings(old(records).deep_view(), package@),
{
    let ghost all = records.deep_view();
    let mut rest: Vec<RepairRecord> = Vec::new();
    std::mem::swap(&mut rest, records);
    assert(records.deep_view() =~= Seq::<RecordView>::empty());
    let n: usize = rest.len();
    let mut i: usize = 0;
    assert(rest.deep_view() =~= all.skip(0));
    while i < n
        invariant
            i <= n,
            n == all.len(),
            n - i == rest@.len(),
            rest.deep_view() == all.skip(i as int),
            records.deep_view() == without_widenings(all.take(i as int), package@),
        decreases n - i,
    {
        assert(all.take(i + 1).drop_last() =~= all.take(i as int));
        assert(all.take(i + 1).last() == all[i as int]);
        let r = rest.remove(0);
        assert(r.deep_view() == all[i as int]);
        assert(rest.deep_view() =~= all.skip(i + 1));
        if !(text_eq(&r.package, package) && r.strategy == Strategy::WidenConda) {
            push_view(records, r);
        }
        i = i + 1;
    }
    assert(all.take(n as int) =~= all);
}

// ---------------------------------------------------------------------------
// Laws of what is recorded and told
// ---------------------------------------------------------------------------

/// A repair of a known conflict is recorded in the ledger behind what the run has tried
/// before, after the attempts that led to it, and in the closing table behind the others;
/// what it writes to a pack is recorded with the conflict that it answers, and its edits
/// can be taken back.
pub proof fn law_repair_is_recorded(
    plan: PlanView,
    v: LockView,
    setup: LockSetup,
    c: ConflictView,
    raw: Seq<char>,
    after: LadderView,
    out: OutcomeView,
)
    requires
        v.applied < setup.max_repairs,
        0 <= setup.run_idx < v.ledger.runs.len(),
        repair_step(plan, v.ladder, c, (v.applied + 1) as u32) == (
            after,
            Ok::<OutcomeView, Seq<char>>(out),
        ),
    ensures
        ({
            let (next, step) = conflict_round(plan, v, setup, c, raw);
            let run = next.ledger.runs[setup.run_idx];
            &&& run.attempts == v.ledger.runs[setup.run_idx].attempts + out.extra_attempts + seq![
                out.attempt,
            ]
            &&& run.outcome == v.ledger.runs[setup.run_idx].outcome
            &&& differ_at_most_in(next.ledger, v.ledger, setup.run_idx)
            &&& next.records.len() == v.records.len() + 1 && next.records.drop_last() == v.records
            &&& next.records.last().package == out.attempt.package
            &&& next.ladder == after && next.failed == v.failed
            &&& step.write_manifest && step.exit is None && step.lines.len() == 0
            &&& out.pack_override matches Some(w) ==> step.overrides == seq![
                (w, out.attempt.conflict),
            ]
            &&& out.pack_override is None ==> step.overrides.len() == 0
            &&& out.applied.len() > 0 ==> (next.pending matches Some(p) && p.edits == out.applied)
            &&& out.applied.len() == 0 ==> next.pending is None
        }),
{
    let idx = setup.run_idx;
    law_attempts_are_recorded_in_order(v.ledger, idx, out.extra_attempts);
    let mid = with_attempts(v.ledger, idx, out.extra_attempts);
    law_attempt_is_recorded_last(mid, idx, out.attempt);
    let (next, step) = conflict_round(plan, v, setup, c, raw);
    assert(next.ledger.runs[idx].attempts =~= v.ledger.runs[idx].attempts + out.extra_attempts
        + seq![out.attempt]);
    assert(next.records.drop_last() =~= v.records);
}

/// A conflict that nothing is left to try for ends the run: what was written is taken
/// back, the ledger says so of the run, and the user is told of the package.
pub proof fn law_exhausted_run_says_so(
    plan: PlanView,
    v: LockView,
    setup: LockSetup,
    c: ConflictView,
    raw: Seq<char>,
    after: LadderView,
    package: Seq<char>,
)
    requires
        v.applied < setup.max_repairs,
        0 <= setup.run_idx < v.ledger.runs.len(),
        repair_step(plan, v.ladder, c, (v.applied + 1) as u32) == (
            after,
            Err::<OutcomeView, Seq<char>>(package),
        ),
    ensures
        ({
            let (next, step) = conflict_round(plan, v, setup, c, raw);
            &&& next.ledger.runs[setup.run_idx].outcome == "exhausted"@
            &&& next.ledger.runs[setup.run_idx].attempts == v.ledger.runs[setup.run_idx].attempts
            &&& differ_at_most_in(next.ledger, v.ledger, setup.run_idx)
            &&& next.records == v.records && next.applied == v.applied && next.pending == v.pending
            &&& step.exit == Some(3i32) && step.fate == Fate::Rollback
            &&& !step.write_manifest && step.overrides.len() == 0
            &&& step.summary == summary_lines(v.records)
            &&& step.lines.len() == 1
            &&& !is_anchor(package) ==> step.lines[0]
                == "retread lock: exhausted repair strategies for "@ + package
            &&& is_anchor(package) ==> step.lines[0] == "retread lock: ABI-anchor package "@
                + package + " cannot be auto-repaired; edit the manifest manually"@
        }),
{
    law_outcome_is_the_runs_own(v.ledger, setup.run_idx, "exhausted"@);
}

/// Once the repairs are used up, a known conflict ends the run with what was written; the
/// ledger says so of the run, and the user is told how many repairs there were, of which
/// manifest, and how the message ends.
pub proof fn law_used_up_run_says_so(
    plan: PlanView,
    v: LockView,
    setup: LockSetup,
    c: ConflictView,
    raw: Seq<char>,
)
    requires
        v.applied >= setup.max_repairs,
        0 <= setup.run_idx < v.ledger.runs.len(),
    ensures
        ({
            let (next, step) = conflict_round(plan, v, setup, c, raw);
            &&& next.ledger.runs[setup.run_idx].outcome == "max_repairs"@
            &&& next.ledger.runs[setup.run_idx].attempts == v.ledger.runs[setup.run_idx].attempts
            &&& differ_at_most_in(next.ledger, v.ledger, setup.run_idx)
            &&& next.ladder == v.ladder && next.records == v.records && next.pending == v.pending
            &&& step.exit == Some(4i32) && step.fate == Fate::Keep && !step.write_manifest
            &&& step.summary == summary_lines(v.records)
            &&& step.lines.len() == 2 && step.lines[1] == tail_of(raw, 4000)
            &&& step.lines[0] == "retread lock: max repairs ("@ + decimal(setup.max_repairs as nat)
                + ") reached; last conflict unresolved for manifest "@ + setup.file
        }),
{
    law_outcome_is_the_runs_own(v.ledger, setup.run_idx, "max_repairs"@);
    reveal_strlit("");
    reveal_strlit(") reached; last conflict unresolved");
    reveal_strlit(" for manifest ");
    reveal_strlit(") reached; last conflict unresolved for manifest ");
    let head = "retread lock: max repairs ("@ + decimal(setup.max_repairs as nat);
    assert(head + ") reached; last conflict unresolved"@ + ""@ + " for manifest "@ + setup.file
        =~= head + ") reached; last conflict unresolved for manifest "@ + setup.file);
}

/// A message that says of no conflict and allows no repair ends the run, unless a
/// widening was just made that the conda solver refuses: the last edits are taken back,
/// then all that was written, and the user is told what can be made of the message.
pub proof fn law_unread_message_is_told(
    v: LockView,
    setup: LockSetup,
    unsat: bool,
    diagnosis: Option<Seq<char>>,
    raw: Seq<char>,
)
    requires
        v.pending matches Some(p) ==> !(p.strategy == Strategy::WidenConda && unsat),
        0 <= setup.run_idx < v.ledger.runs.len(),
    ensures
        ({
            let (next, step) = lost_round(v, setup, unsat, diagnosis, raw);
            &&& next.ledger.runs[setup.run_idx].outcome == "unparseable"@
            &&& next.ledger.runs[setup.run_idx].attempts == v.ledger.runs[setup.run_idx].attempts
            &&& differ_at_most_in(next.ledger, v.ledger, setup.run_idx)
            &&& next.records == v.records && next.applied == v.applied && next.pending is None
            &&& step.exit == Some(2i32) && step.fate == Fate::Rollback && step.overrides.len() == 0
            &&& step.write_manifest <==> v.pending is Some
            &&& v.pending is None ==> next.ladder == v.ladder
            &&& v.pending matches Some(p) ==> next.ladder.nodes == undone(v.ladder.nodes, p.edits)
                && next.ladder.tried == v.ladder.tried
            &&& step.lines[0] == "retread lock: could not parse solver error; manifest kept as-is"@
            &&& step.lines.last() == tail_of(raw, 4000)
            &&& diagnosis is None ==> step.lines.len() == 2
            &&& diagnosis matches Some(d) ==> step.lines.len() == 3 && step.lines[1] == d
        }),
{
    law_outcome_is_the_runs_own(v.ledger, setup.run_idx, "unparseable"@);
}

proof fn lemma_batch_records(
    records: Seq<RecordView>,
    made: Seq<(OutcomeView, Option<WriteView>)>,
)
    ensures
        batch_records(records, made).len() == records.len() + made.len(),
        forall|i: int|
            0 <= i < records.len() ==> #[trigger] batch_records(records, made)[i] == records[i],
        forall|i: int|
            #![trigger made[i]]
            0 <= i < made.len() ==> batch_records(records, made)[records.len() + i] == record_of(
                made[i].0.attempt,
                made[i].0.applied,
                made[i].1,
            ),
    decreases made.len(),
{
    if made.len() > 0 {
        let short = made.drop_last();
        lemma_batch_records(records, short);
        let before = batch_records(records, short);
        assert forall|i: int|
            #![trigger made[i]]
            0 <= i < made.len() implies batch_records(records, made)[records.len() + i]
            == record_of(made[i].0.attempt, made[i].0.applied, made[i].1) by {
            if i < short.len() {
                assert(short[i] == made[i]);
                assert(batch_records(records, made)[records.len() + i] == before[records.len()
                    + i]);
            }
        }
    }
}

proof fn lemma_batch_overrides(
    made: Seq<(OutcomeView, Option<WriteView>)>,
    w: WriteView,
    conflict: Seq<char>,
)
    ensures
        batch_overrides(made).contains((w, conflict)) <==> exists|i: int|
            0 <= i < made.len() && (#[trigger] made[i]).1 == Some(w) && made[i].0.attempt.conflict
                == conflict,
    decreases made.len(),
{
    if made.len() > 0 {
        let short = made.drop_last();
        lemma_batch_overrides(short, w, conflict);
        let last = made.len() - 1;
        assert(made[last] == made.last());
        if exists|i: int|
            0 <= i < short.len() && (#[trigger] short[i]).1 == Some(w)
                && short[i].0.attempt.conflict == conflict {
            let i = choose|i: int|
                0 <= i < short.len() && (#[trigger] short[i]).1 == Some(w)
                    && short[i].0.attempt.conflict == conflict;
            assert(made[i] == short[i]);
        }
        if exists|i: int|
            0 <= i < made.len() && (#[trigger] made[i]).1 == Some(w) && made[i].0.attempt.conflict
                == conflict {
            let i = choose|i: int|
                0 <= i < made.len() && (#[trigger] made[i]).1 == Some(w)
                    && made[i].0.attempt.conflict == conflict;
            if i < short.len() {
                assert(short[i] == made[i]);
            }
        }
    }
}

/// A batch of repairs is recorded whole and in order: each in the ledger and in the
/// closing table, what it writes with the conflict that it answers; each counts, and none
/// of them is an edit of the manifest that could be taken back alone.
pub proof fn law_batch_is_recorded(
    v: LockView,
    setup: LockSetup,
    made: Seq<(OutcomeView, Option<WriteView>)>,
    i: int,
    w: WriteView,
    conflict: Seq<char>,
)
    requires
        0 <= setup.run_idx < v.ledger.runs.len(),
        0 <= i < made.len(),
    ensures
        ({
            let (next, step) = batch_repaired(v, setup, made);
            let before = v.ledger.runs[setup.run_idx].attempts;
            let run = next.ledger.runs[setup.run_idx];
            &&& run.attempts.len() == before.len() + made.len()
            &&& run.attempts[before.len() + i] == made[i].0.attempt
            &&& run.attempts.take(before.len() as int) == before
            &&& differ_at_most_in(next.ledger, v.ledger, setup.run_idx)
            &&& next.records.len() == v.records.len() + made.len()
            &&& next.records.take(v.records.len() as int) == v.records
            &&& next.records[v.records.len() + i] == record_of(
                made[i].0.attempt,
                made[i].0.applied,
                made[i].1,
            )
            &&& step.overrides.contains((w, conflict)) <==> exists|k: int|
                0 <= k < made.len() && (#[trigger] made[k]).1 == Some(w)
                    && made[k].0.attempt.conflict == conflict
            &&& v.applied + made.len() <= u32::MAX ==> next.applied == v.applied + made.len()
            &&& next.pending is None && next.ladder == v.ladder
            &&& !step.write_manifest && step.exit is None
        }),
{
    let attempts = batch_attempts(made);
    law_attempts_are_recorded_in_order(v.ledger, setup.run_idx, attempts);
    assert(attempts[i] == made[i].0.attempt);
    lemma_batch_records(v.records, made);
    lemma_batch_overrides(made, w, conflict);
    let (next, step) = batch_repaired(v, setup, made);
    let before = v.ledger.runs[setup.run_idx].attempts;
    assert(next.ledger.runs[setup.run_idx].attempts.take(before.len() as int) =~= before);
    assert(next.records.take(v.records.len() as int) =~= v.records);
}

/// A widening that the conda solver refuses leaves the closing table, where all other
/// repairs stay; the ledger marks it as failed, in this run alone; the user is told of it.
pub proof fn law_refused_widening_is_forgotten(
    v: LockView,
    setup: LockSetup,
    diagnosis: Option<Seq<char>>,
    raw: Seq<char>,
    r: RecordView,
)
    requires
        v.pending matches Some(p) && p.strategy == Strategy::WidenConda,
        0 <= setup.run_idx < v.ledger.runs.len(),
    ensures
        ({
            let (next, step) = lost_round(v, setup, true, diagnosis, raw);
            let package = v.pending->0.package;
            &&& next.records.contains(r) <==> v.records.contains(r) && !(r.package == package
                && r.strategy == Strategy::WidenConda)
            &&& differ_at_most_in(next.ledger, v.ledger, setup.run_idx)
            &&& next.ledger.runs[setup.run_idx] == widen_failed(
                v.ledger.runs[setup.run_idx],
                package,
            )
            &&& forall|q: (Seq<char>, Strategy)|
                q != (package, Strategy::WidenConda) ==> (#[trigger] next.failed.contains(q)
                    <==> v.failed.contains(q))
            &&& forall|q: (Seq<char>, Strategy)|
                q != (package, Strategy::WidenConda) ==> (#[trigger] next.ladder.tried.contains(q)
                    <==> v.ladder.tried.contains(q))
            &&& step.fate == Fate::Keep && step.overrides.len() == 0
            &&& step.lines == seq![
                "retread lock: post-widen conda unsat for "@ + package
                    + "; reverting only that widen"@,
            ]
        }),
{
    lemma_without_widenings(v.records, v.pending->0.package, r);
}

proof fn lemma_without_widenings(records: Seq<RecordView>, package: Seq<char>, r: RecordView)
    ensures
        without_widenings(records, package).contains(r) <==> records.contains(r) && !(r.package
            == package && r.strategy == Strategy::WidenConda),
    decreases records.len(),
{
    if records.len() > 0 {
        let short = records.drop_last();
        lemma_without_widenings(short, package, r);
        assert(records =~= short.push(records.last()));
    }
}

/// A conflict that is known is repaired as such: only a message that says of none is
/// answered by its mentions, and only one whose mentions allow no repair is given up.
pub proof fn law_known_conflict_comes_first(
    plan: PlanView,
    sc: SceneView,
    v: LockView,
    setup: LockSetup,
    reading: ReadingView,
    raw: Seq<char>,
)
    ensures
        reading.conflict is Some ==> failed_round(plan, sc, v, setup, reading, raw).1.exit
            != Some(2i32),
        reading.conflict is Some && v.applied < setup.max_repairs && repair_step(
            plan,
            v.ladder,
            reading.conflict->0,
            (v.applied + 1) as u32,
        ).1 is Ok ==> failed_round(plan, sc, v, setup, reading, raw).1.exit is None,
        reading.conflict is None && batch_result(
            sc,
            v.ladder,
            reading.pack_name,
            reading.mentions,
            raised(v.applied, 1),
        ).1 is Some ==> failed_round(plan, sc, v, setup, reading, raw).1.exit != Some(2i32),
        reading.conflict is None && batch_result(
            sc,
            v.ladder,
            reading.pack_name,
            reading.mentions,
            raised(v.applied, 1),
        ).1 is None && v.pending is None ==> failed_round(plan, sc, v, setup, reading, raw).1.exit
            == Some(2i32),
{
}

/// What is read of a message is read without its colours.
pub proof fn law_colours_are_taken_out(raw: Seq<char>)
    ensures
        without_colours(raw) == regex_replaced_all(r"\x1b\[[0-9;]*m"@, raw, Seq::empty()),
{
    reveal_strlit("");
    assert(""@ =~= Seq::<char>::empty());
}

/// What is read of a message is about the pack that it names, and is diagnosed where a pin
/// of it reaches only builds for another python.
pub proof fn law_reading_is_of_the_message(
    stripped: Seq<char>,
    pack: Seq<char>,
)
    ensures
        reads(r"computing uv closure for bundle `([^`]+)`"@, stripped, seq![pack]) ==> reading_of(
            stripped,
        ).pack_name == Some(pack),
        reading_of(stripped).unsat <==> text_has(stripped, "Cannot solve the request because of"@)
            || text_has(stripped, "The following packages are incompatible"@),
        reading_of(stripped).diagnosis matches Some(text) ==> text_begins(
            text,
            "retread lock: diagnosis -- the workspace pin `"@,
        ),
{
    law_closure_names_its_pack(stripped, pack);
    law_refusal_is_one_of_two_sentences(stripped);
    if let Some(text) = reading_of(stripped).diagnosis {
        let start = "retread lock: diagnosis -- the workspace pin `"@;
        assert(text.take(start.len() as int) =~= start);
    }
}

} // verus!
