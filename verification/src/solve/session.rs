//! What a run of repairs keeps between its rounds.
use crate::solve::document::{is_sound, Nodes, Orders};
use crate::solve::ladder::{
    boundary_step, chain_override, conda_pin_step, moved_pin, override_from_conda_step,
    override_pin_step, pack_override_target, pin_owner, pypi_pin_step, repair_step, target_for,
    tried_too, try_pack_step, workspace_widen_step, LadderView, PlanView, Step,
};
use crate::solve::ledger::{
    law_strategies_go_by_their_names, parse_strategy, strategy_name, strategy_named, AppliedEdit,
    AttemptView, EditView, LedgerAttempt, Reason, RelaxPreference, Strategy, TableKind,
};
use crate::solve::manifest::{
    can_hold, law_removal_touches_one_entry, law_restore_undoes_write, law_write_touches_one_entry,
    lemma_removal_keeps_the_way, lemma_table_is_held, lemma_with_entry_sound,
    lemma_without_entry_sound, lemma_write_keeps_the_way, marked_pin, orders_restored, pin_edit,
    pin_mark, snapshot, widen_mark, with_entry, with_restored, without_entry, ManifestEditor,
};
use crate::solve::parse::ConflictView;
use crate::solve::ranges::{from_first_digit, widened};
use crate::solve::repair::{PackOverrideWrite, TargetView, WriteView};
use crate::text::{clone_option, push_view};
use vstd::prelude::*;

verus! {

broadcast use vstd::seq_lib::group_seq_properties;

// ---------------------------------------------------------------------------
// The last edit
// ---------------------------------------------------------------------------

/// The edits of the last repair, until the next round shows what they were worth.
#[derive(Debug)]
pub struct PendingEdit {
    pub package: String,
    pub strategy: Strategy,
    pub edits: Vec<AppliedEdit>,
}

/// What a `PendingEdit` says.
#[verifier::ext_equal]
pub struct PendingView {
    pub package: Seq<char>,
    pub strategy: Strategy,
    pub edits: Seq<EditView>,
}

impl DeepView for PendingEdit {
    type V = PendingView;

    open spec fn deep_view(&self) -> PendingView {
        PendingView {
            package: self.package@,
            strategy: self.strategy,
            edits: self.edits.deep_view(),
        }
    }
}

/// The edits of a repair, named after the last of them.
pub open spec fn pending_of(edits: Seq<EditView>) -> Option<PendingView> {
    if edits.len() == 0 {
        None
    } else {
        Some(
            PendingView { package: edits.last().package, strategy: edits.last().strategy, edits },
        )
    }
}

/// The nodes with the edits taken back, the last one first.
pub open spec fn undone(nodes: Nodes, edits: Seq<EditView>) -> Nodes
    decreases edits.len(),
{
    if edits.len() == 0 {
        nodes
    } else {
        let e = edits.last();
        undone(
            with_restored(nodes, e.feature, e.table, e.package, e.before),
            edits.drop_last(),
        )
    }
}

/// The order of the keys with the edits taken back, the last one first.
pub open spec fn orders_undone(nodes: Nodes, orders: Orders, edits: Seq<EditView>) -> Orders
    decreases edits.len(),
{
    if edits.len() == 0 {
        orders
    } else {
        let e = edits.last();
        orders_undone(
            with_restored(nodes, e.feature, e.table, e.package, e.before),
            orders_restored(nodes, orders, e.feature, e.table, e.package, e.before),
            edits.drop_last(),
        )
    }
}

/// Whether taking the edits back, the last one first, is refused on the way.
pub open spec fn undo_refused(nodes: Nodes, edits: Seq<EditView>) -> bool
    decreases edits.len(),
{
    if edits.len() == 0 {
        false
    } else {
        let e = edits.last();
        (e.before.value is Some && !can_hold(nodes, e.feature, e.table)) || undo_refused(
            with_restored(nodes, e.feature, e.table, e.package, e.before),
            edits.drop_last(),
        )
    }
}

impl PendingEdit {
    /// The edits of a repair; `None` where it made none.
    pub fn from_edits(edits: Vec<AppliedEdit>) -> (r: Option<Self>)
        ensures
            r.deep_view() == pending_of(edits.deep_view()),
    {
        assert(edits.deep_view().len() == edits@.len());
        if edits.len() == 0 {
            return None;
        }
        let last: usize = edits.len() - 1;
        assert(edits.deep_view().last() == edits@[last as int].deep_view());
        let package: String = edits[last].package.clone();
        let strategy: Strategy = edits[last].strategy;
        Some(PendingEdit { package, strategy, edits })
    }

    /// Takes the edits back, the last one first.
    pub fn restore(&self, editor: &mut ManifestEditor)
        requires
            is_sound(old(editor).nodes()),
        ensures
            final(editor).nodes() == undone(old(editor).nodes(), self.edits.deep_view()),
            final(editor).orders() == orders_undone(
                old(editor).nodes(),
                old(editor).orders(),
                self.edits.deep_view(),
            ),
            is_sound(final(editor).nodes()),
            final(editor).file() == old(editor).file(),
            final(editor).dir() == old(editor).dir(),
            final(editor).refused() == (old(editor).refused() || undo_refused(
                old(editor).nodes(),
                self.edits.deep_view(),
            )),
    {
        let ghost all = self.edits.deep_view();
        let mut i: usize = self.edits.len();
        assert(all.take(i as int) =~= all);
        while i > 0
            invariant
                i <= self.edits@.len(),
                all == self.edits.deep_view(),
                is_sound(editor.nodes()),
                editor.file() == old(editor).file(),
                editor.dir() == old(editor).dir(),
                undone(old(editor).nodes(), all) == undone(editor.nodes(), all.take(i as int)),
                orders_undone(old(editor).nodes(), old(editor).orders(), all) == orders_undone(
                    editor.nodes(),
                    editor.orders(),
                    all.take(i as int),
                ),
                (old(editor).refused() || undo_refused(old(editor).nodes(), all)) == (
                editor.refused() || undo_refused(editor.nodes(), all.take(i as int))),
            decreases i,
        {
            let e = &self.edits[i - 1];
            assert(all[i - 1] == e.deep_view());
            assert(all.take(i as int).last() == all[i - 1]);
            assert(all.take(i as int).drop_last() =~= all.take(i - 1));
            editor.restore_entry(&e.feature, e.table, &e.package, &e.before);
            i = i - 1;
        }
        assert(all.take(0).len() == 0);
    }
}

/// Whether two manifests have the same entries in every table of every feature.
pub open spec fn same_entries(a: Nodes, b: Nodes) -> bool {
    forall|f: Seq<char>, k: TableKind, p: Seq<char>| #[trigger]
        snapshot(a, f, k, p) == snapshot(b, f, k, p)
}

/// Whether every entry is a string with what follows it on its line, or is not
/// there.
pub open spec fn has_plain_entries(nodes: Nodes) -> bool {
    forall|f: Seq<char>, k: TableKind, p: Seq<char>|
        ({
            let s = #[trigger] snapshot(nodes, f, k, p);
            (s.value is Some && s.suffix is Some) || (s.value is None && s.suffix is None)
        })
}

proof fn lemma_undo_write(
    nodes: Nodes,
    feature: Seq<char>,
    kind: TableKind,
    package: Seq<char>,
    value: Seq<char>,
    suffix: Seq<char>,
    strategy: Strategy,
)
    requires
        is_sound(nodes),
        has_plain_entries(nodes),
    ensures
        ({
            let e = EditView { strategy, ..pin_edit(nodes, feature, kind, package) };
            let after = with_entry(nodes, feature, kind, package, value, suffix);
            let back = with_restored(after, feature, kind, package, e.before);
            &&& same_entries(undone(after, seq![e]), nodes)
            &&& same_entries(back, nodes)
            &&& is_sound(back)
        }),
{
    let e = EditView { strategy, ..pin_edit(nodes, feature, kind, package) };
    let after = with_entry(nodes, feature, kind, package, value, suffix);
    let back = with_restored(after, feature, kind, package, e.before);
    assert(seq![e].drop_last() =~= Seq::<EditView>::empty());
    assert(seq![e].last() == e);
    reveal_with_fuel(undone, 2);
    assert(undone(after, seq![e]) == back);
    assert forall|f: Seq<char>, k: TableKind, p: Seq<char>| #[trigger]
        snapshot(back, f, k, p) == snapshot(nodes, f, k, p) by {
        law_restore_undoes_write(nodes, feature, kind, package, value, suffix, f, k, p);
    }
    lemma_with_entry_sound(nodes, feature, kind, package, value, suffix);
    match e.before.value {
        Some(v) => {
            lemma_with_entry_sound(after, feature, kind, package, v, e.before.suffix->0);
        },
        None => {
            lemma_without_entry_sound(after, feature, kind, package);
        },
    }
}

proof fn lemma_undo_moved(
    nodes: Nodes,
    feature: Seq<char>,
    from: TableKind,
    to: TableKind,
    t: TargetView,
    mark: Seq<char>,
)
    requires
        is_sound(nodes),
        has_plain_entries(nodes),
    ensures
        ({
            let (edits, after) = moved_pin(nodes, feature, from, to, t, mark);
            same_entries(undone(after, edits), nodes)
        }),
{
    let (edits, after) = moved_pin(nodes, feature, from, to, t, mark);
    let value = "=="@ + t.version;
    let moved = marked_pin(nodes, feature, from, t.package);
    let n = if moved {
        without_entry(nodes, feature, from, t.package)
    } else {
        nodes
    };
    lemma_without_entry_sound(nodes, feature, from, t.package);
    assert(has_plain_entries(n)) by {
        assert forall|f: Seq<char>, k: TableKind, p: Seq<char>|
            ({
                let s = #[trigger] snapshot(n, f, k, p);
                (s.value is Some && s.suffix is Some) || (s.value is None && s.suffix is None)
            }) by {
            law_removal_touches_one_entry(nodes, feature, from, t.package, f, k, p);
            assert(snapshot(nodes, f, k, p) == snapshot(nodes, f, k, p));
        }
    }
    let e = pin_edit(n, feature, to, t.package);
    lemma_undo_write(n, feature, to, t.package, value, mark, e.strategy);
    let back = with_restored(after, feature, to, t.package, e.before);
    assert(edits.last() == e);
    if moved {
        let first = pin_edit(nodes, feature, from, t.package);
        assert(edits.drop_last() =~= seq![first]);
        assert(seq![first].last() == first);
        assert(seq![first].drop_last() =~= Seq::<EditView>::empty());
        reveal_with_fuel(undone, 3);
        let v = first.before.value->0;
        let x = first.before.suffix->0;
        let again = with_entry(back, feature, from, t.package, v, x);
        lemma_table_is_held(nodes, feature, from);
        lemma_removal_keeps_the_way(nodes, feature, from, t.package, feature, from);
        lemma_write_keeps_the_way(n, feature, to, t.package, value, mark, feature, from);
        lemma_with_entry_sound(n, feature, to, t.package, value, mark);
        match e.before.value {
            Some(u) => {
                lemma_write_keeps_the_way(
                    after,
                    feature,
                    to,
                    t.package,
                    u,
                    e.before.suffix->0,
                    feature,
                    from,
                );
            },
            None => {
                lemma_removal_keeps_the_way(after, feature, to, t.package, feature, from);
            },
        }
        assert(can_hold(back, feature, from));
        assert(undone(after, edits) == again);
        assert forall|f: Seq<char>, k: TableKind, p: Seq<char>| #[trigger]
            snapshot(again, f, k, p) == snapshot(nodes, f, k, p) by {
            law_write_touches_one_entry(back, feature, from, t.package, v, x, f, k, p);
            law_removal_touches_one_entry(nodes, feature, from, t.package, f, k, p);
            assert(snapshot(back, f, k, p) == snapshot(n, f, k, p));
        }
    } else {
        assert(edits =~= seq![e]);
    }
}

/// Taking back the edits of a repair gives every entry of the manifest back as it
/// was. A repair without edits leaves the entries anyway.
pub proof fn law_undo_takes_back_repair(plan: PlanView, st: LadderView, c: ConflictView, iter: u32)
    requires
        is_sound(st.nodes),
        has_plain_entries(st.nodes),
    ensures
        ({
            let (after, out) = repair_step(plan, st, c, iter);
            out matches Ok(o) ==> same_entries(undone(after.nodes, o.applied), st.nodes)
        }),
{
    match c {
        ConflictView::NoCandidates { package, version } => {
            let t = target_for(package, version, iter, c);
            lemma_undo_pins(plan, st, t, Reason::NoCandidatesEscalation);
        },
        ConflictView::CondaBoundary { package, version } => {
            let t = target_for(package, version, iter, c);
            lemma_undo_boundary(plan, st, t, Reason::CondaBoundary);
        },
        ConflictView::PypiInternal { package, version } => {
            let t = target_for(package, version, iter, c);
            lemma_undo_pins(plan, st, t, Reason::PypiInternal);
        },
        ConflictView::CondaWidenNeeded {
            package,
            op,
            floor,
            conda_version,
            requiring_chain,
            pack_name,
        } => {
            let t = target_for(package, floor, iter, c);
            lemma_undo_workspace(plan, st, t, op, conda_version, requiring_chain, pack_name);
            let target = match pack_name {
                Some(bundle) => if plan.preference == RelaxPreference::Conda {
                    pack_override_target(plan, st, t.package, requiring_chain, bundle)
                } else {
                    None
                },
                None => None,
            };
            match target {
                Some((pkg, version)) => {
                    let (after, out) = try_pack_step(plan, st, t, pkg, version, pack_name->0);
                    lemma_undo_workspace(
                        plan,
                        after,
                        t,
                        op,
                        conda_version,
                        requiring_chain,
                        pack_name,
                    );
                },
                None => {},
            }
        },
        _ => {},
    }
}

spec fn undoes(st: LadderView, step: Step) -> bool {
    step.1 matches Ok(o) ==> same_entries(undone(step.0.nodes, o.applied), st.nodes)
}

proof fn lemma_undo_pins(plan: PlanView, st: LadderView, t: TargetView, reason: Reason)
    requires
        is_sound(st.nodes),
        has_plain_entries(st.nodes),
    ensures
        undoes(st, conda_pin_step(plan, st, t, reason)),
        undoes(st, pypi_pin_step(plan, st, t, reason)),
        undoes(st, override_pin_step(plan, st, t, reason)),
{
    let mark = pin_mark(plan.facts.today, reason);
    lemma_undo_write(
        st.nodes,
        plan.feature,
        TableKind::Conda,
        t.package,
        "=="@ + t.version,
        mark,
        Strategy::Conda,
    );
    lemma_undo_moved(st.nodes, plan.feature, TableKind::Conda, TableKind::Pypi, t, mark);
    lemma_undo_moved(st.nodes, plan.feature, TableKind::Pypi, TableKind::Override, t, mark);
}

proof fn lemma_undo_boundary(plan: PlanView, st: LadderView, t: TargetView, reason: Reason)
    requires
        is_sound(st.nodes),
        has_plain_entries(st.nodes),
    ensures
        undoes(st, boundary_step(plan, st, t, reason)),
{
    lemma_undo_pins(plan, st, t, reason);
    lemma_undo_pins(plan, tried_too(st, t.package, Strategy::Conda), t, reason);
}

proof fn lemma_undo_override(plan: PlanView, st: LadderView, t: TargetView, conda_version: Seq<char>)
    requires
        is_sound(st.nodes),
        has_plain_entries(st.nodes),
    ensures
        undoes(st, override_from_conda_step(plan, st, t, conda_version)),
{
    lemma_undo_write(
        st.nodes,
        plan.feature,
        TableKind::Override,
        t.package,
        "=="@ + from_first_digit(conda_version),
        "  # retread:override"@,
        Strategy::PypiOverride,
    );
}

proof fn lemma_undo_chain(
    plan: PlanView,
    st: LadderView,
    t: TargetView,
    chain: Seq<Seq<char>>,
    from: int,
)
    requires
        is_sound(st.nodes),
        has_plain_entries(st.nodes),
    ensures
        chain_override(plan, st, t, chain, from) matches Some((after, out)) ==> undoes(
            st,
            (after, Ok(out)),
        ),
    decreases chain.len() - from,
{
    if 0 <= from < chain.len() {
        lemma_undo_chain(plan, st, t, chain, from + 1);
        match pin_owner(plan.features, plan.feature, plan.names, st.nodes, chain[from]) {
            Some((feature, conda_name)) => {
                match snapshot(st.nodes, feature, TableKind::Conda, conda_name).value {
                    Some(pin) => {
                        lemma_undo_override(
                            PlanView { feature, ..plan },
                            st,
                            TargetView { package: chain[from], ..t },
                            pin,
                        );
                    },
                    None => {},
                }
            },
            None => {},
        }
    }
}

proof fn lemma_undo_workspace(
    plan: PlanView,
    st: LadderView,
    t: TargetView,
    op: Seq<char>,
    conda_version: Seq<char>,
    chain: Seq<Seq<char>>,
    pack_name: Option<Seq<char>>,
)
    requires
        is_sound(st.nodes),
        has_plain_entries(st.nodes),
    ensures
        undoes(st, workspace_widen_step(plan, st, t, op, conda_version, chain, pack_name)),
{
    let owner = pin_owner(plan.features, plan.feature, plan.names, st.nodes, t.package);
    let (feature, name) = match owner {
        Some(o) => o,
        None => (plan.feature, t.package),
    };
    let there = PlanView { feature, ..plan };
    lemma_undo_override(there, st, t, conda_version);
    lemma_undo_chain(plan, st, t, chain, 0);
    lemma_undo_boundary(there, st, t, Reason::CondaBoundary);
    lemma_undo_write(
        st.nodes,
        feature,
        TableKind::Conda,
        name,
        widened(op, t.version, plan.policy),
        widen_mark(plan.facts.today),
        Strategy::WidenConda,
    );
}

// ---------------------------------------------------------------------------
// The table of repairs
// ---------------------------------------------------------------------------

/// A repair as the closing table shows it.
#[derive(Debug)]
pub struct RepairRecord {
    pub package: String,
    pub strategy: Strategy,
    pub old_spec: Option<String>,
    pub new_spec: String,
    pub feature: String,
}

/// What a `RepairRecord` says.
#[verifier::ext_equal]
pub struct RecordView {
    pub package: Seq<char>,
    pub strategy: Strategy,
    pub old_spec: Option<Seq<char>>,
    pub new_spec: Seq<char>,
    pub feature: Seq<char>,
}

impl DeepView for RepairRecord {
    type V = RecordView;

    open spec fn deep_view(&self) -> RecordView {
        RecordView {
            package: self.package@,
            strategy: self.strategy,
            old_spec: self.old_spec.deep_view(),
            new_spec: self.new_spec@,
            feature: self.feature@,
        }
    }
}

impl Clone for RepairRecord {
    fn clone(&self) -> (r: Self)
        ensures
            r.deep_view() == self.deep_view(),
    {
        RepairRecord {
            package: self.package.clone(),
            strategy: self.strategy,
            old_spec: clone_option(&self.old_spec),
            new_spec: self.new_spec.clone(),
            feature: self.feature.clone(),
        }
    }
}

/// The feature that locks are repaired in where nothing says otherwise.
pub const LOCK_FEATURE: &'static str = "default";

/// A repair as the closing table shows it: the feature is the one that the last
/// edit landed in, or the pack that an override was recorded for.
pub open spec fn record_of(
    attempt: AttemptView,
    applied: Seq<EditView>,
    pack_override: Option<WriteView>,
) -> RecordView {
    let old_value = if applied.len() > 0 {
        applied.last().before.value
    } else {
        None
    };
    RecordView {
        package: attempt.package,
        strategy: strategy_named(attempt.strategy),
        old_spec: match old_value {
            Some(v) => Some(v),
            None => attempt.old_spec,
        },
        new_spec: match attempt.new_spec {
            Some(s) => s,
            None => match attempt.version {
                Some(v) => "=="@ + v,
                None => ""@,
            },
        },
        feature: if applied.len() > 0 {
            applied.last().feature
        } else {
            match pack_override {
                Some(w) => w.bundle + " (pack)"@,
                None => LOCK_FEATURE@,
            }
        },
    }
}

/// Adds a repair to the closing table.
pub fn record_repair(
    records: &mut Vec<RepairRecord>,
    attempt: &LedgerAttempt,
    applied: &Vec<AppliedEdit>,
    pack_override: Option<&PackOverrideWrite>,
)
    ensures
        final(records).deep_view() == old(records).deep_view().push(
            record_of(attempt.deep_view(), applied.deep_view(), pack_override.deep_view()),
        ),
{
    assert(applied.deep_view().len() == applied@.len());
    let (old_value, landed): (Option<String>, Option<String>) = if applied.len() > 0 {
        let last: usize = applied.len() - 1;
        assert(applied.deep_view().last() == applied@[last as int].deep_view());
        (clone_option(&applied[last].before.value), Some(applied[last].feature.clone()))
    } else {
        (None, None)
    };
    let old_spec: Option<String> = match old_value {
        Some(v) => Some(v),
        None => clone_option(&attempt.old_spec),
    };
    let new_spec: String = match &attempt.new_spec {
        Some(s) => s.clone(),
        None => match &attempt.version {
            Some(v) => "==".to_owned().concat(v),
            None => "".to_owned(),
        },
    };
    let feature: String = match landed {
        Some(f) => f,
        None => match pack_override {
            Some(w) => w.bundle.clone().concat(" (pack)"),
            None => LOCK_FEATURE.to_owned(),
        },
    };
    push_view(
        records,
        RepairRecord {
            package: attempt.package.clone(),
            strategy: parse_strategy(&attempt.strategy),
            old_spec,
            new_spec,
            feature,
        },
    );
}

/// A text with spaces behind it up to a width.
pub open spec fn padded(s: Seq<char>, width: nat) -> Seq<char>
    decreases width - s.len(),
{
    if s.len() >= width {
        s
    } else {
        padded(s.push(' '), width)
    }
}

fn pad(s: &str, width: usize) -> (r: String)
    ensures
        r@ == padded(s@, width as nat),
{
    let mut out: String = s.to_owned();
    let mut len: usize = s.unicode_len();
    while len < width
        invariant
            len == out@.len(),
            padded(s@, width as nat) == padded(out@, width as nat),
        decreases width - len,
    {
        out.push(' ');
        len = len + 1;
    }
    out
}

/// A line of the closing table.
pub open spec fn table_row(
    package: Seq<char>,
    old_spec: Seq<char>,
    new_spec: Seq<char>,
    tier: Seq<char>,
    feature: Seq<char>,
) -> Seq<char> {
    padded(package, 24) + " "@ + padded(old_spec, 20) + " "@ + padded(new_spec, 24) + " "@ + padded(
        tier,
        10,
    ) + " "@ + feature
}

fn row(package: &str, old_spec: &str, new_spec: &str, tier: &str, feature: &str) -> (r: String)
    ensures
        r@ == table_row(package@, old_spec@, new_spec@, tier@, feature@),
{
    let mut s: String = pad(package, 24);
    s.append(" ");
    s.append(&pad(old_spec, 20));
    s.append(" ");
    s.append(&pad(new_spec, 24));
    s.append(" ");
    s.append(&pad(tier, 10));
    s.append(" ");
    s.append(feature);
    s
}

/// The line of a repair.
pub open spec fn record_row(r: RecordView) -> Seq<char> {
    table_row(
        r.package,
        match r.old_spec {
            Some(s) => s,
            None => "(none)"@,
        },
        r.new_spec,
        strategy_name(r.strategy),
        r.feature,
    )
}

/// The lines of the closing table.
pub open spec fn summary_lines(records: Seq<RecordView>) -> Seq<Seq<char>> {
    if records.len() == 0 {
        seq!["retread lock: no manifest repairs applied"@]
    } else {
        seq![
            "retread lock: repairs applied"@,
            table_row("package"@, "old_spec"@, "new_spec"@, "tier"@, "feature"@),
        ] + records.map_values(|r: RecordView| record_row(r))
    }
}

/// The lines of the closing table.
pub fn summarize(records: &Vec<RepairRecord>) -> (r: Vec<String>)
    ensures
        r.deep_view() == summary_lines(records.deep_view()),
{
    let ghost all = records.deep_view();
    assert(all.len() == records@.len());
    if records.len() == 0 {
        let v: Vec<String> = vec!["retread lock: no manifest repairs applied".to_owned()];
        assert(v.deep_view() =~= summary_lines(all));
        return v;
    }
    let mut out: Vec<String> = vec![
        "retread lock: repairs applied".to_owned(),
        row("package", "old_spec", "new_spec", "tier", "feature"),
    ];
    let ghost head = out.deep_view();
    assert(head =~= seq![
        "retread lock: repairs applied"@,
        table_row("package"@, "old_spec"@, "new_spec"@, "tier"@, "feature"@),
    ]);
    let ghost f = |r: RecordView| record_row(r);
    let n: usize = records.len();
    let mut i: usize = 0;
    assert(out.deep_view() =~= head + all.take(0).map_values(f));
    while i < n
        invariant
            i <= n,
            n == records@.len(),
            all == records.deep_view(),
            f == (|r: RecordView| record_row(r)),
            out.deep_view() == head + all.take(i as int).map_values(f),
        decreases n - i,
    {
        let r = &records[i];
        assert(all[i as int] == r.deep_view());
        let line: String = match &r.old_spec {
            Some(s) => row(&r.package, s, &r.new_spec, r.strategy.as_str(), &r.feature),
            None => row(&r.package, "(none)", &r.new_spec, r.strategy.as_str(), &r.feature),
        };
        push_view(&mut out, line);
        assert(out.deep_view() =~= head + all.take(i + 1).map_values(f));
        i = i + 1;
    }
    assert(all.take(n as int) =~= all);
    out
}

// ---------------------------------------------------------------------------
// Laws
// ---------------------------------------------------------------------------

/// A text that is shorter than its column is filled up with spaces behind it, and a
/// longer one is not cut.
pub proof fn law_columns_are_filled_up(s: Seq<char>, width: nat)
    ensures
        padded(s, width).len() == if s.len() < width {
            width
        } else {
            s.len()
        },
        forall|i: int| 0 <= i < s.len() ==> #[trigger] padded(s, width)[i] == s[i],
        forall|i: int| s.len() <= i < padded(s, width).len() ==> #[trigger] padded(s, width)[i]
            == ' ',
    decreases width - s.len(),
{
    if s.len() < width {
        let longer = s.push(' ');
        law_columns_are_filled_up(longer, width);
        let p = padded(longer, width);
        assert forall|i: int| 0 <= i < s.len() implies #[trigger] p[i] == s[i] by {
            assert(longer[i] == s[i]);
        }
        assert forall|i: int| s.len() <= i < p.len() implies #[trigger] p[i] == ' ' by {
            if i == s.len() {
                assert(longer[i] == ' ');
            }
        }
    }
}

/// A repair shows what stood in the manifest before its last edit, or else what the
/// attempt says stood there.
pub proof fn law_record_shows_what_stood_before(
    attempt: AttemptView,
    applied: Seq<EditView>,
    write: Option<WriteView>,
)
    ensures
        applied.len() > 0 && applied[applied.len() - 1].before.value is Some ==> record_of(
            attempt,
            applied,
            write,
        ).old_spec == applied[applied.len() - 1].before.value,
        applied.len() == 0 || applied[applied.len() - 1].before.value is None ==> record_of(
            attempt,
            applied,
            write,
        ).old_spec == attempt.old_spec,
{
}

/// A repair shows the spec that was written, or else the version that was pinned.
pub proof fn law_record_shows_what_was_written(
    attempt: AttemptView,
    applied: Seq<EditView>,
    write: Option<WriteView>,
    v: Seq<char>,
)
    ensures
        attempt.new_spec == Some(v) ==> record_of(attempt, applied, write).new_spec == v,
        attempt.new_spec is None && attempt.version == Some(v) ==> record_of(
            attempt,
            applied,
            write,
        ).new_spec == "=="@ + v,
        record_of(attempt, applied, write).package == attempt.package,
        attempt.strategy == "pypi_override"@ ==> record_of(attempt, applied, write).strategy
            == Strategy::PypiOverride,
        attempt.strategy == "pypi_dep"@ ==> record_of(attempt, applied, write).strategy
            == Strategy::PypiDep,
        attempt.strategy == "widen-conda"@ ==> record_of(attempt, applied, write).strategy
            == Strategy::WidenConda,
{
    law_strategies_go_by_their_names(Strategy::Conda, attempt.strategy);
}

/// A repair shows where it was made: the feature of its last edit, or the pack, or the
/// default feature where it was made in neither.
pub proof fn law_record_shows_where_it_was_made(
    attempt: AttemptView,
    applied: Seq<EditView>,
    write: Option<WriteView>,
)
    ensures
        applied.len() > 0 ==> record_of(attempt, applied, write).feature == applied[applied.len()
            - 1].feature,
        applied.len() == 0 && write is Some ==> record_of(attempt, applied, write).feature
            == write->0.bundle + " (pack)"@,
        applied.len() == 0 && write is None ==> record_of(attempt, applied, write).feature
            == "default"@,
{
}

/// The closing table has a line for every repair, in their order, below a line that says
/// so and the names of the columns.
pub proof fn law_every_repair_has_its_line(records: Seq<RecordView>, i: int)
    requires
        0 <= i < records.len(),
    ensures
        summary_lines(records).len() == records.len() + 2,
        summary_lines(records)[0] == "retread lock: repairs applied"@,
        summary_lines(records)[1] == table_row(
            "package"@,
            "old_spec"@,
            "new_spec"@,
            "tier"@,
            "feature"@,
        ),
        records[i].old_spec matches Some(old_spec) ==> summary_lines(records)[i + 2] == table_row(
            records[i].package,
            old_spec,
            records[i].new_spec,
            strategy_name(records[i].strategy),
            records[i].feature,
        ),
        records[i].old_spec is None ==> summary_lines(records)[i + 2] == table_row(
            records[i].package,
            "(none)"@,
            records[i].new_spec,
            strategy_name(records[i].strategy),
            records[i].feature,
        ),
        summary_lines(Seq::empty()) == seq!["retread lock: no manifest repairs applied"@],
{
    let body = records.map_values(|r: RecordView| record_row(r));
    assert(body[i] == record_row(records[i]));
    assert(summary_lines(records)[i + 2] == body[i]);
}

/// The columns of the closing table stand one below the other: where no entry is longer
/// than its column, each begins at the same place in every line.
pub proof fn law_columns_stand_below_each_other(
    package: Seq<char>,
    old_spec: Seq<char>,
    new_spec: Seq<char>,
    tier: Seq<char>,
    feature: Seq<char>,
)
    requires
        package.len() <= 24,
        old_spec.len() <= 20,
        new_spec.len() <= 24,
        tier.len() <= 10,
    ensures
        ({
            let row = table_row(package, old_spec, new_spec, tier, feature);
            &&& row.subrange(0, package.len() as int) == package
            &&& row.subrange(25, 25 + old_spec.len() as int) == old_spec
            &&& row.subrange(46, 46 + new_spec.len() as int) == new_spec
            &&& row.subrange(71, 71 + tier.len() as int) == tier
            &&& row.skip(82) == feature
        }),
{
    law_columns_are_filled_up(package, 24);
    law_columns_are_filled_up(old_spec, 20);
    law_columns_are_filled_up(new_spec, 24);
    law_columns_are_filled_up(tier, 10);
    reveal_strlit(" ");
    let row = table_row(package, old_spec, new_spec, tier, feature);
    let a = padded(package, 24) + " "@;
    let b = a + padded(old_spec, 20) + " "@;
    let c = b + padded(new_spec, 24) + " "@;
    let d = c + padded(tier, 10) + " "@;
    assert(row == d + feature);
    assert(a.len() == 25 && b.len() == 46 && c.len() == 71 && d.len() == 82);
    assert forall|i: int| 0 <= i < package.len() implies #[trigger] row[i] == package[i] by {
        assert(row[i] == padded(package, 24)[i]);
    }
    assert forall|i: int| 0 <= i < old_spec.len() implies #[trigger] old_spec[i] == row[25 + i] by {
        assert(row[25 + i] == padded(old_spec, 20)[i]);
    }
    assert forall|i: int| 0 <= i < new_spec.len() implies #[trigger] new_spec[i] == row[46 + i] by {
        assert(row[46 + i] == padded(new_spec, 24)[i]);
    }
    assert forall|i: int| 0 <= i < tier.len() implies #[trigger] tier[i] == row[71 + i] by {
        assert(row[71 + i] == padded(tier, 10)[i]);
    }
    assert(row.subrange(0, package.len() as int) =~= package);
    assert(row.subrange(25, 25 + old_spec.len() as int) =~= old_spec);
    assert(row.subrange(46, 46 + new_spec.len() as int) =~= new_spec);
    assert(row.subrange(71, 71 + tier.len() as int) =~= tier);
    assert(row.skip(82) =~= feature);
}

/// What a repair changed is known by its last edit: nothing where there is none.
pub proof fn law_repair_is_named_after_its_last_edit(edits: Seq<EditView>)
    ensures
        edits.len() == 0 <==> pending_of(edits) is None,
        edits.len() > 0 ==> (pending_of(edits) matches Some(p) && p.edits == edits && p.package
            == edits[edits.len() - 1].package && p.strategy == edits[edits.len() - 1].strategy),
{
}

} // verus!
