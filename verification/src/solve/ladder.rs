//! What each step of the repair ladder does, and what holds of all of them.
use crate::solve::document::{is_sound, Nodes, Orders};
use crate::solve::ledger::{AttemptView, EditView, Reason, RelaxPreference, Strategy, TableKind};
use crate::solve::manifest::{
    can_hold, law_removal_touches_one_entry, law_write_touches_one_entry,
    lemma_removal_keeps_the_way, lemma_with_entry_sound, lemma_without_entry_sound, marked_pin,
    orders_with_entry, orders_without_entry, pin_edit, pin_mark, snapshot, user_entry, widen_mark,
    with_entry, without_entry,
};
use crate::solve::parse::{kind_name, ConflictView};
use crate::solve::ranges::{
    from_first_digit, intersected, only_exact, pep440_range, policy_name, widened,
    WidenCeilingPolicy,
};
use crate::solve::repair::{
    attempt_line, attempt_record, edit_outcome, is_anchor, no_details, override_details,
    override_outcome, table_name, DetailsView, OutcomeView, PackOverrideKind, TargetView,
};
use crate::solve::workspace::{
    canonical_name, is_first_with, known_dir, lacks, law_first_pair_counts, ledgered,
    lemma_lookup_found, lookup, name_family, owns_exact_pin, pack_manifest, FactsView,
};
use vstd::prelude::*;

verus! {

broadcast use vstd::seq_lib::group_seq_properties;

/// What stays as it is while a conflict is repaired: the feature that is edited,
/// the policies, the conda names of wheels, and what is known of the workspace.
#[verifier::ext_equal]
pub struct PlanView {
    pub feature: Seq<char>,
    pub policy: WidenCeilingPolicy,
    pub preference: RelaxPreference,
    pub names: Seq<(Seq<char>, Seq<Seq<char>>)>,
    pub dir: Seq<char>,
    pub features: Seq<Seq<char>>,
    pub facts: FactsView,
}

/// What a repair changes: the repairs begun in this run, the strategies tried, the
/// manifest with the order of its keys, and whether that refused an edit.
#[verifier::ext_equal]
pub struct LadderView {
    pub attempts: Set<(Seq<char>, Seq<char>, Strategy)>,
    pub tried: Set<(Seq<char>, Strategy)>,
    pub nodes: Nodes,
    pub orders: Orders,
    pub refused: bool,
}

/// The state after a step, and what it came to.
pub type Step = (LadderView, Result<OutcomeView, Seq<char>>);

/// Whether a repair has begun in this run.
pub open spec fn begun(st: LadderView, key: Seq<char>, spec: Seq<char>, strategy: Strategy) -> bool {
    st.attempts.contains((key, spec, strategy))
}

/// The state with a repair begun.
pub open spec fn begin(
    st: LadderView,
    key: Seq<char>,
    spec: Seq<char>,
    strategy: Strategy,
) -> LadderView {
    LadderView { attempts: st.attempts.insert((key, spec, strategy)), ..st }
}

/// The state with a strategy tried.
pub open spec fn tried_too(st: LadderView, key: Seq<char>, strategy: Strategy) -> LadderView {
    LadderView { tried: st.tried.insert((key, strategy)), ..st }
}

/// Whether a strategy has been tried on a key.
pub open spec fn was_tried(st: LadderView, key: Seq<char>, strategy: Strategy) -> bool {
    st.tried.contains((key, strategy))
}

/// Pins the package in the conda table.
pub open spec fn conda_pin_step(
    plan: PlanView,
    st: LadderView,
    t: TargetView,
    reason: Reason,
) -> Step {
    if is_anchor(t.package) || begun(st, t.package, t.version, Strategy::Conda) {
        (st, Err(t.package))
    } else {
        let after = tried_too(
            begin(st, t.package, t.version, Strategy::Conda),
            t.package,
            Strategy::Conda,
        );
        (
            LadderView {
                nodes: with_entry(
                    st.nodes,
                    plan.feature,
                    TableKind::Conda,
                    t.package,
                    "=="@ + t.version,
                    pin_mark(plan.facts.today, reason),
                ),
                orders: orders_with_entry(
                    st.nodes,
                    st.orders,
                    plan.feature,
                    TableKind::Conda,
                    t.package,
                ),
                refused: st.refused || !can_hold(st.nodes, plan.feature, TableKind::Conda),
                ..after
            },
            Ok(
                edit_outcome(
                    plan.feature,
                    t,
                    Strategy::Conda,
                    seq![pin_edit(st.nodes, plan.feature, TableKind::Conda, t.package)],
                    no_details(),
                    plan.facts.now,
                ),
            ),
        )
    }
}

/// The edits and the nodes when a package's pin moves from one table, where it
/// is marked there, to another.
pub open spec fn moved_pin(
    nodes: Nodes,
    feature: Seq<char>,
    from: TableKind,
    to: TableKind,
    t: TargetView,
    mark: Seq<char>,
) -> (Seq<EditView>, Nodes) {
    let (edits, n) = if marked_pin(nodes, feature, from, t.package) {
        (
            seq![pin_edit(nodes, feature, from, t.package)],
            without_entry(nodes, feature, from, t.package),
        )
    } else {
        (Seq::<EditView>::empty(), nodes)
    };
    (
        edits.push(pin_edit(n, feature, to, t.package)),
        with_entry(n, feature, to, t.package, "=="@ + t.version, mark),
    )
}

/// The order of the keys when a package's pin moves from one table, where it is marked
/// there, to another.
pub open spec fn orders_moved(
    nodes: Nodes,
    orders: Orders,
    feature: Seq<char>,
    from: TableKind,
    to: TableKind,
    package: Seq<char>,
) -> Orders {
    if marked_pin(nodes, feature, from, package) {
        orders_with_entry(
            without_entry(nodes, feature, from, package),
            orders_without_entry(nodes, orders, feature, from, package),
            feature,
            to,
            package,
        )
    } else {
        orders_with_entry(nodes, orders, feature, to, package)
    }
}

/// Moves the pin to the table of wheels.
pub open spec fn pypi_pin_step(
    plan: PlanView,
    st: LadderView,
    t: TargetView,
    reason: Reason,
) -> Step {
    if is_anchor(t.package) || begun(st, t.package, t.version, Strategy::PypiDep) {
        (st, Err(t.package))
    } else {
        let after = tried_too(
            begin(st, t.package, t.version, Strategy::PypiDep),
            t.package,
            Strategy::PypiDep,
        );
        let (edits, nodes) = moved_pin(
            st.nodes,
            plan.feature,
            TableKind::Conda,
            TableKind::Pypi,
            t,
            pin_mark(plan.facts.today, reason),
        );
        (
            LadderView {
                nodes,
                orders: orders_moved(
                    st.nodes,
                    st.orders,
                    plan.feature,
                    TableKind::Conda,
                    TableKind::Pypi,
                    t.package,
                ),
                refused: st.refused || !can_hold(st.nodes, plan.feature, TableKind::Pypi),
                ..after
            },
            Ok(
                edit_outcome(
                    plan.feature,
                    t,
                    Strategy::PypiDep,
                    edits,
                    no_details(),
                    plan.facts.now,
                ),
            ),
        )
    }
}

/// Moves the pin to the table of overrides.
pub open spec fn override_pin_step(
    plan: PlanView,
    st: LadderView,
    t: TargetView,
    reason: Reason,
) -> Step {
    if is_anchor(t.package) || was_tried(st, t.package, Strategy::PypiOverride) || begun(
        st,
        t.package,
        t.version,
        Strategy::PypiOverride,
    ) {
        (st, Err(t.package))
    } else {
        let after = tried_too(
            begin(st, t.package, t.version, Strategy::PypiOverride),
            t.package,
            Strategy::PypiOverride,
        );
        let (edits, nodes) = moved_pin(
            st.nodes,
            plan.feature,
            TableKind::Pypi,
            TableKind::Override,
            t,
            pin_mark(plan.facts.today, reason),
        );
        (
            LadderView {
                nodes,
                orders: orders_moved(
                    st.nodes,
                    st.orders,
                    plan.feature,
                    TableKind::Pypi,
                    TableKind::Override,
                    t.package,
                ),
                refused: st.refused || !can_hold(st.nodes, plan.feature, TableKind::Override),
                ..after
            },
            Ok(
                edit_outcome(
                    plan.feature,
                    t,
                    Strategy::PypiOverride,
                    edits,
                    no_details(),
                    plan.facts.now,
                ),
            ),
        )
    }
}

/// Widens the conda pin that stands under `conda_name`.
pub open spec fn widen_step(
    plan: PlanView,
    st: LadderView,
    t: TargetView,
    op: Seq<char>,
    conda_name: Seq<char>,
) -> Step {
    let spec = widened(op, t.version, plan.policy);
    if is_anchor(conda_name) {
        (st, Err(conda_name))
    } else if begun(st, t.package, spec, Strategy::WidenConda) {
        (st, Err(t.package))
    } else {
        let after = tried_too(
            begin(st, t.package, spec, Strategy::WidenConda),
            t.package,
            Strategy::WidenConda,
        );
        let edit = EditView {
            strategy: Strategy::WidenConda,
            ..pin_edit(st.nodes, plan.feature, TableKind::Conda, conda_name)
        };
        (
            LadderView {
                nodes: with_entry(
                    st.nodes,
                    plan.feature,
                    TableKind::Conda,
                    conda_name,
                    spec,
                    widen_mark(plan.facts.today),
                ),
                orders: orders_with_entry(
                    st.nodes,
                    st.orders,
                    plan.feature,
                    TableKind::Conda,
                    conda_name,
                ),
                refused: st.refused || !can_hold(st.nodes, plan.feature, TableKind::Conda),
                ..after
            },
            Ok(
                edit_outcome(
                    plan.feature,
                    t,
                    Strategy::WidenConda,
                    seq![edit],
                    DetailsView {
                        old_spec: edit.before.value,
                        new_spec: Some(spec),
                        ceiling_policy: Some(policy_name(plan.policy)),
                        before: Some(edit.before),
                    },
                    plan.facts.now,
                ),
            ),
        )
    }
}

/// The step, with the attempt on a pin of the user's own recorded beside it.
pub open spec fn skipping_user_pin(step: Step, attempt: AttemptView) -> Step {
    match step.1 {
        Ok(out) => (
            step.0,
            Ok(
                OutcomeView {
                    summary_line: attempt_line(attempt) + "; skipped user-owned conda pin and "@
                        + out.summary_line,
                    extra_attempts: out.extra_attempts.push(attempt),
                    ..out
                },
            ),
        ),
        Err(e) => (step.0, Err(e)),
    }
}

/// The next of the three pins: conda, wheel, override. A conda pin of the user's
/// own counts as tried.
pub open spec fn boundary_step(
    plan: PlanView,
    st: LadderView,
    t: TargetView,
    reason: Reason,
) -> Step {
    if !was_tried(st, t.package, Strategy::Conda) {
        if user_entry(st.nodes, plan.feature, TableKind::Conda, t.package) {
            skipping_user_pin(
                pypi_pin_step(plan, tried_too(st, t.package, Strategy::Conda), t, reason),
                attempt_record(t, Strategy::Conda, "user"@, no_details(), plan.facts.now),
            )
        } else {
            conda_pin_step(plan, st, t, reason)
        }
    } else if !was_tried(st, t.package, Strategy::PypiDep) {
        pypi_pin_step(plan, st, t, reason)
    } else if !was_tried(st, t.package, Strategy::PypiOverride) {
        override_pin_step(plan, st, t, reason)
    } else {
        (st, Err(t.package))
    }
}

/// A pin without candidates moves on to the next ecosystem.
pub open spec fn no_candidates_step(plan: PlanView, st: LadderView, t: TargetView) -> Step {
    if was_tried(st, t.package, Strategy::Conda) && !was_tried(st, t.package, Strategy::PypiDep) {
        pypi_pin_step(plan, st, t, Reason::NoCandidatesEscalation)
    } else if was_tried(st, t.package, Strategy::PypiDep) && !was_tried(
        st,
        t.package,
        Strategy::PypiOverride,
    ) {
        override_pin_step(plan, st, t, Reason::NoCandidatesEscalation)
    } else {
        (st, Err(t.package))
    }
}

/// Overrides the wheel with the version of the conda pin, which stays.
pub open spec fn override_from_conda_step(
    plan: PlanView,
    st: LadderView,
    t: TargetView,
    conda_version: Seq<char>,
) -> Step {
    let version = from_first_digit(conda_version);
    if is_anchor(t.package) || begun(st, t.package, version, Strategy::PypiOverride) {
        (st, Err(t.package))
    } else {
        let after = tried_too(
            begin(st, t.package, version, Strategy::PypiOverride),
            t.package,
            Strategy::PypiOverride,
        );
        let edit = pin_edit(st.nodes, plan.feature, TableKind::Override, t.package);
        (
            LadderView {
                nodes: with_entry(
                    st.nodes,
                    plan.feature,
                    TableKind::Override,
                    t.package,
                    "=="@ + version,
                    "  # retread:override"@,
                ),
                orders: orders_with_entry(
                    st.nodes,
                    st.orders,
                    plan.feature,
                    TableKind::Override,
                    t.package,
                ),
                refused: st.refused || !can_hold(st.nodes, plan.feature, TableKind::Override),
                ..after
            },
            Ok(
                OutcomeView {
                    attempt: attempt_record(
                        t,
                        Strategy::PypiOverride,
                        "retread"@,
                        override_details(edit.before.value, "=="@ + version),
                        plan.facts.now,
                    ),
                    extra_attempts: Seq::empty(),
                    applied: seq![edit],
                    summary_line: "would add ["@ + table_name(plan.feature, TableKind::Override)
                        + "] "@ + t.package + " = \"=="@ + version
                        + "\"  (tier: pypi_override; conda-as-truth)"@,
                    pack_override: None,
                },
            ),
        )
    }
}

// -- who pins a package -----------------------------------------------------

/// The name or variant under which the user pins a conda package in a feature.
pub open spec fn pinned_variant(nodes: Nodes, feature: Seq<char>, name: Seq<char>) -> Option<
    Seq<char>,
> {
    if user_entry(nodes, feature, TableKind::Conda, name) {
        Some(name)
    } else if !"-gpu"@.is_suffix_of(name) && user_entry(
        nodes,
        feature,
        TableKind::Conda,
        name + "-gpu"@,
    ) {
        Some(name + "-gpu"@)
    } else if !"-cpu"@.is_suffix_of(name) && user_entry(
        nodes,
        feature,
        TableKind::Conda,
        name + "-cpu"@,
    ) {
        Some(name + "-cpu"@)
    } else {
        None
    }
}

/// The first of `candidates` from `from` on under which the user pins it in a
/// feature, or the variant of it.
pub open spec fn pinned_candidate(
    nodes: Nodes,
    feature: Seq<char>,
    candidates: Seq<Seq<char>>,
    from: int,
) -> Option<Seq<char>>
    decreases candidates.len() - from,
{
    if from < 0 || from >= candidates.len() {
        None
    } else {
        match pinned_variant(nodes, feature, candidates[from]) {
            Some(n) => Some(n),
            None => pinned_candidate(nodes, feature, candidates, from + 1),
        }
    }
}

/// The name under which the user pins a wheel's package in a feature's conda
/// table.
pub open spec fn pin_name_in(
    nodes: Nodes,
    names: Seq<(Seq<char>, Seq<Seq<char>>)>,
    feature: Seq<char>,
    package: Seq<char>,
) -> Option<Seq<char>> {
    let mapped = match lookup(names, canonical_name(package)) {
        Some(candidates) => pinned_candidate(nodes, feature, candidates, 0),
        None => None,
    };
    match mapped {
        Some(n) => Some(n),
        None => pinned_variant(nodes, feature, package),
    }
}

/// The first of `features` from `from` on, other than `own`, that pins the
/// package, and the name under which it does.
pub open spec fn pin_owner_from(
    features: Seq<Seq<char>>,
    own: Seq<char>,
    names: Seq<(Seq<char>, Seq<Seq<char>>)>,
    nodes: Nodes,
    package: Seq<char>,
    from: int,
) -> Option<(Seq<char>, Seq<char>)>
    decreases features.len() - from,
{
    if from < 0 || from >= features.len() {
        None
    } else {
        let f = features[from];
        let name = if f == own {
            None
        } else {
            pin_name_in(nodes, names, f, package)
        };
        match name {
            Some(n) => Some((f, n)),
            None => pin_owner_from(features, own, names, nodes, package, from + 1),
        }
    }
}

/// The feature whose conda table pins the package, `own` before the others, and
/// the name under which it does.
pub open spec fn pin_owner(
    features: Seq<Seq<char>>,
    own: Seq<char>,
    names: Seq<(Seq<char>, Seq<Seq<char>>)>,
    nodes: Nodes,
    package: Seq<char>,
) -> Option<(Seq<char>, Seq<char>)> {
    match pin_name_in(nodes, names, own, package) {
        Some(n) => Some((own, n)),
        None => pin_owner_from(features, own, names, nodes, package, 0),
    }
}

/// The one exact version that a consuming environment pins under the first of
/// `family` from `from` on that has one.
pub open spec fn env_version(
    deps: Seq<(Seq<char>, Seq<Seq<char>>)>,
    family: Seq<Seq<char>>,
    from: int,
) -> Option<Seq<char>>
    decreases family.len() - from,
{
    if from < 0 || from >= family.len() {
        None
    } else {
        let here = match lookup(deps, family[from]) {
            Some(specs) => only_exact(specs),
            None => None,
        };
        match here {
            Some(v) => Some(v),
            None => env_version(deps, family, from + 1),
        }
    }
}

/// The first of `candidates` from `from` on that is no anchor, was not
/// overridden, and has an exact version in a consuming environment.
pub open spec fn pack_candidate(
    plan: PlanView,
    st: LadderView,
    deps: Seq<(Seq<char>, Seq<Seq<char>>)>,
    candidates: Seq<Seq<char>>,
    from: int,
) -> Option<(Seq<char>, Seq<char>)>
    decreases candidates.len() - from,
{
    if from < 0 || from >= candidates.len() {
        None
    } else {
        let pkg = candidates[from];
        let version = if was_tried(st, pkg, Strategy::PypiOverride) || is_anchor(pkg) {
            None
        } else {
            env_version(deps, name_family(pkg, plan.names), 0)
        };
        match version {
            Some(v) => Some((pkg, v)),
            None => pack_candidate(plan, st, deps, candidates, from + 1),
        }
    }
}

/// The wheel to override in a pack, and its version in the consuming
/// environments: the package of the conflict, or one that requires it.
pub open spec fn pack_override_target(
    plan: PlanView,
    st: LadderView,
    package: Seq<char>,
    chain: Seq<Seq<char>>,
    bundle: Seq<char>,
) -> Option<(Seq<char>, Seq<char>)> {
    match known_dir(plan.facts, plan.dir, bundle) {
        None => None,
        Some(d) => {
            let deps = match lookup(plan.facts.packs, d) {
                Some(p) => p.env_dependencies,
                None => Seq::empty(),
            };
            pack_candidate(plan, st, deps, seq![package] + chain, 0)
        },
    }
}

/// Overrides a wheel in a pack with the version that a consuming environment
/// pins; `None` where this was begun before or the pack is not known.
pub open spec fn try_pack_step(
    plan: PlanView,
    st: LadderView,
    t: TargetView,
    pkg: Seq<char>,
    version: Seq<char>,
    bundle: Seq<char>,
) -> (LadderView, Option<OutcomeView>) {
    if is_anchor(pkg) || begun(st, pkg, version, Strategy::PypiOverride) {
        (st, None)
    } else {
        let after = begin(st, pkg, version, Strategy::PypiOverride);
        match pack_manifest(plan.facts, plan.dir, bundle) {
            None => (after, None),
            Some(pixi) => (
                tried_too(after, pkg, Strategy::PypiOverride),
                Some(
                    override_outcome(
                        TargetView { package: pkg, version, ..t },
                        bundle,
                        pixi,
                        None,
                        "=="@ + version,
                        "conda-as-truth"@,
                        plan.facts.now,
                    ),
                ),
            ),
        }
    }
}

/// The override of the first of the requirers from `from` on that the user pins
/// and that was not tried.
pub open spec fn chain_override(
    plan: PlanView,
    st: LadderView,
    t: TargetView,
    chain: Seq<Seq<char>>,
    from: int,
) -> Option<(LadderView, OutcomeView)>
    decreases chain.len() - from,
{
    if from < 0 || from >= chain.len() {
        None
    } else {
        let requirer = chain[from];
        let here = if was_tried(st, requirer, Strategy::PypiOverride) {
            None
        } else {
            match pin_owner(plan.features, plan.feature, plan.names, st.nodes, requirer) {
                None => None,
                Some((feature, conda_name)) => match snapshot(
                    st.nodes,
                    feature,
                    TableKind::Conda,
                    conda_name,
                ).value {
                    None => None,
                    Some(pin) => {
                        let step = override_from_conda_step(
                            PlanView { feature, ..plan },
                            st,
                            TargetView { package: requirer, ..t },
                            pin,
                        );
                        match step.1 {
                            Ok(out) => Some((step.0, out)),
                            Err(_) => None,
                        }
                    },
                },
            }
        };
        match here {
            Some(step) => Some(step),
            None => chain_override(plan, st, t, chain, from + 1),
        }
    }
}

/// The last resort for a range that a conda pin blocks: widen the pin, or pin
/// the package.
pub open spec fn widen_or_pin_step(
    plan: PlanView,
    st: LadderView,
    t: TargetView,
    op: Seq<char>,
    owner: Option<(Seq<char>, Seq<char>)>,
) -> Step {
    let (feature, name) = match owner {
        Some(o) => o,
        None => (plan.feature, t.package),
    };
    let there = PlanView { feature, ..plan };
    if !was_tried(st, t.package, Strategy::WidenConda) {
        widen_step(there, st, t, op, name)
    } else {
        boundary_step(there, st, t, Reason::CondaBoundary)
    }
}

/// The override of a wheel, for a range that a conda pin blocks, outside a pack.
pub open spec fn workspace_override(
    plan: PlanView,
    st: LadderView,
    t: TargetView,
    conda_version: Seq<char>,
    chain: Seq<Seq<char>>,
    owner: Option<(Seq<char>, Seq<char>)>,
) -> Option<(LadderView, OutcomeView)> {
    match owner {
        Some((feature, _)) => if was_tried(st, t.package, Strategy::PypiOverride) {
            None
        } else {
            let step = override_from_conda_step(PlanView { feature, ..plan }, st, t, conda_version);
            match step.1 {
                Ok(out) => Some((step.0, out)),
                Err(_) => None,
            }
        },
        None => chain_override(plan, st, t, chain, 0),
    }
}

/// What is tried for a range that a conda pin blocks once a pack's override is
/// out of the question.
pub open spec fn workspace_widen_step(
    plan: PlanView,
    st: LadderView,
    t: TargetView,
    op: Seq<char>,
    conda_version: Seq<char>,
    chain: Seq<Seq<char>>,
    pack_name: Option<Seq<char>>,
) -> Step {
    let owner = pin_owner(plan.features, plan.feature, plan.names, st.nodes, t.package);
    let over = if plan.preference == RelaxPreference::Conda && pack_name is None {
        workspace_override(plan, st, t, conda_version, chain, owner)
    } else {
        None
    };
    match over {
        Some((after, out)) => (after, Ok(out)),
        None => widen_or_pin_step(plan, st, t, op, owner),
    }
}

/// What is tried for a range that a conda pin blocks. Where conda is preferred,
/// the wheel is overridden: in the pack that the conflict was raised in, or in
/// the feature that pins the package or one that requires it. Else the pin is
/// widened.
pub open spec fn widen_needed_step(
    plan: PlanView,
    st: LadderView,
    t: TargetView,
    op: Seq<char>,
    conda_version: Seq<char>,
    chain: Seq<Seq<char>>,
    pack_name: Option<Seq<char>>,
) -> Step {
    let target = match pack_name {
        Some(bundle) => if plan.preference == RelaxPreference::Conda {
            pack_override_target(plan, st, t.package, chain, bundle)
        } else {
            None
        },
        None => None,
    };
    match target {
        Some((pkg, version)) => {
            let (after, out) = try_pack_step(plan, st, t, pkg, version, pack_name->0);
            match out {
                Some(o) => (after, Ok(o)),
                None => workspace_widen_step(plan, after, t, op, conda_version, chain, pack_name),
            }
        },
        None => workspace_widen_step(plan, st, t, op, conda_version, chain, pack_name),
    }
}

/// Relaxes an exact pin of upstream requirements to a floor, in the pack whose
/// requirements hold it.
pub open spec fn upstream_pin_step(
    plan: PlanView,
    st: LadderView,
    t: TargetView,
    old_version: Seq<char>,
    new_spec: Seq<char>,
    pack_name: Option<Seq<char>>,
    why: Seq<char>,
) -> Step {
    if is_anchor(t.package) || pack_name is None || begun(
        st,
        t.package,
        new_spec,
        Strategy::PypiOverride,
    ) {
        (st, Err(t.package))
    } else {
        let bundle = pack_name->0;
        let after = begin(st, t.package, new_spec, Strategy::PypiOverride);
        if was_tried(st, t.package, Strategy::PypiOverride) || !owns_exact_pin(
            plan.facts,
            plan.dir,
            bundle,
            t.package,
        ) {
            (after, Err(t.package))
        } else {
            match pack_manifest(plan.facts, plan.dir, bundle) {
                None => (after, Err(t.package)),
                Some(pixi) => (
                    tried_too(after, t.package, Strategy::PypiOverride),
                    Ok(
                        override_outcome(
                            t,
                            bundle,
                            pixi,
                            Some("=="@ + old_version),
                            new_spec,
                            why,
                            plan.facts.now,
                        ),
                    ),
                ),
            }
        }
    }
}

/// The key under which a package's override in a pack counts as tried.
pub open spec fn pack_key(package: Seq<char>, pack: Seq<char>) -> Seq<char> {
    package + "@"@ + pack
}

/// Puts the workspace's range into the pack that demands a version outside it.
pub open spec fn range_vs_pin_step(
    plan: PlanView,
    st: LadderView,
    t: TargetView,
    conda_range: Seq<char>,
    pack: Seq<char>,
) -> Step {
    let new_spec = pep440_range(conda_range);
    let key = pack_key(t.package, pack);
    match pack_manifest(plan.facts, plan.dir, pack) {
        None => (st, Err(t.package)),
        Some(pixi) => if is_anchor(t.package) {
            (st, Err(t.package))
        } else if begun(st, key, new_spec, Strategy::PypiOverride) {
            (st, Err(key))
        } else {
            let after = begin(st, key, new_spec, Strategy::PypiOverride);
            if was_tried(st, key, Strategy::PypiOverride) {
                (after, Err(t.package))
            } else {
                (
                    tried_too(after, key, Strategy::PypiOverride),
                    Ok(
                        override_outcome(
                            t,
                            pack,
                            pixi,
                            Some("=="@ + t.version),
                            new_spec,
                            "workspace-range-vs-auto-routed-pin"@,
                            plan.facts.now,
                        ),
                    ),
                )
            }
        },
    }
}

/// Narrows the override that a pack has by a cap from below it; a pack without
/// one is not given one.
pub open spec fn nested_cap_step(
    plan: PlanView,
    st: LadderView,
    t: TargetView,
    pack: Seq<char>,
    cap_op: Seq<char>,
    cap_version: Seq<char>,
) -> Step {
    let key = pack_key(t.package, pack) + "#narrow"@;
    match (known_dir(plan.facts, plan.dir, pack), pack_manifest(plan.facts, plan.dir, pack)) {
        (Some(d), Some(pixi)) => if is_anchor(t.package) {
            (st, Err(t.package))
        } else {
            match ledgered(plan.facts, d, t.package) {
                None => (st, Err(t.package)),
                Some(existing) => match intersected(existing, cap_op, cap_version) {
                    Err(_) => (st, Err(t.package)),
                    Ok(narrowed) => if begun(st, key, narrowed, Strategy::PypiOverride) {
                        (st, Err(key))
                    } else {
                        (
                            tried_too(
                                begin(st, key, narrowed, Strategy::PypiOverride),
                                key,
                                Strategy::PypiOverride,
                            ),
                            Ok(
                                override_outcome(
                                    t,
                                    pack,
                                    pixi,
                                    Some(existing),
                                    narrowed,
                                    "nested-cap-intersection"@,
                                    plan.facts.now,
                                ),
                            ),
                        )
                    },
                },
            }
        },
        _ => (st, Err(t.package)),
    }
}

/// The target of a repair.
pub open spec fn target_for(
    package: Seq<char>,
    version: Seq<char>,
    iter: u32,
    c: ConflictView,
) -> TargetView {
    TargetView { package, version, iter, conflict: kind_name(c) }
}

/// The step that answers a conflict.
pub open spec fn repair_step(plan: PlanView, st: LadderView, c: ConflictView, iter: u32) -> Step {
    match c {
        ConflictView::NoCandidates { package, version } => no_candidates_step(
            plan,
            st,
            target_for(package, version, iter, c),
        ),
        ConflictView::CondaBoundary { package, version } => boundary_step(
            plan,
            st,
            target_for(package, version, iter, c),
            Reason::CondaBoundary,
        ),
        ConflictView::PypiInternal { package, version } => override_pin_step(
            plan,
            st,
            target_for(package, version, iter, c),
            Reason::PypiInternal,
        ),
        ConflictView::CondaWidenNeeded {
            package,
            op,
            floor,
            conda_version,
            requiring_chain,
            pack_name,
        } => widen_needed_step(
            plan,
            st,
            target_for(package, floor, iter, c),
            op,
            conda_version,
            requiring_chain,
            pack_name,
        ),
        ConflictView::DepsFromPin { package, pinned_version, op, floor, requirer, pack_name } =>
            upstream_pin_step(
            plan,
            st,
            target_for(package, floor, iter, c),
            pinned_version,
            op + floor,
            pack_name,
            "deps-from-advisory"@,
        ),
        ConflictView::NoWheelTransitive { package, range, requirer, requirer_pin, pack_name } =>
            upstream_pin_step(
            plan,
            st,
            target_for(requirer, requirer_pin, iter, c),
            requirer_pin,
            ">="@ + requirer_pin,
            pack_name,
            "deps-from-advisory; no-wheel-transitive"@,
        ),
        ConflictView::CondaRangeVsPackPin { package, conda_range, pack_demand, pack_name } =>
            range_vs_pin_step(
            plan,
            st,
            target_for(package, pack_demand, iter, c),
            conda_range,
            pack_name,
        ),
        ConflictView::NestedCondaCap {
            package,
            pack_name,
            pack_demand,
            cap_op,
            cap_version,
            via,
        } => nested_cap_step(
            plan,
            st,
            target_for(package, pack_demand, iter, c),
            pack_name,
            cap_op,
            cap_version,
        ),
    }
}

// ---------------------------------------------------------------------------
// Laws
// ---------------------------------------------------------------------------

/// What holds of every step: what was begun or tried stays so; success begins
/// something new; a refusal leaves the manifest as it was; an override of a pack
/// comes without an edit; and no entry of an anchor changes.
pub open spec fn is_orderly(st: LadderView, step: Step) -> bool {
    &&& st.attempts.subset_of(step.0.attempts)
    &&& st.tried.subset_of(step.0.tried)
    &&& step.1 is Ok ==> exists|a: (Seq<char>, Seq<char>, Strategy)| #[trigger]
        step.0.attempts.contains(a) && !st.attempts.contains(a)
    &&& step.1 is Err ==> step.0.nodes == st.nodes && step.0.orders == st.orders
    &&& step.1 matches Ok(out) ==> (out.pack_override matches Some(w) ==> out.applied.len() == 0
        && step.0.nodes == st.nodes && step.0.orders == st.orders && !is_anchor(w.package))
    &&& is_sound(st.nodes) ==> is_sound(step.0.nodes)
    &&& is_sound(st.nodes) ==> forall|f: Seq<char>, k: TableKind, a: Seq<char>|
        is_anchor(a) ==> #[trigger] snapshot(step.0.nodes, f, k, a) == snapshot(st.nodes, f, k, a)
}

/// An entry of another package stays as it was when one is written.
proof fn lemma_others_stay(
    nodes: Nodes,
    feature: Seq<char>,
    kind: TableKind,
    package: Seq<char>,
    value: Seq<char>,
    suffix: Seq<char>,
)
    requires
        is_sound(nodes),
        !is_anchor(package),
    ensures
        is_sound(with_entry(nodes, feature, kind, package, value, suffix)),
        forall|f: Seq<char>, k: TableKind, a: Seq<char>|
            is_anchor(a) ==> #[trigger] snapshot(
                with_entry(nodes, feature, kind, package, value, suffix),
                f,
                k,
                a,
            ) == snapshot(nodes, f, k, a),
{
    lemma_with_entry_sound(nodes, feature, kind, package, value, suffix);
    let after = with_entry(nodes, feature, kind, package, value, suffix);
    assert forall|f: Seq<char>, k: TableKind, a: Seq<char>| is_anchor(a) implies #[trigger] snapshot(
        after,
        f,
        k,
        a,
    ) == snapshot(nodes, f, k, a) by {
        law_write_touches_one_entry(nodes, feature, kind, package, value, suffix, f, k, a);
    }
}

proof fn lemma_others_stay_moved(
    nodes: Nodes,
    feature: Seq<char>,
    from: TableKind,
    to: TableKind,
    t: TargetView,
    mark: Seq<char>,
)
    requires
        is_sound(nodes),
        !is_anchor(t.package),
    ensures
        is_sound(moved_pin(nodes, feature, from, to, t, mark).1),
        forall|f: Seq<char>, k: TableKind, a: Seq<char>|
            is_anchor(a) ==> #[trigger] snapshot(
                moved_pin(nodes, feature, from, to, t, mark).1,
                f,
                k,
                a,
            ) == snapshot(nodes, f, k, a),
{
    let n = if marked_pin(nodes, feature, from, t.package) {
        without_entry(nodes, feature, from, t.package)
    } else {
        nodes
    };
    lemma_without_entry_sound(nodes, feature, from, t.package);
    lemma_others_stay(n, feature, to, t.package, "=="@ + t.version, mark);
    let after = moved_pin(nodes, feature, from, to, t, mark).1;
    assert forall|f: Seq<char>, k: TableKind, a: Seq<char>| is_anchor(a) implies #[trigger] snapshot(
        after,
        f,
        k,
        a,
    ) == snapshot(nodes, f, k, a) by {
        law_removal_touches_one_entry(nodes, feature, from, t.package, f, k, a);
        assert(snapshot(after, f, k, a) == snapshot(n, f, k, a));
    }
}

proof fn lemma_conda_pin_orderly(plan: PlanView, st: LadderView, t: TargetView, reason: Reason)
    ensures
        is_orderly(st, conda_pin_step(plan, st, t, reason)),
{
    let step = conda_pin_step(plan, st, t, reason);
    if step.1 is Ok {
        assert(step.0.attempts.contains((t.package, t.version, Strategy::Conda)));
        if is_sound(st.nodes) {
            lemma_others_stay(
                st.nodes,
                plan.feature,
                TableKind::Conda,
                t.package,
                "=="@ + t.version,
                pin_mark(plan.facts.today, reason),
            );
        }
    }
}

proof fn lemma_pypi_pin_orderly(plan: PlanView, st: LadderView, t: TargetView, reason: Reason)
    ensures
        is_orderly(st, pypi_pin_step(plan, st, t, reason)),
{
    let step = pypi_pin_step(plan, st, t, reason);
    if step.1 is Ok {
        assert(step.0.attempts.contains((t.package, t.version, Strategy::PypiDep)));
        if is_sound(st.nodes) {
            lemma_others_stay_moved(
                st.nodes,
                plan.feature,
                TableKind::Conda,
                TableKind::Pypi,
                t,
                pin_mark(plan.facts.today, reason),
            );
        }
    }
}

proof fn lemma_override_pin_orderly(plan: PlanView, st: LadderView, t: TargetView, reason: Reason)
    ensures
        is_orderly(st, override_pin_step(plan, st, t, reason)),
{
    let step = override_pin_step(plan, st, t, reason);
    if step.1 is Ok {
        assert(step.0.attempts.contains((t.package, t.version, Strategy::PypiOverride)));
        if is_sound(st.nodes) {
            lemma_others_stay_moved(
                st.nodes,
                plan.feature,
                TableKind::Pypi,
                TableKind::Override,
                t,
                pin_mark(plan.facts.today, reason),
            );
        }
    }
}

proof fn lemma_widen_orderly(
    plan: PlanView,
    st: LadderView,
    t: TargetView,
    op: Seq<char>,
    conda_name: Seq<char>,
)
    ensures
        is_orderly(st, widen_step(plan, st, t, op, conda_name)),
{
    let step = widen_step(plan, st, t, op, conda_name);
    let spec = widened(op, t.version, plan.policy);
    if step.1 is Ok {
        assert(step.0.attempts.contains((t.package, spec, Strategy::WidenConda)));
        if is_sound(st.nodes) {
            lemma_others_stay(
                st.nodes,
                plan.feature,
                TableKind::Conda,
                conda_name,
                spec,
                widen_mark(plan.facts.today),
            );
        }
    }
}

proof fn lemma_boundary_orderly(plan: PlanView, st: LadderView, t: TargetView, reason: Reason)
    ensures
        is_orderly(st, boundary_step(plan, st, t, reason)),
{
    lemma_conda_pin_orderly(plan, st, t, reason);
    lemma_pypi_pin_orderly(plan, st, t, reason);
    lemma_override_pin_orderly(plan, st, t, reason);
    lemma_pypi_pin_orderly(plan, tried_too(st, t.package, Strategy::Conda), t, reason);
}

proof fn lemma_override_from_conda_orderly(
    plan: PlanView,
    st: LadderView,
    t: TargetView,
    conda_version: Seq<char>,
)
    ensures
        is_orderly(st, override_from_conda_step(plan, st, t, conda_version)),
{
    let step = override_from_conda_step(plan, st, t, conda_version);
    let version = from_first_digit(conda_version);
    if step.1 is Ok {
        assert(step.0.attempts.contains((t.package, version, Strategy::PypiOverride)));
        if is_sound(st.nodes) {
            lemma_others_stay(
                st.nodes,
                plan.feature,
                TableKind::Override,
                t.package,
                "=="@ + version,
                "  # retread:override"@,
            );
        }
    }
}

proof fn lemma_chain_override_orderly(
    plan: PlanView,
    st: LadderView,
    t: TargetView,
    chain: Seq<Seq<char>>,
    from: int,
)
    ensures
        chain_override(plan, st, t, chain, from) matches Some((after, out)) ==> is_orderly(
            st,
            (after, Ok(out)),
        ),
    decreases chain.len() - from,
{
    if 0 <= from < chain.len() {
        lemma_chain_override_orderly(plan, st, t, chain, from + 1);
        let requirer = chain[from];
        match pin_owner(plan.features, plan.feature, plan.names, st.nodes, requirer) {
            Some((feature, conda_name)) => {
                match snapshot(st.nodes, feature, TableKind::Conda, conda_name).value {
                    Some(pin) => {
                        lemma_override_from_conda_orderly(
                            PlanView { feature, ..plan },
                            st,
                            TargetView { package: requirer, ..t },
                            pin,
                        );
                    },
                    None => {},
                }
            },
            None => {},
        }
    }
}

proof fn lemma_workspace_widen_orderly(
    plan: PlanView,
    st: LadderView,
    t: TargetView,
    op: Seq<char>,
    conda_version: Seq<char>,
    chain: Seq<Seq<char>>,
    pack_name: Option<Seq<char>>,
)
    ensures
        is_orderly(
            st,
            workspace_widen_step(plan, st, t, op, conda_version, chain, pack_name),
        ),
{
    let owner = pin_owner(plan.features, plan.feature, plan.names, st.nodes, t.package);
    match owner {
        Some((feature, name)) => {
            let there = PlanView { feature, ..plan };
            lemma_override_from_conda_orderly(there, st, t, conda_version);
            lemma_widen_orderly(there, st, t, op, name);
            lemma_boundary_orderly(there, st, t, Reason::CondaBoundary);
        },
        None => {
            lemma_chain_override_orderly(plan, st, t, chain, 0);
            assert(PlanView { feature: plan.feature, ..plan } == plan);
            lemma_widen_orderly(plan, st, t, op, t.package);
            lemma_boundary_orderly(plan, st, t, Reason::CondaBoundary);
        },
    }
}

proof fn lemma_widen_needed_orderly(
    plan: PlanView,
    st: LadderView,
    t: TargetView,
    op: Seq<char>,
    conda_version: Seq<char>,
    chain: Seq<Seq<char>>,
    pack_name: Option<Seq<char>>,
)
    ensures
        is_orderly(st, widen_needed_step(plan, st, t, op, conda_version, chain, pack_name)),
{
    lemma_workspace_widen_orderly(plan, st, t, op, conda_version, chain, pack_name);
    let target = match pack_name {
        Some(bundle) => if plan.preference == RelaxPreference::Conda {
            pack_override_target(plan, st, t.package, chain, bundle)
        } else {
            None
        },
        None => None,
    };
    match target {
        Some((pkg, version)) => {
            let (after, out) = try_pack_step(plan, st, t, pkg, version, pack_name->0);
            assert(begin(st, pkg, version, Strategy::PypiOverride).attempts.contains(
                (pkg, version, Strategy::PypiOverride),
            ));
            lemma_workspace_widen_orderly(plan, after, t, op, conda_version, chain, pack_name);
        },
        None => {},
    }
}

proof fn lemma_repair_orderly(plan: PlanView, st: LadderView, c: ConflictView, iter: u32)
    ensures
        is_orderly(st, repair_step(plan, st, c, iter)),
{
    match c {
        ConflictView::NoCandidates { package, version } => {
            let t = target_for(package, version, iter, c);
            lemma_pypi_pin_orderly(plan, st, t, Reason::NoCandidatesEscalation);
            lemma_override_pin_orderly(plan, st, t, Reason::NoCandidatesEscalation);
        },
        ConflictView::CondaBoundary { package, version } => {
            let t = target_for(package, version, iter, c);
            lemma_boundary_orderly(plan, st, t, Reason::CondaBoundary);
        },
        ConflictView::PypiInternal { package, version } => {
            let t = target_for(package, version, iter, c);
            lemma_override_pin_orderly(plan, st, t, Reason::PypiInternal);
        },
        ConflictView::CondaWidenNeeded {
            package,
            op,
            floor,
            conda_version,
            requiring_chain,
            pack_name,
        } => {
            let t = target_for(package, floor, iter, c);
            lemma_widen_needed_orderly(
                plan,
                st,
                t,
                op,
                conda_version,
                requiring_chain,
                pack_name,
            );
        },
        ConflictView::DepsFromPin { package, pinned_version, op, floor, requirer, pack_name } => {
            assert(begin(st, package, op + floor, Strategy::PypiOverride).attempts.contains(
                (package, op + floor, Strategy::PypiOverride),
            ));
        },
        ConflictView::NoWheelTransitive { package, range, requirer, requirer_pin, pack_name } => {
            let spec = ">="@ + requirer_pin;
            assert(begin(st, requirer, spec, Strategy::PypiOverride).attempts.contains(
                (requirer, spec, Strategy::PypiOverride),
            ));
        },
        ConflictView::CondaRangeVsPackPin { package, conda_range, pack_demand, pack_name } => {
            let key = pack_key(package, pack_name);
            let spec = pep440_range(conda_range);
            assert(begin(st, key, spec, Strategy::PypiOverride).attempts.contains(
                (key, spec, Strategy::PypiOverride),
            ));
        },
        ConflictView::NestedCondaCap {
            package,
            pack_name,
            pack_demand,
            cap_op,
            cap_version,
            via,
        } => {
            let key = pack_key(package, pack_name) + "#narrow"@;
            let step = repair_step(plan, st, c, iter);
            if step.1 is Ok {
                let d = known_dir(plan.facts, plan.dir, pack_name)->0;
                let existing = ledgered(plan.facts, d, package)->0;
                let spec = intersected(existing, cap_op, cap_version)->Ok_0;
                assert(step.0.attempts.contains((key, spec, Strategy::PypiOverride)));
            }
        },
    }
}

/// No repair is made twice: what was begun or tried stays so, and each repair
/// begins something that had not begun.
pub proof fn law_each_repair_is_new(plan: PlanView, st: LadderView, c: ConflictView, iter: u32)
    ensures
        ({
            let (after, out) = repair_step(plan, st, c, iter);
            &&& st.attempts.subset_of(after.attempts)
            &&& st.tried.subset_of(after.tried)
            &&& out is Ok ==> exists|a: (Seq<char>, Seq<char>, Strategy)| #[trigger]
                after.attempts.contains(a) && !st.attempts.contains(a)
        }),
{
    lemma_repair_orderly(plan, st, c, iter);
}

/// Where nothing is left to try, the manifest stays as it was.
pub proof fn law_refusal_leaves_manifest(plan: PlanView, st: LadderView, c: ConflictView, iter: u32)
    ensures
        repair_step(plan, st, c, iter).1 is Err ==> repair_step(plan, st, c, iter).0.nodes
            == st.nodes,
{
    lemma_repair_orderly(plan, st, c, iter);
}

/// A repair edits the manifest or asks for an override of a pack, never both.
pub proof fn law_override_comes_without_edit(
    plan: PlanView,
    st: LadderView,
    c: ConflictView,
    iter: u32,
)
    ensures
        repair_step(plan, st, c, iter).1 matches Ok(out) ==> (out.pack_override is Some
            ==> out.applied.len() == 0 && repair_step(plan, st, c, iter).0.nodes == st.nodes),
{
    lemma_repair_orderly(plan, st, c, iter);
}

/// A package that fixes the interface to the machine is never touched: no entry
/// of one changes, in any table of any feature, and no pack is given an override
/// of one.
pub proof fn law_anchors_are_never_touched(
    plan: PlanView,
    st: LadderView,
    c: ConflictView,
    iter: u32,
    feature: Seq<char>,
    kind: TableKind,
    anchor: Seq<char>,
)
    requires
        is_sound(st.nodes),
        is_anchor(anchor),
    ensures
        ({
            let (after, out) = repair_step(plan, st, c, iter);
            &&& snapshot(after.nodes, feature, kind, anchor) == snapshot(
                st.nodes,
                feature,
                kind,
                anchor,
            )
            &&& out matches Ok(o) ==> (o.pack_override matches Some(w) ==> w.package != anchor)
        }),
{
    lemma_repair_orderly(plan, st, c, iter);
}

/// Where a wheel is overridden with the version of a conda pin, no conda entry
/// changes: the pin that the version was taken from among them.
pub proof fn law_conda_pin_is_source_of_truth(
    plan: PlanView,
    st: LadderView,
    t: TargetView,
    conda_version: Seq<char>,
    feature: Seq<char>,
    package: Seq<char>,
)
    requires
        is_sound(st.nodes),
    ensures
        snapshot(
            override_from_conda_step(plan, st, t, conda_version).0.nodes,
            feature,
            TableKind::Conda,
            package,
        ) == snapshot(st.nodes, feature, TableKind::Conda, package),
{
    law_write_touches_one_entry(
        st.nodes,
        plan.feature,
        TableKind::Override,
        t.package,
        "=="@ + from_first_digit(conda_version),
        "  # retread:override"@,
        feature,
        TableKind::Conda,
        package,
    );
}

/// Where no conda entry of the user's own stands in its way, a conflict between
/// conda and wheels is answered by a conda pin, then by a pin on the wheel, then
/// by an override, and then by nothing.
pub proof fn law_boundary_climbs_in_order(
    plan: PlanView,
    st: LadderView,
    t: TargetView,
    reason: Reason,
)
    requires
        !is_anchor(t.package),
        !user_entry(st.nodes, plan.feature, TableKind::Conda, t.package),
        forall|s: Strategy| !begun(st, t.package, t.version, s),
        forall|s: Strategy| !was_tried(st, t.package, s),
    ensures
        ({
            let first = boundary_step(plan, st, t, reason);
            let second = boundary_step(plan, first.0, t, reason);
            let third = boundary_step(plan, second.0, t, reason);
            let fourth = boundary_step(plan, third.0, t, reason);
            &&& first.1 matches Ok(out) && out.attempt.strategy == "conda"@
            &&& second.1 matches Ok(out) && out.attempt.strategy == "pypi_dep"@
            &&& third.1 matches Ok(out) && out.attempt.strategy == "pypi_override"@
            &&& fourth.1 == Err::<OutcomeView, Seq<char>>(t.package)
        }),
{
    assert(!begun(st, t.package, t.version, Strategy::Conda));
    assert(!begun(st, t.package, t.version, Strategy::PypiDep));
    assert(!begun(st, t.package, t.version, Strategy::PypiOverride));
    assert(!was_tried(st, t.package, Strategy::Conda));
    assert(!was_tried(st, t.package, Strategy::PypiDep));
    assert(!was_tried(st, t.package, Strategy::PypiOverride));
}

// ---------------------------------------------------------------------------
// What each conflict is answered by
// ---------------------------------------------------------------------------

/// Whether a step pins a package in a table of a feature: the entry reads `spec` where the
/// table can be held, and the manifest refuses it where not; and no entry of another
/// package or of another feature changes.
pub open spec fn pins(
    before: LadderView,
    after: LadderView,
    feature: Seq<char>,
    kind: TableKind,
    package: Seq<char>,
    spec: Seq<char>,
) -> bool {
    &&& can_hold(before.nodes, feature, kind) ==> snapshot(
        after.nodes,
        feature,
        kind,
        package,
    ).value == Some(spec)
    &&& !can_hold(before.nodes, feature, kind) ==> after.refused
    &&& forall|f: Seq<char>, k: TableKind, p: Seq<char>|
        f != feature || p != package ==> #[trigger] snapshot(after.nodes, f, k, p) == snapshot(
            before.nodes,
            f,
            k,
            p,
        )
}

/// Whether an entry is as it was.
pub open spec fn keeps(
    before: LadderView,
    after: LadderView,
    feature: Seq<char>,
    kind: TableKind,
    package: Seq<char>,
) -> bool {
    snapshot(after.nodes, feature, kind, package) == snapshot(before.nodes, feature, kind, package)
}

/// Whether an entry is as it was where it is the user's own, and gone where it was marked.
pub open spec fn gives_way(
    before: LadderView,
    after: LadderView,
    feature: Seq<char>,
    kind: TableKind,
    package: Seq<char>,
) -> bool {
    if marked_pin(before.nodes, feature, kind, package) {
        snapshot(after.nodes, feature, kind, package).value is None
    } else {
        keeps(before, after, feature, kind, package)
    }
}

/// Whether what was done is recorded: as this strategy, for this version of this package,
/// in this round and for this kind of conflict.
pub open spec fn is_record(
    out: OutcomeView,
    strategy: Seq<char>,
    package: Seq<char>,
    version: Seq<char>,
    iter: u32,
    conflict: Seq<char>,
) -> bool {
    &&& out.attempt.strategy == strategy
    &&& out.attempt.package == package
    &&& out.attempt.version == Some(version)
    &&& out.attempt.iter == iter
    &&& out.attempt.conflict == conflict
    &&& out.attempt.source == "retread"@
    &&& out.attempt.tier == strategy
    &&& !out.attempt.failed
}

/// Whether a step pins a package to a version exactly: in the conda table, in the table of
/// wheels, where a marked conda pin gives way, or in that of overrides, where a marked pin
/// of the wheel does.
pub open spec fn pins_exactly(
    plan: PlanView,
    st: LadderView,
    after: LadderView,
    kind: TableKind,
    package: Seq<char>,
    version: Seq<char>,
) -> bool {
    &&& pins(st, after, plan.feature, kind, package, "=="@ + version)
    &&& match kind {
        TableKind::Conda => {
            &&& keeps(st, after, plan.feature, TableKind::Pypi, package)
            &&& keeps(st, after, plan.feature, TableKind::Override, package)
        },
        TableKind::Pypi => {
            &&& gives_way(st, after, plan.feature, TableKind::Conda, package)
            &&& keeps(st, after, plan.feature, TableKind::Override, package)
        },
        TableKind::Override => {
            &&& keeps(st, after, plan.feature, TableKind::Conda, package)
            &&& gives_way(st, after, plan.feature, TableKind::Pypi, package)
        },
    }
}

proof fn lemma_write_pins(
    st: LadderView,
    after: LadderView,
    feature: Seq<char>,
    kind: TableKind,
    package: Seq<char>,
    value: Seq<char>,
    suffix: Seq<char>,
)
    requires
        is_sound(st.nodes),
        after.nodes == with_entry(st.nodes, feature, kind, package, value, suffix),
        after.refused == (st.refused || !can_hold(st.nodes, feature, kind)),
    ensures
        pins(st, after, feature, kind, package, value),
        forall|k: TableKind| k != kind ==> #[trigger] keeps(st, after, feature, k, package),
{
    law_write_touches_one_entry(
        st.nodes,
        feature,
        kind,
        package,
        value,
        suffix,
        feature,
        kind,
        package,
    );
    assert forall|f: Seq<char>, k: TableKind, p: Seq<char>|
        f != feature || p != package implies #[trigger] snapshot(after.nodes, f, k, p) == snapshot(
        st.nodes,
        f,
        k,
        p,
    ) by {
        law_write_touches_one_entry(st.nodes, feature, kind, package, value, suffix, f, k, p);
    }
    assert forall|k: TableKind| k != kind implies #[trigger] keeps(st, after, feature, k, package) by {
        law_write_touches_one_entry(
            st.nodes,
            feature,
            kind,
            package,
            value,
            suffix,
            feature,
            k,
            package,
        );
    }
}

proof fn lemma_move_pins(
    st: LadderView,
    after: LadderView,
    feature: Seq<char>,
    from: TableKind,
    to: TableKind,
    third: TableKind,
    t: TargetView,
    mark: Seq<char>,
)
    requires
        is_sound(st.nodes),
        from != to,
        third != from,
        third != to,
        after.nodes == moved_pin(st.nodes, feature, from, to, t, mark).1,
        after.refused == (st.refused || !can_hold(st.nodes, feature, to)),
    ensures
        pins(st, after, feature, to, t.package, "=="@ + t.version),
        gives_way(st, after, feature, from, t.package),
        keeps(st, after, feature, third, t.package),
{
    let n = if marked_pin(st.nodes, feature, from, t.package) {
        without_entry(st.nodes, feature, from, t.package)
    } else {
        st.nodes
    };
    lemma_without_entry_sound(st.nodes, feature, from, t.package);
    lemma_removal_keeps_the_way(st.nodes, feature, from, t.package, feature, to);
    let between = LadderView { nodes: n, ..st };
    lemma_write_pins(
        between,
        after,
        feature,
        to,
        t.package,
        "=="@ + t.version,
        mark,
    );
    assert forall|f: Seq<char>, k: TableKind, p: Seq<char>|
        (f, k, p) != (feature, from, t.package) implies #[trigger] snapshot(n, f, k, p)
        == snapshot(st.nodes, f, k, p) by {
        law_removal_touches_one_entry(st.nodes, feature, from, t.package, f, k, p);
    }
    assert forall|f: Seq<char>, k: TableKind, p: Seq<char>|
        f != feature || p != t.package implies #[trigger] snapshot(after.nodes, f, k, p)
        == snapshot(st.nodes, f, k, p) by {
        assert(snapshot(after.nodes, f, k, p) == snapshot(n, f, k, p));
    }
    law_removal_touches_one_entry(
        st.nodes,
        feature,
        from,
        t.package,
        feature,
        from,
        t.package,
    );
    assert(keeps(between, after, feature, from, t.package));
    assert(keeps(between, after, feature, third, t.package));
}

proof fn lemma_pin_steps(plan: PlanView, st: LadderView, t: TargetView, reason: Reason)
    requires
        is_sound(st.nodes),
    ensures
        ({
            let (after, out) = conda_pin_step(plan, st, t, reason);
            out is Ok ==> pins_exactly(plan, st, after, TableKind::Conda, t.package, t.version)
        }),
        ({
            let (after, out) = pypi_pin_step(plan, st, t, reason);
            out is Ok ==> pins_exactly(plan, st, after, TableKind::Pypi, t.package, t.version)
        }),
        ({
            let (after, out) = override_pin_step(plan, st, t, reason);
            out is Ok ==> pins_exactly(plan, st, after, TableKind::Override, t.package, t.version)
        }),
{
    let mark = pin_mark(plan.facts.today, reason);
    let (a, x) = conda_pin_step(plan, st, t, reason);
    if x is Ok {
        lemma_write_pins(
            st,
            a,
            plan.feature,
            TableKind::Conda,
            t.package,
            "=="@ + t.version,
            mark,
        );
        assert(keeps(st, a, plan.feature, TableKind::Pypi, t.package));
        assert(keeps(st, a, plan.feature, TableKind::Override, t.package));
    }
    let (b, y) = pypi_pin_step(plan, st, t, reason);
    if y is Ok {
        lemma_move_pins(
            st,
            b,
            plan.feature,
            TableKind::Conda,
            TableKind::Pypi,
            TableKind::Override,
            t,
            mark,
        );
    }
    let (c, z) = override_pin_step(plan, st, t, reason);
    if z is Ok {
        lemma_move_pins(
            st,
            c,
            plan.feature,
            TableKind::Pypi,
            TableKind::Override,
            TableKind::Conda,
            t,
            mark,
        );
    }
}

/// A conflict among wheels alone is answered by an override of the package to the
/// conflict's version, once, and not for an anchor: no conda entry of any feature
/// changes.
pub proof fn law_conflict_among_wheels_is_overridden(
    plan: PlanView,
    st: LadderView,
    package: Seq<char>,
    version: Seq<char>,
    iter: u32,
)
    requires
        is_sound(st.nodes),
    ensures
        ({
            let c = ConflictView::PypiInternal { package, version };
            let (after, out) = repair_step(plan, st, c, iter);
            &&& out is Ok <==> !is_anchor(package) && !st.tried.contains(
                (package, Strategy::PypiOverride),
            ) && !st.attempts.contains((package, version, Strategy::PypiOverride))
            &&& out is Err ==> out == Err::<OutcomeView, Seq<char>>(package) && after == st
            &&& out matches Ok(o) ==> {
                &&& is_record(o, "pypi_override"@, package, version, iter, "PypiInternal"@)
                &&& o.pack_override is None
                &&& pins_exactly(plan, st, after, TableKind::Override, package, version)
                &&& forall|f: Seq<char>, p: Seq<char>| #[trigger]
                    keeps(st, after, f, TableKind::Conda, p)
                &&& after.tried == st.tried.insert((package, Strategy::PypiOverride))
            }
        }),
{
    let c = ConflictView::PypiInternal { package, version };
    let t = target_for(package, version, iter, c);
    lemma_pin_steps(plan, st, t, Reason::PypiInternal);
    let (after, out) = repair_step(plan, st, c, iter);
    if out is Ok {
        assert forall|f: Seq<char>, p: Seq<char>| #[trigger]
            keeps(st, after, f, TableKind::Conda, p) by {
            if f != plan.feature || p != package {
                assert(snapshot(after.nodes, f, TableKind::Conda, p) == snapshot(
                    st.nodes,
                    f,
                    TableKind::Conda,
                    p,
                ));
            }
        }
    }
}

/// The table where a conflict between conda and wheels is answered next: that of conda,
/// unless it was tried or the user has an entry there; then that of wheels; then that of
/// overrides; and then none.
pub open spec fn next_table(plan: PlanView, st: LadderView, package: Seq<char>) -> Option<TableKind> {
    let users = user_entry(st.nodes, plan.feature, TableKind::Conda, package);
    if !st.tried.contains((package, Strategy::Conda)) {
        if users {
            Some(TableKind::Pypi)
        } else {
            Some(TableKind::Conda)
        }
    } else if !st.tried.contains((package, Strategy::PypiDep)) {
        Some(TableKind::Pypi)
    } else if !st.tried.contains((package, Strategy::PypiOverride)) {
        Some(TableKind::Override)
    } else {
        None
    }
}

/// The strategy that writes to a table, and the name that it is recorded under.
pub open spec fn table_strategy(kind: TableKind) -> (Strategy, Seq<char>) {
    match kind {
        TableKind::Conda => (Strategy::Conda, "conda"@),
        TableKind::Pypi => (Strategy::PypiDep, "pypi_dep"@),
        TableKind::Override => (Strategy::PypiOverride, "pypi_override"@),
    }
}

proof fn lemma_boundary_pins(plan: PlanView, st: LadderView, t: TargetView, reason: Reason)
    requires
        is_sound(st.nodes),
    ensures
        ({
            let (after, out) = boundary_step(plan, st, t, reason);
            let next = next_table(plan, st, t.package);
            &&& out is Ok <==> next is Some && !is_anchor(t.package) && !st.attempts.contains(
                (t.package, t.version, table_strategy(next->0).0),
            )
            &&& out matches Ok(o) ==> {
                &&& is_record(
                    o,
                    table_strategy(next->0).1,
                    t.package,
                    t.version,
                    t.iter,
                    t.conflict,
                )
                &&& o.pack_override is None
                &&& pins_exactly(plan, st, after, next->0, t.package, t.version)
                &&& user_entry(st.nodes, plan.feature, TableKind::Conda, t.package) ==> keeps(
                    st,
                    after,
                    plan.feature,
                    TableKind::Conda,
                    t.package,
                )
            }
        }),
{
    lemma_pin_steps(plan, st, t, reason);
    let noted = tried_too(st, t.package, Strategy::Conda);
    lemma_pin_steps(plan, noted, t, reason);
    let (after, out) = boundary_step(plan, st, t, reason);
    if out is Ok && next_table(plan, st, t.package) == Some(TableKind::Pypi) {
        assert(pins(noted, after, plan.feature, TableKind::Pypi, t.package, "=="@ + t.version)
            || pins(st, after, plan.feature, TableKind::Pypi, t.package, "=="@ + t.version));
        assert forall|f: Seq<char>, k: TableKind, p: Seq<char>|
            f != plan.feature || p != t.package implies #[trigger] snapshot(after.nodes, f, k, p)
            == snapshot(st.nodes, f, k, p) by {
            assert(snapshot(noted.nodes, f, k, p) == snapshot(st.nodes, f, k, p));
        }
        assert(pins(st, after, plan.feature, TableKind::Pypi, t.package, "=="@ + t.version));
    }
}

/// A conflict between conda and wheels is answered by a pin to the conflict's version, in
/// the next of the three tables that is left, unless that was begun before or the package
/// is an anchor; and a conda entry of the user's own stays.
pub proof fn law_boundary_pins_the_version(
    plan: PlanView,
    st: LadderView,
    package: Seq<char>,
    version: Seq<char>,
    iter: u32,
)
    requires
        is_sound(st.nodes),
    ensures
        ({
            let c = ConflictView::CondaBoundary { package, version };
            let (after, out) = repair_step(plan, st, c, iter);
            let next = next_table(plan, st, package);
            &&& out is Ok <==> next is Some && !is_anchor(package) && !st.attempts.contains(
                (package, version, table_strategy(next->0).0),
            )
            &&& out matches Ok(o) ==> {
                &&& is_record(
                    o,
                    table_strategy(next->0).1,
                    package,
                    version,
                    iter,
                    "CondaBoundary"@,
                )
                &&& o.pack_override is None
                &&& pins_exactly(plan, st, after, next->0, package, version)
                &&& user_entry(st.nodes, plan.feature, TableKind::Conda, package) ==> keeps(
                    st,
                    after,
                    plan.feature,
                    TableKind::Conda,
                    package,
                )
            }
        }),
{
    let c = ConflictView::CondaBoundary { package, version };
    lemma_boundary_pins(plan, st, target_for(package, version, iter, c), Reason::CondaBoundary);
}

/// A pin without candidates moves to the next table behind one that was tried: from conda
/// to wheels, and from wheels to overrides. It is never pinned in conda.
pub proof fn law_pin_without_candidates_moves_on(
    plan: PlanView,
    st: LadderView,
    package: Seq<char>,
    version: Seq<char>,
    iter: u32,
)
    requires
        is_sound(st.nodes),
    ensures
        ({
            let c = ConflictView::NoCandidates { package, version };
            let (after, out) = repair_step(plan, st, c, iter);
            let conda = st.tried.contains((package, Strategy::Conda));
            let wheel = st.tried.contains((package, Strategy::PypiDep));
            let over = st.tried.contains((package, Strategy::PypiOverride));
            let next = if conda && !wheel {
                Some(TableKind::Pypi)
            } else if wheel && !over {
                Some(TableKind::Override)
            } else {
                None
            };
            &&& out is Ok <==> next is Some && !is_anchor(package) && !st.attempts.contains(
                (package, version, table_strategy(next->0).0),
            )
            &&& out matches Ok(o) ==> {
                &&& is_record(
                    o,
                    table_strategy(next->0).1,
                    package,
                    version,
                    iter,
                    "NoCandidates"@,
                )
                &&& o.pack_override is None
                &&& pins_exactly(plan, st, after, next->0, package, version)
            }
        }),
{
    let c = ConflictView::NoCandidates { package, version };
    lemma_pin_steps(
        plan,
        st,
        target_for(package, version, iter, c),
        Reason::NoCandidatesEscalation,
    );
}

/// Whether a step asks for an override of a package in a pack, and leaves the manifest as
/// it was.
pub open spec fn overrides(
    plan: PlanView,
    st: LadderView,
    after: LadderView,
    out: OutcomeView,
    pack: Seq<char>,
    package: Seq<char>,
    old_spec: Option<Seq<char>>,
    spec: Seq<char>,
) -> bool {
    &&& out.pack_override matches Some(w) && w.bundle == pack && w.package == package && w.spec
        == spec && w.kind == PackOverrideKind::Override && pack_manifest(
        plan.facts,
        plan.dir,
        pack,
    ) == Some(w.pack_pixi)
    &&& out.attempt.strategy == "pypi_override"@
    &&& out.attempt.package == package
    &&& out.attempt.old_spec == old_spec
    &&& out.attempt.new_spec == Some(spec)
    &&& out.attempt.source == "retread"@
    &&& out.attempt.ts == plan.facts.now
    &&& out.applied.len() == 0
    &&& out.extra_attempts.len() == 0
    &&& after.nodes == st.nodes
    &&& after.orders == st.orders
}

/// An exact pin of upstream requirements is relaxed, in the pack that it was raised in and
/// that has the pin, to the floor that was asked for.
pub proof fn law_upstream_pin_is_relaxed(
    plan: PlanView,
    st: LadderView,
    package: Seq<char>,
    pinned_version: Seq<char>,
    op: Seq<char>,
    floor: Seq<char>,
    requirer: Seq<char>,
    pack_name: Option<Seq<char>>,
    iter: u32,
)
    ensures
        ({
            let c = ConflictView::DepsFromPin {
                package,
                pinned_version,
                op,
                floor,
                requirer,
                pack_name,
            };
            let (after, out) = repair_step(plan, st, c, iter);
            &&& out is Ok <==> pack_name is Some && !is_anchor(package) && !st.attempts.contains(
                (package, op + floor, Strategy::PypiOverride),
            ) && !st.tried.contains((package, Strategy::PypiOverride)) && owns_exact_pin(
                plan.facts,
                plan.dir,
                pack_name->0,
                package,
            ) && pack_manifest(plan.facts, plan.dir, pack_name->0) is Some
            &&& out matches Ok(o) ==> overrides(
                plan,
                st,
                after,
                o,
                pack_name->0,
                package,
                Some("=="@ + pinned_version),
                op + floor,
            ) && o.attempt.version == Some(floor)
        }),
{
}

/// Where a package has no wheels, what is relaxed is the exact pin of what requires it, to
/// a floor at that pin's version.
pub proof fn law_requirer_without_wheels_is_relaxed(
    plan: PlanView,
    st: LadderView,
    package: Seq<char>,
    range: Seq<char>,
    requirer: Seq<char>,
    requirer_pin: Seq<char>,
    pack_name: Option<Seq<char>>,
    iter: u32,
)
    ensures
        ({
            let c = ConflictView::NoWheelTransitive {
                package,
                range,
                requirer,
                requirer_pin,
                pack_name,
            };
            let (after, out) = repair_step(plan, st, c, iter);
            &&& out is Ok <==> pack_name is Some && !is_anchor(requirer) && !st.attempts.contains(
                (requirer, ">="@ + requirer_pin, Strategy::PypiOverride),
            ) && !st.tried.contains((requirer, Strategy::PypiOverride)) && owns_exact_pin(
                plan.facts,
                plan.dir,
                pack_name->0,
                requirer,
            ) && pack_manifest(plan.facts, plan.dir, pack_name->0) is Some
            &&& out matches Ok(o) ==> overrides(
                plan,
                st,
                after,
                o,
                pack_name->0,
                requirer,
                Some("=="@ + requirer_pin),
                ">="@ + requirer_pin,
            ) && o.attempt.version == Some(requirer_pin)
        }),
{
}

/// A range of the workspace that a pack's exact demand lies outside of is put into that
/// pack, in place of the demand.
pub proof fn law_range_replaces_a_packs_demand(
    plan: PlanView,
    st: LadderView,
    package: Seq<char>,
    conda_range: Seq<char>,
    pack_demand: Seq<char>,
    pack_name: Seq<char>,
    iter: u32,
)
    ensures
        ({
            let c = ConflictView::CondaRangeVsPackPin {
                package,
                conda_range,
                pack_demand,
                pack_name,
            };
            let (after, out) = repair_step(plan, st, c, iter);
            let key = package + "@"@ + pack_name;
            &&& out is Ok <==> pack_manifest(plan.facts, plan.dir, pack_name) is Some && !is_anchor(
                package,
            ) && !st.attempts.contains((key, pep440_range(conda_range), Strategy::PypiOverride))
                && !st.tried.contains((key, Strategy::PypiOverride))
            &&& out matches Ok(o) ==> overrides(
                plan,
                st,
                after,
                o,
                pack_name,
                package,
                Some("=="@ + pack_demand),
                pep440_range(conda_range),
            ) && o.attempt.version == Some(pack_demand)
        }),
{
}

/// A cap below a pack narrows the override that the pack has, and gives it none where it
/// has none.
pub proof fn law_cap_narrows_a_packs_override(
    plan: PlanView,
    st: LadderView,
    package: Seq<char>,
    pack_name: Seq<char>,
    pack_demand: Seq<char>,
    cap_op: Seq<char>,
    cap_version: Seq<char>,
    via: Seq<char>,
    iter: u32,
)
    ensures
        ({
            let c = ConflictView::NestedCondaCap {
                package,
                pack_name,
                pack_demand,
                cap_op,
                cap_version,
                via,
            };
            let (after, out) = repair_step(plan, st, c, iter);
            out matches Ok(o) ==> known_dir(plan.facts, plan.dir, pack_name) matches Some(d) && (
            ledgered(plan.facts, d, package) matches Some(existing) && intersected(
                existing,
                cap_op,
                cap_version,
            ) is Ok && overrides(
                plan,
                st,
                after,
                o,
                pack_name,
                package,
                Some(existing),
                intersected(existing, cap_op, cap_version)->Ok_0,
            ))
        }),
        ({
            let c = ConflictView::NestedCondaCap {
                package,
                pack_name,
                pack_demand,
                cap_op,
                cap_version,
                via,
            };
            let (after, out) = repair_step(plan, st, c, iter);
            known_dir(plan.facts, plan.dir, pack_name) matches Some(d) && (ledgered(
                plan.facts,
                d,
                package,
            ) matches Some(existing) && (intersected(existing, cap_op, cap_version) matches Ok(
                narrowed,
            ) && pack_manifest(plan.facts, plan.dir, pack_name) is Some && !is_anchor(package)
                && !st.attempts.contains(
                (package + "@"@ + pack_name + "#narrow"@, narrowed, Strategy::PypiOverride),
            ))) ==> out is Ok
        }),
{
}

/// Whether a pack's consuming environments pin one name of a package's family to exactly
/// this version.
pub open spec fn environment_pins(
    plan: PlanView,
    pack: Seq<char>,
    package: Seq<char>,
    version: Seq<char>,
) -> bool {
    known_dir(plan.facts, plan.dir, pack) matches Some(d) && (lookup(plan.facts.packs, d) matches Some(
        p,
    ) && exists|i: int|
        0 <= i < name_family(package, plan.names).len() && (lookup(
            p.env_dependencies,
            #[trigger] name_family(package, plan.names)[i],
        ) matches Some(specs) && only_exact(specs) == Some(version)))
}

proof fn lemma_env_version(
    deps: Seq<(Seq<char>, Seq<Seq<char>>)>,
    family: Seq<Seq<char>>,
    from: int,
)
    requires
        0 <= from,
    ensures
        env_version(deps, family, from) matches Some(v) ==> exists|i: int|
            from <= i < family.len() && (lookup(deps, #[trigger] family[i]) matches Some(specs)
                && only_exact(specs) == Some(v)),
    decreases family.len() - from,
{
    if from < family.len() {
        lemma_env_version(deps, family, from + 1);
        match lookup(deps, family[from]) {
            Some(specs) => {
                assert(env_version(deps, family, from) == only_exact(specs) || only_exact(specs)
                    is None);
            },
            None => {},
        }
    }
}

proof fn lemma_pack_candidate(
    plan: PlanView,
    st: LadderView,
    deps: Seq<(Seq<char>, Seq<Seq<char>>)>,
    candidates: Seq<Seq<char>>,
    from: int,
)
    requires
        0 <= from,
    ensures
        pack_candidate(plan, st, deps, candidates, from) matches Some((pkg, v)) ==> {
            &&& candidates.contains(pkg)
            &&& !is_anchor(pkg)
            &&& !was_tried(st, pkg, Strategy::PypiOverride)
            &&& env_version(deps, name_family(pkg, plan.names), 0) == Some(v)
        },
    decreases candidates.len() - from,
{
    if from < candidates.len() {
        lemma_pack_candidate(plan, st, deps, candidates, from + 1);
        assert(candidates.contains(candidates[from]));
    }
}

/// Where a demand that a conda pin blocks is answered by an override of a pack, conda is
/// preferred, the pack is the one that the conflict was raised in, the package is the one
/// that is blocked or one that requires it, and its version is the one that the pack's
/// environments pin exactly.
pub proof fn law_pack_override_follows_the_environment(
    plan: PlanView,
    st: LadderView,
    package: Seq<char>,
    op: Seq<char>,
    floor: Seq<char>,
    conda_version: Seq<char>,
    requiring_chain: Seq<Seq<char>>,
    pack_name: Option<Seq<char>>,
    iter: u32,
)
    ensures
        ({
            let c = ConflictView::CondaWidenNeeded {
                package,
                op,
                floor,
                conda_version,
                requiring_chain,
                pack_name,
            };
            let (after, out) = repair_step(plan, st, c, iter);
            out matches Ok(o) ==> (o.pack_override matches Some(w) ==> {
                &&& plan.preference == RelaxPreference::Conda
                &&& pack_name == Some(w.bundle)
                &&& w.package == package || requiring_chain.contains(w.package)
                &&& exists|version: Seq<char>|
                    w.spec == "=="@ + version && #[trigger] environment_pins(
                        plan,
                        w.bundle,
                        w.package,
                        version,
                    )
                &&& overrides(plan, st, after, o, w.bundle, w.package, None, w.spec)
            })
        }),
{
    let c = ConflictView::CondaWidenNeeded {
        package,
        op,
        floor,
        conda_version,
        requiring_chain,
        pack_name,
    };
    let t = target_for(package, floor, iter, c);
    let (after, out) = repair_step(plan, st, c, iter);
    lemma_no_override_outside(plan, st, t, op, conda_version, requiring_chain, pack_name);
    match pack_name {
        Some(bundle) => {
            if plan.preference == RelaxPreference::Conda {
                match known_dir(plan.facts, plan.dir, bundle) {
                    Some(d) => {
                        let deps = match lookup(plan.facts.packs, d) {
                            Some(p) => p.env_dependencies,
                            None => Seq::empty(),
                        };
                        let candidates = seq![package] + requiring_chain;
                        lemma_pack_candidate(plan, st, deps, candidates, 0);
                        match pack_candidate(plan, st, deps, candidates, 0) {
                            Some((pkg, version)) => {
                                let family = name_family(pkg, plan.names);
                                lemma_env_version(deps, family, 0);
                                lemma_lookup_empty(family);
                                let (mid, over) = try_pack_step(plan, st, t, pkg, version, bundle);
                                lemma_no_override_outside(
                                    plan,
                                    mid,
                                    t,
                                    op,
                                    conda_version,
                                    requiring_chain,
                                    pack_name,
                                );
                                let k = choose|k: int|
                                    0 <= k < candidates.len() && candidates[k] == pkg;
                                if k > 0 {
                                    assert(requiring_chain[k - 1] == pkg);
                                }
                                if over is Some {
                                    assert(environment_pins(plan, bundle, pkg, version));
                                }
                            },
                            None => {},
                        }
                    },
                    None => {},
                }
            }
        },
        None => {},
    }
}

proof fn lemma_lookup_empty(family: Seq<Seq<char>>)
    ensures
        env_version(Seq::empty(), family, 0) is None,
{
    lemma_env_version(Seq::empty(), family, 0);
}

proof fn lemma_no_override_chain(
    plan: PlanView,
    st: LadderView,
    t: TargetView,
    chain: Seq<Seq<char>>,
    from: int,
)
    ensures
        chain_override(plan, st, t, chain, from) matches Some((_, out)) ==> out.pack_override is None,
    decreases chain.len() - from,
{
    if 0 <= from < chain.len() {
        lemma_no_override_chain(plan, st, t, chain, from + 1);
    }
}

proof fn lemma_no_override_outside(
    plan: PlanView,
    st: LadderView,
    t: TargetView,
    op: Seq<char>,
    conda_version: Seq<char>,
    chain: Seq<Seq<char>>,
    pack_name: Option<Seq<char>>,
)
    ensures
        workspace_widen_step(plan, st, t, op, conda_version, chain, pack_name).1 matches Ok(o)
            ==> o.pack_override is None,
{
    lemma_no_override_chain(plan, st, t, chain, 0);
}

/// Where wheels are preferred, a demand that a conda pin blocks is answered first by
/// widening the pin: the entry of the feature that has it, under the name that it has
/// there, reads the demand's floor with the policy's ceiling.
pub proof fn law_blocking_pin_is_widened(
    plan: PlanView,
    st: LadderView,
    package: Seq<char>,
    op: Seq<char>,
    floor: Seq<char>,
    conda_version: Seq<char>,
    requiring_chain: Seq<Seq<char>>,
    pack_name: Option<Seq<char>>,
    iter: u32,
)
    requires
        is_sound(st.nodes),
        plan.preference != RelaxPreference::Conda,
        !st.tried.contains((package, Strategy::WidenConda)),
    ensures
        ({
            let c = ConflictView::CondaWidenNeeded {
                package,
                op,
                floor,
                conda_version,
                requiring_chain,
                pack_name,
            };
            let (after, out) = repair_step(plan, st, c, iter);
            let (feature, name) = match pin_owner(
                plan.features,
                plan.feature,
                plan.names,
                st.nodes,
                package,
            ) {
                Some(owner) => owner,
                None => (plan.feature, package),
            };
            let spec = widened(op, floor, plan.policy);
            &&& out is Ok <==> !is_anchor(name) && !st.attempts.contains(
                (package, spec, Strategy::WidenConda),
            )
            &&& out matches Ok(o) ==> {
                &&& is_record(o, "widen-conda"@, package, floor, iter, "CondaWidenNeeded"@)
                &&& o.attempt.new_spec == Some(spec)
                &&& o.attempt.old_spec == snapshot(st.nodes, feature, TableKind::Conda, name).value
                &&& o.pack_override is None
                &&& pins(st, after, feature, TableKind::Conda, name, spec)
                &&& keeps(st, after, feature, TableKind::Pypi, name)
                &&& keeps(st, after, feature, TableKind::Override, name)
            }
        }),
{
    let c = ConflictView::CondaWidenNeeded {
        package,
        op,
        floor,
        conda_version,
        requiring_chain,
        pack_name,
    };
    let (after, out) = repair_step(plan, st, c, iter);
    let (feature, name) = match pin_owner(
        plan.features,
        plan.feature,
        plan.names,
        st.nodes,
        package,
    ) {
        Some(owner) => owner,
        None => (plan.feature, package),
    };
    assert(!was_tried(st, package, Strategy::WidenConda));
    if out is Ok {
        lemma_write_pins(
            st,
            after,
            feature,
            TableKind::Conda,
            name,
            widened(op, floor, plan.policy),
            widen_mark(plan.facts.today),
        );
        assert(keeps(st, after, feature, TableKind::Pypi, name));
        assert(keeps(st, after, feature, TableKind::Override, name));
    }
}

/// Where conda is preferred and a feature pins a package outside of any pack, a demand
/// that the pin blocks is answered first by an override of the wheel with the version that
/// conda has, in that feature: no conda entry changes.
pub proof fn law_conda_version_overrides_the_wheel(
    plan: PlanView,
    st: LadderView,
    package: Seq<char>,
    op: Seq<char>,
    floor: Seq<char>,
    conda_version: Seq<char>,
    requiring_chain: Seq<Seq<char>>,
    iter: u32,
    feature: Seq<char>,
    name: Seq<char>,
)
    requires
        is_sound(st.nodes),
        plan.preference == RelaxPreference::Conda,
        pin_owner(plan.features, plan.feature, plan.names, st.nodes, package) == Some(
            (feature, name),
        ),
        !is_anchor(package),
        !st.tried.contains((package, Strategy::PypiOverride)),
        !st.attempts.contains(
            (package, from_first_digit(conda_version), Strategy::PypiOverride),
        ),
    ensures
        ({
            let c = ConflictView::CondaWidenNeeded {
                package,
                op,
                floor,
                conda_version,
                requiring_chain,
                pack_name: None,
            };
            let (after, out) = repair_step(plan, st, c, iter);
            &&& out matches Ok(o) && is_record(
                o,
                "pypi_override"@,
                package,
                floor,
                iter,
                "CondaWidenNeeded"@,
            ) && o.attempt.new_spec == Some("=="@ + from_first_digit(conda_version))
                && o.pack_override is None
            &&& pins(
                st,
                after,
                feature,
                TableKind::Override,
                package,
                "=="@ + from_first_digit(conda_version),
            )
            &&& forall|f: Seq<char>, p: Seq<char>| #[trigger]
                keeps(st, after, f, TableKind::Conda, p)
        }),
{
    let c = ConflictView::CondaWidenNeeded {
        package,
        op,
        floor,
        conda_version,
        requiring_chain,
        pack_name: None,
    };
    let (after, out) = repair_step(plan, st, c, iter);
    assert(!was_tried(st, package, Strategy::PypiOverride));
    let version = from_first_digit(conda_version);
    assert(!begun(st, package, version, Strategy::PypiOverride));
    lemma_write_pins(
        st,
        after,
        feature,
        TableKind::Override,
        package,
        "=="@ + version,
        "  # retread:override"@,
    );
    assert forall|f: Seq<char>, p: Seq<char>| #[trigger] keeps(st, after, f, TableKind::Conda, p) by {
        if f != feature || p != package {
            assert(snapshot(after.nodes, f, TableKind::Conda, p) == snapshot(
                st.nodes,
                f,
                TableKind::Conda,
                p,
            ));
        }
    }
}

/// Once widening was tried where wheels are preferred, a demand that a conda pin blocks is
/// answered as a conflict between conda and wheels is: by a pin to the demand's floor, in
/// the feature that has the pin.
pub proof fn law_widening_is_followed_by_pins(
    plan: PlanView,
    st: LadderView,
    package: Seq<char>,
    op: Seq<char>,
    floor: Seq<char>,
    conda_version: Seq<char>,
    requiring_chain: Seq<Seq<char>>,
    pack_name: Option<Seq<char>>,
    iter: u32,
)
    requires
        is_sound(st.nodes),
        plan.preference != RelaxPreference::Conda,
        st.tried.contains((package, Strategy::WidenConda)),
    ensures
        ({
            let c = ConflictView::CondaWidenNeeded {
                package,
                op,
                floor,
                conda_version,
                requiring_chain,
                pack_name,
            };
            let (after, out) = repair_step(plan, st, c, iter);
            let feature = match pin_owner(
                plan.features,
                plan.feature,
                plan.names,
                st.nodes,
                package,
            ) {
                Some(owner) => owner.0,
                None => plan.feature,
            };
            let there = PlanView { feature, ..plan };
            let next = next_table(there, st, package);
            &&& out is Ok <==> next is Some && !is_anchor(package) && !st.attempts.contains(
                (package, floor, table_strategy(next->0).0),
            )
            &&& out matches Ok(o) ==> {
                &&& is_record(
                    o,
                    table_strategy(next->0).1,
                    package,
                    floor,
                    iter,
                    "CondaWidenNeeded"@,
                )
                &&& pins_exactly(there, st, after, next->0, package, floor)
            }
        }),
{
    let c = ConflictView::CondaWidenNeeded {
        package,
        op,
        floor,
        conda_version,
        requiring_chain,
        pack_name,
    };
    let t = target_for(package, floor, iter, c);
    let feature = match pin_owner(plan.features, plan.feature, plan.names, st.nodes, package) {
        Some(owner) => owner.0,
        None => plan.feature,
    };
    assert(was_tried(st, package, Strategy::WidenConda));
    lemma_boundary_pins(PlanView { feature, ..plan }, st, t, Reason::CondaBoundary);
}

// ---------------------------------------------------------------------------
// What an entry says of itself
// ---------------------------------------------------------------------------

/// Whether what a repair wrote last, where its table could be held, carries this remark,
/// and the spec that was written where that is given.
pub open spec fn is_remarked(
    before: Nodes,
    after: Nodes,
    out: OutcomeView,
    remark: Seq<char>,
) -> bool {
    &&& out.applied.len() > 0
    &&& can_hold(before, out.applied.last().feature, out.applied.last().table) ==> snapshot(
        after,
        out.applied.last().feature,
        out.applied.last().table,
        out.applied.last().package,
    ).suffix == Some(remark)
}

proof fn lemma_moved_remark(
    nodes: Nodes,
    feature: Seq<char>,
    from: TableKind,
    to: TableKind,
    t: TargetView,
    mark: Seq<char>,
)
    requires
        is_sound(nodes),
        from != to,
        can_hold(nodes, feature, to),
    ensures
        snapshot(
            moved_pin(nodes, feature, from, to, t, mark).1,
            feature,
            to,
            t.package,
        ).suffix == Some(mark),
{
    let n = if marked_pin(nodes, feature, from, t.package) {
        without_entry(nodes, feature, from, t.package)
    } else {
        nodes
    };
    lemma_without_entry_sound(nodes, feature, from, t.package);
    lemma_removal_keeps_the_way(nodes, feature, from, t.package, feature, to);
    law_write_touches_one_entry(
        n,
        feature,
        to,
        t.package,
        "=="@ + t.version,
        mark,
        feature,
        to,
        t.package,
    );
}

proof fn lemma_pin_remarks(plan: PlanView, st: LadderView, t: TargetView, reason: Reason)
    requires
        is_sound(st.nodes),
    ensures
        conda_pin_step(plan, st, t, reason).1 matches Ok(o) ==> is_remarked(
            st.nodes,
            conda_pin_step(plan, st, t, reason).0.nodes,
            o,
            pin_mark(plan.facts.today, reason),
        ) && o.applied.last().strategy != Strategy::WidenConda && o.attempt.new_spec is None,
        pypi_pin_step(plan, st, t, reason).1 matches Ok(o) ==> is_remarked(
            st.nodes,
            pypi_pin_step(plan, st, t, reason).0.nodes,
            o,
            pin_mark(plan.facts.today, reason),
        ) && o.applied.last().strategy != Strategy::WidenConda && o.attempt.new_spec is None,
        override_pin_step(plan, st, t, reason).1 matches Ok(o) ==> is_remarked(
            st.nodes,
            override_pin_step(plan, st, t, reason).0.nodes,
            o,
            pin_mark(plan.facts.today, reason),
        ) && o.applied.last().strategy != Strategy::WidenConda && o.attempt.new_spec is None,
{
    let mark = pin_mark(plan.facts.today, reason);
    let f = plan.feature;
    let p = t.package;
    law_write_touches_one_entry(
        st.nodes,
        f,
        TableKind::Conda,
        p,
        "=="@ + t.version,
        mark,
        f,
        TableKind::Conda,
        p,
    );
    if can_hold(st.nodes, f, TableKind::Pypi) {
        lemma_moved_remark(st.nodes, f, TableKind::Conda, TableKind::Pypi, t, mark);
    }
    if can_hold(st.nodes, f, TableKind::Override) {
        lemma_moved_remark(st.nodes, f, TableKind::Pypi, TableKind::Override, t, mark);
    }
}

proof fn lemma_boundary_remark(plan: PlanView, st: LadderView, t: TargetView, reason: Reason)
    requires
        is_sound(st.nodes),
    ensures
        boundary_step(plan, st, t, reason).1 matches Ok(o) ==> is_remarked(
            st.nodes,
            boundary_step(plan, st, t, reason).0.nodes,
            o,
            pin_mark(plan.facts.today, reason),
        ) && o.applied.last().strategy != Strategy::WidenConda && o.attempt.new_spec is None,
{
    lemma_pin_remarks(plan, st, t, reason);
    lemma_pin_remarks(plan, tried_too(st, t.package, Strategy::Conda), t, reason);
}

/// A pin says of itself that it is one, when it was written and why: for a boundary
/// between conda and wheels, for a conflict among wheels, or because a pin before it had
/// no candidates.
pub proof fn law_pins_say_why_they_were_written(
    plan: PlanView,
    st: LadderView,
    package: Seq<char>,
    version: Seq<char>,
    iter: u32,
)
    requires
        is_sound(st.nodes),
    ensures
        ({
            let c = ConflictView::CondaBoundary { package, version };
            repair_step(plan, st, c, iter).1 matches Ok(o) ==> is_remarked(
                st.nodes,
                repair_step(plan, st, c, iter).0.nodes,
                o,
                "  # retread:pin "@ + plan.facts.today + " "@ + "conda-boundary"@,
            )
        }),
        ({
            let c = ConflictView::PypiInternal { package, version };
            repair_step(plan, st, c, iter).1 matches Ok(o) ==> is_remarked(
                st.nodes,
                repair_step(plan, st, c, iter).0.nodes,
                o,
                "  # retread:pin "@ + plan.facts.today + " "@ + "pypi-internal"@,
            )
        }),
        ({
            let c = ConflictView::NoCandidates { package, version };
            repair_step(plan, st, c, iter).1 matches Ok(o) ==> is_remarked(
                st.nodes,
                repair_step(plan, st, c, iter).0.nodes,
                o,
                "  # retread:pin "@ + plan.facts.today + " "@ + "no-candidates-escalation"@,
            )
        }),
{
    let a = ConflictView::CondaBoundary { package, version };
    lemma_boundary_remark(
        plan,
        st,
        target_for(package, version, iter, a),
        Reason::CondaBoundary,
    );
    let b = ConflictView::PypiInternal { package, version };
    lemma_pin_remarks(plan, st, target_for(package, version, iter, b), Reason::PypiInternal);
    let c = ConflictView::NoCandidates { package, version };
    lemma_pin_remarks(
        plan,
        st,
        target_for(package, version, iter, c),
        Reason::NoCandidatesEscalation,
    );
}

/// Whether a repair is a widening that is recorded with what stood there before, what was
/// written, and how far the ceiling reaches.
pub open spec fn is_recorded_widening(
    plan: PlanView,
    before: Nodes,
    out: OutcomeView,
) -> bool {
    let e = out.applied.last();
    &&& e.table == TableKind::Conda
    &&& e.before == snapshot(before, e.feature, TableKind::Conda, e.package)
    &&& out.attempt.before == Some(e.before)
    &&& out.attempt.old_spec == e.before.value
    &&& out.attempt.strategy == "widen-conda"@
    &&& out.attempt.ceiling_policy == Some(
        match plan.policy {
            WidenCeilingPolicy::NextMajor => "next-major"@,
            WidenCeilingPolicy::Unbounded => "none"@,
            WidenCeilingPolicy::SameMinor => "same-minor"@,
        },
    )
}

/// Whether what a repair of a blocking conda pin wrote says of itself what it is: a
/// widening, an override that follows the conda version, or a pin at the boundary.
pub open spec fn says_what_it_is(
    plan: PlanView,
    before: Nodes,
    after: Nodes,
    out: OutcomeView,
) -> bool {
    if out.applied.last().strategy == Strategy::WidenConda {
        &&& is_remarked(before, after, out, "  # retread:widen "@ + plan.facts.today)
        &&& is_recorded_widening(plan, before, out)
    } else if out.attempt.new_spec is Some {
        is_remarked(before, after, out, "  # retread:override"@)
    } else {
        is_remarked(
            before,
            after,
            out,
            "  # retread:pin "@ + plan.facts.today + " "@ + "conda-boundary"@,
        )
    }
}

proof fn lemma_override_remark(
    plan: PlanView,
    st: LadderView,
    t: TargetView,
    conda_version: Seq<char>,
)
    requires
        is_sound(st.nodes),
    ensures
        override_from_conda_step(plan, st, t, conda_version).1 matches Ok(o) ==> says_what_it_is(
            plan,
            st.nodes,
            override_from_conda_step(plan, st, t, conda_version).0.nodes,
            o,
        ),
{
    law_write_touches_one_entry(
        st.nodes,
        plan.feature,
        TableKind::Override,
        t.package,
        "=="@ + from_first_digit(conda_version),
        "  # retread:override"@,
        plan.feature,
        TableKind::Override,
        t.package,
    );
}

proof fn lemma_chain_remark(
    plan: PlanView,
    st: LadderView,
    t: TargetView,
    chain: Seq<Seq<char>>,
    from: int,
)
    requires
        is_sound(st.nodes),
    ensures
        chain_override(plan, st, t, chain, from) matches Some((after, o)) ==> says_what_it_is(
            plan,
            st.nodes,
            after.nodes,
            o,
        ),
    decreases chain.len() - from,
{
    if 0 <= from < chain.len() {
        let requirer = chain[from];
        if let Some((feature, conda_name)) = pin_owner(
            plan.features,
            plan.feature,
            plan.names,
            st.nodes,
            requirer,
        ) {
            if let Some(pin) = snapshot(st.nodes, feature, TableKind::Conda, conda_name).value {
                lemma_override_remark(
                    PlanView { feature, ..plan },
                    st,
                    TargetView { package: requirer, ..t },
                    pin,
                );
            }
        }
        lemma_chain_remark(plan, st, t, chain, from + 1);
    }
}

proof fn lemma_workspace_remark(
    plan: PlanView,
    st: LadderView,
    t: TargetView,
    op: Seq<char>,
    conda_version: Seq<char>,
    chain: Seq<Seq<char>>,
    pack_name: Option<Seq<char>>,
)
    requires
        is_sound(st.nodes),
    ensures
        workspace_widen_step(plan, st, t, op, conda_version, chain, pack_name).1 matches Ok(o)
            ==> says_what_it_is(
            plan,
            st.nodes,
            workspace_widen_step(plan, st, t, op, conda_version, chain, pack_name).0.nodes,
            o,
        ),
{
    let owner = pin_owner(plan.features, plan.feature, plan.names, st.nodes, t.package);
    if let Some((feature, _)) = owner {
        lemma_override_remark(PlanView { feature, ..plan }, st, t, conda_version);
    }
    lemma_chain_remark(plan, st, t, chain, 0);
    let (feature, name) = match owner {
        Some(o) => o,
        None => (plan.feature, t.package),
    };
    let there = PlanView { feature, ..plan };
    lemma_boundary_remark(there, st, t, Reason::CondaBoundary);
    law_write_touches_one_entry(
        st.nodes,
        feature,
        TableKind::Conda,
        name,
        widened(op, t.version, plan.policy),
        widen_mark(plan.facts.today),
        feature,
        TableKind::Conda,
        name,
    );
}

/// What is written about a conda pin that blocks a wheel says of itself what it is, and a
/// widening is recorded with all that is needed to take it back.
pub proof fn law_answers_to_a_blocking_pin_say_what_they_are(
    plan: PlanView,
    st: LadderView,
    c: ConflictView,
    iter: u32,
)
    requires
        is_sound(st.nodes),
        c is CondaWidenNeeded,
    ensures
        ({
            let (after, out) = repair_step(plan, st, c, iter);
            out matches Ok(o) ==> o.pack_override is Some || says_what_it_is(
                plan,
                st.nodes,
                after.nodes,
                o,
            )
        }),
{
    if let ConflictView::CondaWidenNeeded {
        package,
        op,
        floor,
        conda_version,
        requiring_chain,
        pack_name,
    } = c {
        let t = target_for(package, floor, iter, c);
        lemma_workspace_remark(plan, st, t, op, conda_version, requiring_chain, pack_name);
        if let Some(bundle) = pack_name {
            if let Some((pkg, version)) = pack_override_target(
                plan,
                st,
                package,
                requiring_chain,
                bundle,
            ) {
                let next = try_pack_step(plan, st, t, pkg, version, bundle).0;
                assert(next.nodes == st.nodes);
                lemma_workspace_remark(
                    plan,
                    next,
                    t,
                    op,
                    conda_version,
                    requiring_chain,
                    pack_name,
                );
            }
        }
    }
}

/// Where the user has a conda entry of the package, the pin goes to the wheels, and that
/// the conda pin is the user's is recorded before it.
pub proof fn law_users_pin_is_recorded_as_such(
    plan: PlanView,
    st: LadderView,
    package: Seq<char>,
    version: Seq<char>,
    iter: u32,
)
    requires
        user_entry(st.nodes, plan.feature, TableKind::Conda, package),
        !st.tried.contains((package, Strategy::Conda)),
    ensures
        ({
            let c = ConflictView::CondaBoundary { package, version };
            let (after, out) = repair_step(plan, st, c, iter);
            out matches Ok(o) ==> {
                &&& o.extra_attempts.len() == 1
                &&& o.extra_attempts[0].strategy == "conda"@ && o.extra_attempts[0].source
                    == "user"@
                &&& o.extra_attempts[0].package == package && o.extra_attempts[0].version == Some(
                    version,
                )
                &&& o.attempt.strategy == "pypi_dep"@ && o.attempt.source == "retread"@
                &&& after.tried.contains((package, Strategy::Conda)) && after.tried.contains(
                    (package, Strategy::PypiDep),
                )
            }
        }),
{
}

// ---------------------------------------------------------------------------
// Where a pin is looked for
// ---------------------------------------------------------------------------

proof fn lemma_pinned_variant(nodes: Nodes, feature: Seq<char>, name: Seq<char>)
    ensures
        pinned_variant(nodes, feature, name) matches Some(n) ==> user_entry(
            nodes,
            feature,
            TableKind::Conda,
            n,
        ) && (n == name || n == name + "-gpu"@ || n == name + "-cpu"@),
        user_entry(nodes, feature, TableKind::Conda, name) ==> pinned_variant(nodes, feature, name)
            == Some(name),
{
}

proof fn lemma_pinned_candidate(
    nodes: Nodes,
    feature: Seq<char>,
    candidates: Seq<Seq<char>>,
    from: int,
)
    requires
        0 <= from,
    ensures
        pinned_candidate(nodes, feature, candidates, from) matches Some(n) ==> user_entry(
            nodes,
            feature,
            TableKind::Conda,
            n,
        ),
        from < candidates.len() && user_entry(
            nodes,
            feature,
            TableKind::Conda,
            candidates[from],
        ) ==> pinned_candidate(nodes, feature, candidates, from) == Some(candidates[from]),
    decreases candidates.len() - from,
{
    if from < candidates.len() {
        lemma_pinned_variant(nodes, feature, candidates[from]);
        lemma_pinned_candidate(nodes, feature, candidates, from + 1);
    }
}

proof fn lemma_pin_owner_from(
    features: Seq<Seq<char>>,
    own: Seq<char>,
    names: Seq<(Seq<char>, Seq<Seq<char>>)>,
    nodes: Nodes,
    package: Seq<char>,
    from: int,
)
    requires
        0 <= from,
    ensures
        pin_owner_from(features, own, names, nodes, package, from) matches Some((f, n))
            ==> features.contains(f) && user_entry(nodes, f, TableKind::Conda, n),
    decreases features.len() - from,
{
    if from < features.len() {
        lemma_pin_owner_from(features, own, names, nodes, package, from + 1);
        let f = features[from];
        assert(features.contains(f));
        lemma_pinned_variant(nodes, f, package);
        if let Some(candidates) = lookup(names, canonical_name(package)) {
            lemma_pinned_candidate(nodes, f, candidates, 0);
        }
    }
}

/// A blocking conda pin is looked for in the feature that is repaired before any other,
/// under the conda names of the wheel before its own; what is found is an entry of the
/// user's.
pub proof fn law_pin_is_looked_for_in_order(
    features: Seq<Seq<char>>,
    own: Seq<char>,
    names: Seq<(Seq<char>, Seq<Seq<char>>)>,
    nodes: Nodes,
    package: Seq<char>,
    at: int,
)
    ensures
        pin_owner(features, own, names, nodes, package) matches Some((f, n)) ==> (f == own
            || features.contains(f)) && user_entry(nodes, f, TableKind::Conda, n),
        is_first_with(names, canonical_name(package), at) && names[at].1.len() > 0 && user_entry(
            nodes,
            own,
            TableKind::Conda,
            names[at].1[0],
        ) ==> pin_owner(features, own, names, nodes, package) == Some((own, names[at].1[0])),
        lacks(names, canonical_name(package)) && user_entry(nodes, own, TableKind::Conda, package)
            ==> pin_owner(features, own, names, nodes, package) == Some((own, package)),
{
    lemma_pinned_variant(nodes, own, package);
    lemma_pin_owner_from(features, own, names, nodes, package, 0);
    lemma_lookup_found(names, canonical_name(package));
    if let Some(candidates) = lookup(names, canonical_name(package)) {
        lemma_pinned_candidate(nodes, own, candidates, 0);
    }
    if is_first_with(names, canonical_name(package), at) {
        law_first_pair_counts(names, canonical_name(package), at);
        lemma_pinned_candidate(nodes, own, names[at].1, 0);
    }
}

} // verus!
