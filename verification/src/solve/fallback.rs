//! Repairs for failures of no known shape: every package that a message mentions
//! is traced to who owns its pin, and what the owner allows is tried in order.
use crate::solve::ladder::{begin, begun, tried_too, was_tried, LadderView};
use crate::solve::ledger::{
    strategy_name, AppliedEdit, AttemptView, EditView, LedgerAttempt, Strategy, TriedState,
};
use crate::solve::manifest::ManifestEditor;
use crate::solve::ownership::{
    chain_end, family_exact_pin_governs, family_pin_governs, is_composed, owner_of, pin_governs,
    pin_value, AnchorView, ChainAnchor, MAX_CHAIN_HOPS, Ownership, SceneView,
};
use crate::solve::parse::{bundle_name, generic_mentions, Mention, MentionView, RegexConflictParser};
use crate::solve::ranges::{
    bare_floor, cap_clause, disjoint, emitted_floor, extract_cap_clause, first_clause, floor_alone,
    intersect_range_with_cap, intersected, is_exclusion_sentinel_version, is_sentinel,
    leading_clause, pack_emitted_pin_floor, pack_pin_interval, pack_pin_intervals_disjoint,
    pep440_range, pin_interval, translate_conda_range_to_pep440,
};
use crate::solve::repair::{
    is_abi_anchor, is_anchor, OutcomeView, PackOverrideKind, PackOverrideWrite, RepairOutcome,
    RepairPlanner, WriteView,
};
use crate::solve::workspace::{known_dir, ledgered, pack_manifest, Facts};
use crate::text::{
    clone_option, eq_ignore_ascii_case, lower, lowered, push_view, same_name, starts_with, text_eq,
    trim_start, trimmed_start,
};
use vstd::prelude::*;

verus! {

broadcast use vstd::seq_lib::group_seq_properties;

// ---------------------------------------------------------------------------
// Candidates
// ---------------------------------------------------------------------------

/// One repair that could be made. The tiers are tried in ascending order:
///
/// 1. A pack's own pin gives way to the range that the workspace has for the
///    package.
/// 2. An override that is already recorded is narrowed by a cap.
/// 3. An exact pin of upstream requirements is relaxed to a floor.
/// 5. Two pins of one pack contradict each other: the package that requires the
///    other stays a wheel.
/// 6. A pack's own pin needs an anchor that is not to be had: the package stays a
///    wheel.
/// 7. Two packs of the workspace pin the same package: the pin of the one that
///    fails becomes a floor.
/// 8. The same, where the pins have no version in common: the package stays a
///    wheel in both.
/// 9. A pack's own pin leads to a library in a version that a pin of the user's
///    own excludes: the pack's package stays a wheel.
#[derive(Debug)]
pub struct FallbackCandidate {
    pub tier: u8,
    pub package: String,
    pub pack_name: String,
    pub kind: PackOverrideKind,
    pub old_spec: Option<String>,
    pub new_spec: String,
    pub ownership: Ownership,
    pub tried_key: String,
    pub reason: String,
}

/// What a `FallbackCandidate` says.
#[verifier::ext_equal]
pub struct CandidateView {
    pub tier: u8,
    pub package: Seq<char>,
    pub pack_name: Seq<char>,
    pub kind: PackOverrideKind,
    pub old_spec: Option<Seq<char>>,
    pub new_spec: Seq<char>,
    pub ownership: Ownership,
    pub tried_key: Seq<char>,
    pub reason: Seq<char>,
}

impl DeepView for FallbackCandidate {
    type V = CandidateView;

    open spec fn deep_view(&self) -> CandidateView {
        CandidateView {
            tier: self.tier,
            package: self.package@,
            pack_name: self.pack_name@,
            kind: self.kind,
            old_spec: self.old_spec.deep_view(),
            new_spec: self.new_spec@,
            ownership: self.ownership,
            tried_key: self.tried_key@,
            reason: self.reason@,
        }
    }
}

impl Clone for FallbackCandidate {
    fn clone(&self) -> (r: Self)
        ensures
            r.deep_view() == self.deep_view(),
    {
        FallbackCandidate {
            tier: self.tier,
            package: self.package.clone(),
            pack_name: self.pack_name.clone(),
            kind: self.kind,
            old_spec: clone_option(&self.old_spec),
            new_spec: self.new_spec.clone(),
            ownership: self.ownership,
            tried_key: self.tried_key.clone(),
            reason: self.reason.clone(),
        }
    }
}

/// An override of a package in a pack. The mark tells the tiers apart in the key
/// under which it counts as tried.
pub open spec fn overriding(
    tier: u8,
    package: Seq<char>,
    pack: Seq<char>,
    old_spec: Seq<char>,
    new_spec: Seq<char>,
    ownership: Ownership,
    mark: Seq<char>,
    reason: Seq<char>,
) -> CandidateView {
    CandidateView {
        tier,
        package,
        pack_name: pack,
        kind: PackOverrideKind::Override,
        old_spec: Some(old_spec),
        new_spec,
        ownership,
        tried_key: package + "@"@ + pack + mark,
        reason,
    }
}

/// A package of a pack that is to stay a wheel.
pub open spec fn unrouting(
    tier: u8,
    package: Seq<char>,
    pack: Seq<char>,
    old_spec: Seq<char>,
    mark: Seq<char>,
    reason: Seq<char>,
) -> CandidateView {
    CandidateView {
        kind: PackOverrideKind::Unroute,
        ..overriding(
            tier,
            package,
            pack,
            old_spec,
            ""@,
            Ownership::AutoRoutedPackPin,
            mark,
            reason,
        )
    }
}

fn candidate(
    tier: u8,
    package: &str,
    pack: &str,
    old_spec: &str,
    new_spec: String,
    ownership: Ownership,
    mark: &str,
    reason: String,
) -> (r: FallbackCandidate)
    ensures
        r.deep_view() == overriding(
            tier,
            package@,
            pack@,
            old_spec@,
            new_spec@,
            ownership,
            mark@,
            reason@,
        ),
{
    let mut key: String = package.to_owned();
    key.append("@");
    key.append(pack);
    key.append(mark);
    FallbackCandidate {
        tier,
        package: package.to_owned(),
        pack_name: pack.to_owned(),
        kind: PackOverrideKind::Override,
        old_spec: Some(old_spec.to_owned()),
        new_spec,
        ownership,
        tried_key: key,
        reason,
    }
}

fn unroute_candidate(
    tier: u8,
    package: &str,
    pack: &str,
    old_spec: &str,
    mark: &str,
    reason: String,
) -> (r: FallbackCandidate)
    ensures
        r.deep_view() == unrouting(tier, package@, pack@, old_spec@, mark@, reason@),
{
    let c = candidate(
        tier,
        package,
        pack,
        old_spec,
        "".to_owned(),
        Ownership::AutoRoutedPackPin,
        mark,
        reason,
    );
    FallbackCandidate {
        tier: c.tier,
        package: c.package,
        pack_name: c.pack_name,
        kind: PackOverrideKind::Unroute,
        old_spec: c.old_spec,
        new_spec: c.new_spec,
        ownership: c.ownership,
        tried_key: c.tried_key,
        reason: c.reason,
    }
}

// -- tiers 1 to 3 -----------------------------------------------------------

/// The pack that a mention's pin belongs to: the one that requires it, where the
/// workspace composes that, or else `bundle`.
pub open spec fn mention_pack(sc: SceneView, bundle: Seq<char>, m: MentionView) -> Seq<char> {
    match m.requirer {
        Some(r) => if is_composed(sc, r) {
            r
        } else {
            bundle
        },
        None => bundle,
    }
}

/// The caps that a message states for the package of a mention: the mention's own
/// first, then those of the package's other mentions.
pub open spec fn visible_caps(mentions: Seq<MentionView>, m: MentionView) -> Seq<
    (Seq<char>, Seq<char>),
> {
    let own = match cap_clause(m.spec) {
        Some(c) => seq![c],
        None => Seq::empty(),
    };
    own + mentions.filter_map(
        |o: MentionView|
            if same_name(o.package, m.package) && o.spec != m.spec {
                cap_clause(o.spec)
            } else {
                None
            },
    )
}

/// What a spec becomes under a cap, where that changes it.
pub open spec fn narrowing(existing: Seq<char>, cap: (Seq<char>, Seq<char>)) -> Option<Seq<char>> {
    if is_sentinel(cap.1) {
        None
    } else {
        match intersected(existing, cap.0, cap.1) {
            Ok(narrowed) => if narrowed == existing {
                None
            } else {
                Some(narrowed)
            },
            Err(_) => None,
        }
    }
}

/// The first of the caps from `from` on that changes a spec, and what it makes of
/// it.
pub open spec fn first_narrowing(
    existing: Seq<char>,
    caps: Seq<(Seq<char>, Seq<char>)>,
    from: int,
) -> Option<((Seq<char>, Seq<char>), Seq<char>)>
    decreases caps.len() - from,
{
    if from < 0 || from >= caps.len() {
        None
    } else {
        match narrowing(existing, caps[from]) {
            Some(narrowed) => Some((caps[from], narrowed)),
            None => first_narrowing(existing, caps, from + 1),
        }
    }
}

/// Whether another mention of the package states a pin as packs emit them.
pub open spec fn has_pinned_sibling(mentions: Seq<MentionView>, m: MentionView) -> bool {
    exists|i: int|
        0 <= i < mentions.len() && same_name((#[trigger] mentions[i]).package, m.package)
            && mentions[i].spec != m.spec && pin_interval(mentions[i].spec) is Some
}

/// The floor of a mention's spec below which an override may step down.
pub open spec fn failing_floor(mentions: Seq<MentionView>, m: MentionView) -> Option<Seq<char>> {
    if !">="@.is_prefix_of(trimmed_start(m.spec)) {
        None
    } else {
        match emitted_floor(m.spec) {
            Some(floor) => Some(floor),
            None => if has_pinned_sibling(mentions, m) {
                None
            } else {
                floor_alone(m.spec)
            },
        }
    }
}

/// The narrower override of a package that has one: by the first cap that
/// narrows it, or else by a step below the floor that failed.
pub open spec fn narrowed_candidate(
    mentions: Seq<MentionView>,
    m: MentionView,
    owner: Seq<char>,
    existing: Seq<char>,
) -> Option<CandidateView> {
    match first_narrowing(existing, visible_caps(mentions, m), 0) {
        Some((cap, narrowed)) => Some(
            overriding(
                2,
                m.package,
                owner,
                existing,
                narrowed,
                Ownership::LedgeredOverride,
                "#fallback-narrow"@,
                "generic fallback: nested cap "@ + cap.0 + cap.1
                    + " narrows existing pack override for "@ + m.package,
            ),
        ),
        None => match failing_floor(mentions, m) {
            None => None,
            Some(floor) => match intersected(existing, "<"@, floor) {
                Err(_) => None,
                Ok(narrowed) => if narrowed == existing {
                    None
                } else {
                    Some(
                        overriding(
                            2,
                            m.package,
                            owner,
                            existing,
                            narrowed,
                            Ownership::LedgeredOverride,
                            "#fallback-narrow@<"@ + floor,
                            "generic fallback: ceiling stepped below "@ + m.package
                                + "'s failing emitted floor "@ + floor
                                + " (uv's top-of-range pick dead-ends in conda)"@,
                        ),
                    )
                },
            },
        },
    }
}

/// What the owner of a mentioned pin allows.
pub open spec fn owned_candidate(
    sc: SceneView,
    bundle: Seq<char>,
    mentions: Seq<MentionView>,
    m: MentionView,
) -> Option<CandidateView> {
    let owner = mention_pack(sc, bundle, m);
    match known_dir(sc.facts, sc.dir, owner) {
        None => None,
        Some(d) => match owner_of(sc, Some(owner), m.package) {
            Ownership::AutoRoutedPackPin => match pin_value(sc, owner, m.package) {
                None => None,
                Some(range) => Some(
                    overriding(
                        1,
                        m.package,
                        owner,
                        m.spec,
                        pep440_range(range),
                        Ownership::AutoRoutedPackPin,
                        "#fallback-range"@,
                        "generic fallback: workspace range "@ + range + " for "@ + m.package
                            + " overridden into pack `"@ + owner + "`"@,
                    ),
                ),
            },
            Ownership::LedgeredOverride => match ledgered(sc.facts, d, m.package) {
                None => None,
                Some(existing) => if family_exact_pin_governs(sc, owner, m.package) {
                    None
                } else {
                    narrowed_candidate(mentions, m, owner, existing)
                },
            },
            Ownership::DepsFromExactPin => if family_exact_pin_governs(sc, owner, m.package) {
                None
            } else {
                match first_clause(m.spec) {
                    None => None,
                    Some((_, version)) => Some(
                        overriding(
                            3,
                            m.package,
                            owner,
                            m.spec,
                            ">="@ + version,
                            Ownership::DepsFromExactPin,
                            "#fallback-relax"@,
                            "generic fallback: deps-from exact pin "@ + m.package + " relaxed"@,
                        ),
                    ),
                }
            },
            _ => None,
        },
    }
}

fn caps_of(mentions: &Vec<Mention>, m: &Mention) -> (r: Vec<(String, String)>)
    ensures
        r.deep_view() == visible_caps(mentions.deep_view(), m.deep_view()),
{
    let ghost all = mentions.deep_view();
    let ghost mv = m.deep_view();
    let ghost f = |o: MentionView|
        if same_name(o.package, mv.package) && o.spec != mv.spec {
            cap_clause(o.spec)
        } else {
            None
        };
    let mut out: Vec<(String, String)> = Vec::new();
    assert(out.deep_view() =~= Seq::<(Seq<char>, Seq<char>)>::empty());
    match extract_cap_clause(&m.spec) {
        Some(c) => {
            let ghost view = c.deep_view();
            push_view(&mut out, c);
            assert(out.deep_view() =~= seq![view]);
        },
        None => {},
    }
    let ghost own = out.deep_view();
    let n: usize = mentions.len();
    let mut i: usize = 0;
    assert(all.take(0).filter_map(f) =~= Seq::<(Seq<char>, Seq<char>)>::empty());
    assert(out.deep_view() =~= own + all.take(0).filter_map(f));
    while i < n
        invariant
            i <= n,
            n == mentions@.len(),
            all == mentions.deep_view(),
            mv == m.deep_view(),
            f == (|o: MentionView|
                if same_name(o.package, mv.package) && o.spec != mv.spec {
                    cap_clause(o.spec)
                } else {
                    None
                }),
            out.deep_view() == own + all.take(i as int).filter_map(f),
        decreases n - i,
    {
        let o = &mentions[i];
        assert(all[i as int] == o.deep_view());
        proof {
            all.lemma_filter_map_take_succ(f, i as int);
        }
        if eq_ignore_ascii_case(&o.package, &m.package) && !text_eq(&o.spec, &m.spec) {
            match extract_cap_clause(&o.spec) {
                Some(c) => {
                    push_view(&mut out, c);
                },
                None => {},
            }
        }
        assert(out.deep_view() =~= own + all.take(i + 1).filter_map(f));
        i = i + 1;
    }
    assert(all.take(n as int) =~= all);
    out
}

fn narrow(existing: &str, cap: &(String, String)) -> (r: Option<String>)
    ensures
        r.deep_view() == narrowing(existing@, cap.deep_view()),
{
    if is_exclusion_sentinel_version(&cap.1) {
        return None;
    }
    match intersect_range_with_cap(existing, &cap.0, &cap.1) {
        Ok(narrowed) => if text_eq(&narrowed, existing) {
            None
        } else {
            Some(narrowed)
        },
        Err(_) => None,
    }
}

fn pinned_sibling(mentions: &Vec<Mention>, m: &Mention) -> (r: bool)
    ensures
        r == has_pinned_sibling(mentions.deep_view(), m.deep_view()),
{
    let ghost all = mentions.deep_view();
    let n: usize = mentions.len();
    let mut i: usize = 0;
    while i < n
        invariant
            i <= n,
            n == mentions@.len(),
            all == mentions.deep_view(),
            forall|k: int|
                0 <= k < i ==> !(same_name((#[trigger] all[k]).package, m.package@) && all[k].spec
                    != m.spec@ && pin_interval(all[k].spec) is Some),
        decreases n - i,
    {
        let o = &mentions[i];
        assert(all[i as int] == o.deep_view());
        if eq_ignore_ascii_case(&o.package, &m.package) && !text_eq(&o.spec, &m.spec)
            && pack_pin_interval(&o.spec).is_some() {
            return true;
        }
        i = i + 1;
    }
    false
}

fn floor_that_failed(mentions: &Vec<Mention>, m: &Mention) -> (r: Option<String>)
    ensures
        r.deep_view() == failing_floor(mentions.deep_view(), m.deep_view()),
{
    if !starts_with(&trim_start(&m.spec), ">=") {
        return None;
    }
    let emitted = pack_emitted_pin_floor(&m.spec);
    if emitted.is_some() {
        return emitted;
    }
    if pinned_sibling(mentions, m) {
        return None;
    }
    bare_floor(&m.spec)
}

fn narrowed(mentions: &Vec<Mention>, m: &Mention, owner: &str, existing: &str) -> (r: Option<
    FallbackCandidate,
>)
    ensures
        r.deep_view() == narrowed_candidate(
            mentions.deep_view(),
            m.deep_view(),
            owner@,
            existing@,
        ),
{
    let caps = caps_of(mentions, m);
    let ghost all = caps.deep_view();
    let n: usize = caps.len();
    let mut i: usize = 0;
    while i < n
        invariant
            i <= n,
            n == caps@.len(),
            all == caps.deep_view(),
            all == visible_caps(mentions.deep_view(), m.deep_view()),
            first_narrowing(existing@, all, 0) == first_narrowing(existing@, all, i as int),
        decreases n - i,
    {
        assert(all[i as int] == caps@[i as int].deep_view());
        match narrow(existing, &caps[i]) {
            Some(spec) => {
                let mut reason: String = "generic fallback: nested cap ".to_owned();
                reason.append(&caps[i].0);
                reason.append(&caps[i].1);
                reason.append(" narrows existing pack override for ");
                reason.append(&m.package);
                return Some(
                    candidate(
                        2,
                        &m.package,
                        owner,
                        existing,
                        spec,
                        Ownership::LedgeredOverride,
                        "#fallback-narrow",
                        reason,
                    ),
                );
            },
            None => {},
        }
        i = i + 1;
    }
    match floor_that_failed(mentions, m) {
        None => None,
        Some(floor) => match intersect_range_with_cap(existing, "<", &floor) {
            Err(_) => None,
            Ok(spec) => {
                if text_eq(&spec, existing) {
                    return None;
                }
                let mark: String = "#fallback-narrow@<".to_owned().concat(&floor);
                let mut reason: String = "generic fallback: ceiling stepped below ".to_owned();
                reason.append(&m.package);
                reason.append("'s failing emitted floor ");
                reason.append(&floor);
                reason.append(" (uv's top-of-range pick dead-ends in conda)");
                Some(
                    candidate(
                        2,
                        &m.package,
                        owner,
                        existing,
                        spec,
                        Ownership::LedgeredOverride,
                        &mark,
                        reason,
                    ),
                )
            },
        },
    }
}

impl RepairPlanner {
    fn pack_of_mention<'a>(
        &self,
        editor: &ManifestEditor,
        facts: &Facts,
        bundle: &'a str,
        m: &'a Mention,
    ) -> (r: &'a str)
        ensures
            r@ == mention_pack(self.scene(*editor, *facts), bundle@, m.deep_view()),
    {
        match &m.requirer {
            Some(r) => if self.is_owned_pack(editor, facts, r) {
                r.as_str()
            } else {
                bundle
            },
            None => bundle,
        }
    }

    fn owned(
        &self,
        editor: &ManifestEditor,
        facts: &Facts,
        bundle: &str,
        mentions: &Vec<Mention>,
        m: &Mention,
    ) -> (r: Option<FallbackCandidate>)
        ensures
            r.deep_view() == owned_candidate(
                self.scene(*editor, *facts),
                bundle@,
                mentions.deep_view(),
                m.deep_view(),
            ),
    {
        let owner = self.pack_of_mention(editor, facts, bundle, m);
        let dir = match facts.dir_of(editor.project_dir(), owner) {
            Some(d) => d,
            None => {
                return None;
            },
        };
        match self.classify_mention_ownership(editor, facts, Some(owner), &m.package) {
            Ownership::AutoRoutedPackPin => match self.workspace_conda_pin(
                editor,
                facts,
                owner,
                &m.package,
            ) {
                None => None,
                Some(range) => {
                    let mut reason: String = "generic fallback: workspace range ".to_owned();
                    reason.append(&range);
                    reason.append(" for ");
                    reason.append(&m.package);
                    reason.append(" overridden into pack `");
                    reason.append(owner);
                    reason.append("`");
                    Some(
                        candidate(
                            1,
                            &m.package,
                            owner,
                            &m.spec,
                            translate_conda_range_to_pep440(&range),
                            Ownership::AutoRoutedPackPin,
                            "#fallback-range",
                            reason,
                        ),
                    )
                },
            },
            Ownership::LedgeredOverride => match facts.override_of(&dir, &m.package) {
                None => None,
                Some(existing) => if self.workspace_exact_pin_governs_pack_family(
                    editor,
                    facts,
                    owner,
                    &m.package,
                ) {
                    None
                } else {
                    narrowed(mentions, m, owner, &existing)
                },
            },
            Ownership::DepsFromExactPin => {
                if self.workspace_exact_pin_governs_pack_family(editor, facts, owner, &m.package) {
                    return None;
                }
                match leading_clause(&m.spec) {
                    None => None,
                    Some((_, version)) => {
                        let mut reason: String = "generic fallback: deps-from exact pin ".to_owned();
                        reason.append(&m.package);
                        reason.append(" relaxed");
                        Some(
                            candidate(
                                3,
                                &m.package,
                                owner,
                                &m.spec,
                                ">=".to_owned().concat(&version),
                                Ownership::DepsFromExactPin,
                                "#fallback-relax",
                                reason,
                            ),
                        )
                    },
                }
            },
            _ => None,
        }
    }
}

// -- tiers 5 and 6 ----------------------------------------------------------

/// The first mention from `from` on of a package of this name with a pin as packs
/// emit them.
pub open spec fn emitted_from(mentions: Seq<MentionView>, name: Seq<char>, from: int) -> Option<
    MentionView,
>
    decreases mentions.len() - from,
{
    if from < 0 || from >= mentions.len() {
        None
    } else if same_name(mentions[from].package, name) && emitted_floor(mentions[from].spec)
        is Some {
        Some(mentions[from])
    } else {
        emitted_from(mentions, name, from + 1)
    }
}

/// Whether a mention is required by the pack, or by nobody that is named.
pub open spec fn required_by(m: MentionView, pack: Seq<char>) -> bool {
    match m.requirer {
        Some(r) => same_name(r, pack),
        None => true,
    }
}

/// The first mention from `from` on of a package of this name with a pin as packs
/// emit them that is the pack's own.
pub open spec fn own_emitted_from(
    mentions: Seq<MentionView>,
    name: Seq<char>,
    pack: Seq<char>,
    from: int,
) -> Option<MentionView>
    decreases mentions.len() - from,
{
    if from < 0 || from >= mentions.len() {
        None
    } else if same_name(mentions[from].package, name) && emitted_floor(mentions[from].spec) is Some
        && required_by(mentions[from], pack) {
        Some(mentions[from])
    } else {
        own_emitted_from(mentions, name, pack, from + 1)
    }
}

/// Whether a mention is required by another pack of the workspace.
pub open spec fn required_by_sibling(sc: SceneView, m: MentionView, pack: Seq<char>) -> bool {
    match m.requirer {
        Some(r) => !same_name(r, pack) && is_composed(sc, r),
        None => false,
    }
}

/// The first mention from `from` on of a package of this name that another pack of
/// the workspace requires.
pub open spec fn sibling_from(
    sc: SceneView,
    mentions: Seq<MentionView>,
    name: Seq<char>,
    pack: Seq<char>,
    from: int,
) -> Option<MentionView>
    decreases mentions.len() - from,
{
    if from < 0 || from >= mentions.len() {
        None
    } else if same_name(mentions[from].package, name) && required_by_sibling(
        sc,
        mentions[from],
        pack,
    ) {
        Some(mentions[from])
    } else {
        sibling_from(sc, mentions, name, pack, from + 1)
    }
}

/// The package that requires what contradicts its pack: it stays a wheel.
pub open spec fn skew_candidate(
    sc: SceneView,
    bundle: Seq<char>,
    mentions: Seq<MentionView>,
    m: MentionView,
) -> Option<CandidateView> {
    match m.requirer {
        None => None,
        Some(requirer) => if is_anchor(m.package) || pin_governs(sc, bundle, m.package) {
            None
        } else {
            match emitted_from(mentions, requirer, 0) {
                None => None,
                Some(req) => if pin_governs(sc, bundle, req.package) || owner_of(
                    sc,
                    Some(bundle),
                    req.package,
                ) != Ownership::AutoRoutedPackPin {
                    None
                } else {
                    Some(
                        unrouting(
                            5,
                            req.package,
                            bundle,
                            req.spec,
                            "#fallback-unroute"@,
                            "generic fallback: metadata skew ("@ + m.package + " "@ + m.spec
                                + " contradicts "@ + req.package
                                + "'s own emitted pin) -- un-routing "@ + req.package,
                        ),
                    )
                },
            }
        },
    }
}

/// The pack's package that needs an anchor which is not to be had: it stays a
/// wheel.
pub open spec fn anchor_candidate(
    sc: SceneView,
    bundle: Seq<char>,
    mentions: Seq<MentionView>,
    m: MentionView,
) -> Option<CandidateView> {
    match m.requirer {
        None => None,
        Some(requirer) => if !is_anchor(m.package) || pin_governs(sc, bundle, requirer) {
            None
        } else {
            match own_emitted_from(mentions, requirer, bundle, 0) {
                None => None,
                Some(req) => if sibling_from(sc, mentions, req.package, bundle, 0) is Some
                    || owner_of(sc, Some(bundle), req.package) != Ownership::AutoRoutedPackPin {
                    None
                } else {
                    Some(
                        unrouting(
                            6,
                            req.package,
                            bundle,
                            req.spec,
                            "#fallback-abi-unroute"@,
                            "generic fallback: auto-routed pin "@ + req.package + " "@ + req.spec
                                + " requires ABI anchor "@ + m.package + " "@ + m.spec
                                + " the env can't satisfy -- un-routing "@ + req.package
                                + " to PyPI"@,
                        ),
                    )
                },
            }
        },
    }
}

fn find_emitted<'a>(mentions: &'a Vec<Mention>, name: &str) -> (r: Option<&'a Mention>)
    ensures
        r.deep_view() == emitted_from(mentions.deep_view(), name@, 0),
{
    let ghost all = mentions.deep_view();
    let n: usize = mentions.len();
    let mut i: usize = 0;
    while i < n
        invariant
            i <= n,
            n == mentions@.len(),
            all == mentions.deep_view(),
            emitted_from(all, name@, 0) == emitted_from(all, name@, i as int),
        decreases n - i,
    {
        assert(all[i as int] == mentions@[i as int].deep_view());
        if eq_ignore_ascii_case(&mentions[i].package, name) && pack_emitted_pin_floor(
            &mentions[i].spec,
        ).is_some() {
            return Some(&mentions[i]);
        }
        i = i + 1;
    }
    None
}

fn find_own_emitted<'a>(mentions: &'a Vec<Mention>, name: &str, pack: &str) -> (r: Option<
    &'a Mention,
>)
    ensures
        r.deep_view() == own_emitted_from(mentions.deep_view(), name@, pack@, 0),
{
    let ghost all = mentions.deep_view();
    let n: usize = mentions.len();
    let mut i: usize = 0;
    while i < n
        invariant
            i <= n,
            n == mentions@.len(),
            all == mentions.deep_view(),
            own_emitted_from(all, name@, pack@, 0) == own_emitted_from(
                all,
                name@,
                pack@,
                i as int,
            ),
        decreases n - i,
    {
        assert(all[i as int] == mentions@[i as int].deep_view());
        let own: bool = match &mentions[i].requirer {
            Some(r) => eq_ignore_ascii_case(r, pack),
            None => true,
        };
        if own && eq_ignore_ascii_case(&mentions[i].package, name) && pack_emitted_pin_floor(
            &mentions[i].spec,
        ).is_some() {
            return Some(&mentions[i]);
        }
        i = i + 1;
    }
    None
}

impl RepairPlanner {
    fn find_sibling<'a>(
        &self,
        editor: &ManifestEditor,
        facts: &Facts,
        mentions: &'a Vec<Mention>,
        name: &str,
        pack: &str,
    ) -> (r: Option<&'a Mention>)
        ensures
            r.deep_view() == sibling_from(
                self.scene(*editor, *facts),
                mentions.deep_view(),
                name@,
                pack@,
                0,
            ),
            r matches Some(m) ==> m.requirer is Some,
    {
        let ghost sc = self.scene(*editor, *facts);
        let ghost all = mentions.deep_view();
        let n: usize = mentions.len();
        let mut i: usize = 0;
        while i < n
            invariant
                i <= n,
                n == mentions@.len(),
                all == mentions.deep_view(),
                sc == self.scene(*editor, *facts),
                sibling_from(sc, all, name@, pack@, 0) == sibling_from(
                    sc,
                    all,
                    name@,
                    pack@,
                    i as int,
                ),
            decreases n - i,
        {
            assert(all[i as int] == mentions@[i as int].deep_view());
            let apart: bool = match &mentions[i].requirer {
                Some(r) => !eq_ignore_ascii_case(r, pack) && self.is_owned_pack(editor, facts, r),
                None => false,
            };
            if apart && eq_ignore_ascii_case(&mentions[i].package, name) {
                return Some(&mentions[i]);
            }
            i = i + 1;
        }
        None
    }

    fn skewed(
        &self,
        editor: &ManifestEditor,
        facts: &Facts,
        bundle: &str,
        mentions: &Vec<Mention>,
        m: &Mention,
    ) -> (r: Option<FallbackCandidate>)
        ensures
            r.deep_view() == skew_candidate(
                self.scene(*editor, *facts),
                bundle@,
                mentions.deep_view(),
                m.deep_view(),
            ),
    {
        let requirer = match &m.requirer {
            Some(r) => r,
            None => {
                return None;
            },
        };
        if is_abi_anchor(&m.package) || self.workspace_pin_governs_pack(
            editor,
            facts,
            bundle,
            &m.package,
        ) {
            return None;
        }
        let req = match find_emitted(mentions, requirer) {
            Some(req) => req,
            None => {
                return None;
            },
        };
        if self.workspace_pin_governs_pack(editor, facts, bundle, &req.package) {
            return None;
        }
        match self.classify_mention_ownership(editor, facts, Some(bundle), &req.package) {
            Ownership::AutoRoutedPackPin => {},
            _ => {
                return None;
            },
        }
        let mut reason: String = "generic fallback: metadata skew (".to_owned();
        reason.append(&m.package);
        reason.append(" ");
        reason.append(&m.spec);
        reason.append(" contradicts ");
        reason.append(&req.package);
        reason.append("'s own emitted pin) -- un-routing ");
        reason.append(&req.package);
        Some(
            unroute_candidate(5, &req.package, bundle, &req.spec, "#fallback-unroute", reason),
        )
    }

    fn anchored(
        &self,
        editor: &ManifestEditor,
        facts: &Facts,
        bundle: &str,
        mentions: &Vec<Mention>,
        m: &Mention,
    ) -> (r: Option<FallbackCandidate>)
        ensures
            r.deep_view() == anchor_candidate(
                self.scene(*editor, *facts),
                bundle@,
                mentions.deep_view(),
                m.deep_view(),
            ),
    {
        let requirer = match &m.requirer {
            Some(r) => r,
            None => {
                return None;
            },
        };
        if !is_abi_anchor(&m.package) || self.workspace_pin_governs_pack(
            editor,
            facts,
            bundle,
            requirer,
        ) {
            return None;
        }
        let req = match find_own_emitted(mentions, requirer, bundle) {
            Some(req) => req,
            None => {
                return None;
            },
        };
        if self.find_sibling(editor, facts, mentions, &req.package, bundle).is_some() {
            return None;
        }
        match self.classify_mention_ownership(editor, facts, Some(bundle), &req.package) {
            Ownership::AutoRoutedPackPin => {},
            _ => {
                return None;
            },
        }
        let mut reason: String = "generic fallback: auto-routed pin ".to_owned();
        reason.append(&req.package);
        reason.append(" ");
        reason.append(&req.spec);
        reason.append(" requires ABI anchor ");
        reason.append(&m.package);
        reason.append(" ");
        reason.append(&m.spec);
        reason.append(" the env can't satisfy -- un-routing ");
        reason.append(&req.package);
        reason.append(" to PyPI");
        Some(
            unroute_candidate(6, &req.package, bundle, &req.spec, "#fallback-abi-unroute", reason),
        )
    }
}

// -- tiers 7 and 8 ----------------------------------------------------------

/// Whether two specs are pins as packs emit them with no version in common.
pub open spec fn apart(a: Seq<char>, b: Seq<char>) -> bool {
    match (pin_interval(a), pin_interval(b)) {
        (Some(x), Some(y)) => disjoint(x, y),
        _ => false,
    }
}

/// A package that is to stay a wheel in one of two packs whose pins of it have no
/// version in common.
pub open spec fn disjoint_candidate(
    package: Seq<char>,
    pack: Seq<char>,
    spec: Seq<char>,
    one: Seq<char>,
    other: Seq<char>,
) -> CandidateView {
    unrouting(
        8,
        package,
        pack,
        spec,
        "#fallback-disjoint-unroute"@,
        "generic fallback: two-pack DISJOINT ranges for "@ + package + " ("@ + one + " vs "@ + other
            + ") -- no version satisfies both; un-routing from `"@ + pack
            + "` so each pack ships its own locked wheel"@,
    )
}

/// What is done about a pin of the failing pack that another pack of the workspace
/// pins too.
pub open spec fn clash_candidates(
    sc: SceneView,
    bundle: Seq<char>,
    mentions: Seq<MentionView>,
    m: MentionView,
) -> Seq<CandidateView> {
    let own = m.requirer matches Some(r) && same_name(r, bundle);
    match (emitted_floor(m.spec), sibling_from(sc, mentions, m.package, bundle, 0)) {
        (Some(version), Some(sibling)) => if !own || is_anchor(m.package) || pin_governs(
            sc,
            bundle,
            m.package,
        ) {
            Seq::empty()
        } else if apart(m.spec, sibling.spec) {
            seq![
                disjoint_candidate(m.package, bundle, m.spec, m.spec, sibling.spec),
                disjoint_candidate(
                    m.package,
                    sibling.requirer->0,
                    sibling.spec,
                    m.spec,
                    sibling.spec,
                ),
            ]
        } else {
            seq![
                overriding(
                    7,
                    m.package,
                    bundle,
                    m.spec,
                    ">="@ + version,
                    Ownership::AutoRoutedPackPin,
                    "#fallback-twopack"@,
                    "generic fallback: two-pack same-package clash -- `"@ + bundle
                        + "`'s own exact pin "@ + m.spec
                        + " floored to satisfy a sibling pack's own (already-satisfiable) higher floor"@,
                ),
            ]
        },
        _ => Seq::empty(),
    }
}

fn are_apart(a: &str, b: &str) -> (r: bool)
    ensures
        r == apart(a@, b@),
{
    match (pack_pin_interval(a), pack_pin_interval(b)) {
        (Some(x), Some(y)) => pack_pin_intervals_disjoint(&x, &y),
        _ => false,
    }
}

fn disjoint_unroute(package: &str, pack: &str, spec: &str, one: &str, other: &str) -> (r:
    FallbackCandidate)
    ensures
        r.deep_view() == disjoint_candidate(package@, pack@, spec@, one@, other@),
{
    let mut reason: String = "generic fallback: two-pack DISJOINT ranges for ".to_owned();
    reason.append(package);
    reason.append(" (");
    reason.append(one);
    reason.append(" vs ");
    reason.append(other);
    reason.append(") -- no version satisfies both; un-routing from `");
    reason.append(pack);
    reason.append("` so each pack ships its own locked wheel");
    unroute_candidate(8, package, pack, spec, "#fallback-disjoint-unroute", reason)
}

impl RepairPlanner {
    fn clashing(
        &self,
        editor: &ManifestEditor,
        facts: &Facts,
        bundle: &str,
        mentions: &Vec<Mention>,
        m: &Mention,
    ) -> (r: Vec<FallbackCandidate>)
        ensures
            r.deep_view() == clash_candidates(
                self.scene(*editor, *facts),
                bundle@,
                mentions.deep_view(),
                m.deep_view(),
            ),
    {
        let mut out: Vec<FallbackCandidate> = Vec::new();
        assert(out.deep_view() =~= Seq::<CandidateView>::empty());
        let own: bool = match &m.requirer {
            Some(r) => eq_ignore_ascii_case(r, bundle),
            None => false,
        };
        if !own || is_abi_anchor(&m.package) || self.workspace_pin_governs_pack(
            editor,
            facts,
            bundle,
            &m.package,
        ) {
            return out;
        }
        let version = match pack_emitted_pin_floor(&m.spec) {
            Some(v) => v,
            None => {
                return out;
            },
        };
        let sibling = match self.find_sibling(editor, facts, mentions, &m.package, bundle) {
            Some(s) => s,
            None => {
                return out;
            },
        };
        if are_apart(&m.spec, &sibling.spec) {
            match &sibling.requirer {
                Some(other) => {
                    push_view(
                        &mut out,
                        disjoint_unroute(&m.package, bundle, &m.spec, &m.spec, &sibling.spec),
                    );
                    push_view(
                        &mut out,
                        disjoint_unroute(
                            &m.package,
                            other,
                            &sibling.spec,
                            &m.spec,
                            &sibling.spec,
                        ),
                    );
                    assert(out.deep_view() =~= clash_candidates(
                        self.scene(*editor, *facts),
                        bundle@,
                        mentions.deep_view(),
                        m.deep_view(),
                    ));
                },
                None => {},
            }
            return out;
        }
        let mut reason: String = "generic fallback: two-pack same-package clash -- `".to_owned();
        reason.append(bundle);
        reason.append("`'s own exact pin ");
        reason.append(&m.spec);
        reason.append(
            " floored to satisfy a sibling pack's own (already-satisfiable) higher floor",
        );
        push_view(
            &mut out,
            candidate(
                7,
                &m.package,
                bundle,
                &m.spec,
                ">=".to_owned().concat(&version),
                Ownership::AutoRoutedPackPin,
                "#fallback-twopack",
                reason,
            ),
        );
        assert(out.deep_view() =~= clash_candidates(
            self.scene(*editor, *facts),
            bundle@,
            mentions.deep_view(),
            m.deep_view(),
        ));
        out
    }
}

// -- tier 9 -----------------------------------------------------------------

/// Where the chain of requirers from a mention ends.
pub open spec fn anchor_at(sc: SceneView, mentions: Seq<MentionView>, at: int) -> AnchorView {
    chain_end(sc, mentions, at, Seq::empty(), MAX_CHAIN_HOPS as nat)
}

/// The pack at the end of one of two chains, and the mention that it requires,
/// where the other chain ends at a pin of the user's own.
pub open spec fn pack_against_pin(a: AnchorView, b: AnchorView) -> Option<(Seq<char>, int)> {
    match (a, b) {
        (AnchorView::Pack { pack, emitted_mention }, AnchorView::WorkspacePin) => Some(
            (pack, emitted_mention),
        ),
        (AnchorView::WorkspacePin, AnchorView::Pack { pack, emitted_mention }) => Some(
            (pack, emitted_mention),
        ),
        _ => None,
    }
}

/// The pack's package that stays a wheel because of two mentions, of one package
/// in versions that exclude each other: one that the pack's package leads to, one
/// that a pin of the user's own leads to.
pub open spec fn transitive_candidate(
    sc: SceneView,
    mentions: Seq<MentionView>,
    i: int,
    j: int,
) -> Option<CandidateView> {
    let a = mentions[i];
    let b = mentions[j];
    if !same_name(b.package, a.package) || b.spec == a.spec || !apart(a.spec, b.spec) {
        None
    } else {
        match pack_against_pin(anchor_at(sc, mentions, i), anchor_at(sc, mentions, j)) {
            None => None,
            Some((pack, at)) => {
                let target = mentions[at];
                if is_anchor(target.package) || emitted_floor(target.spec) is None
                    || family_pin_governs(sc, pack, target.package) || owner_of(
                    sc,
                    Some(pack),
                    target.package,
                ) != Ownership::AutoRoutedPackPin {
                    None
                } else {
                    Some(
                        unrouting(
                            9,
                            target.package,
                            pack,
                            target.spec,
                            "#fallback-transitive-unroute"@,
                            "generic fallback: pack `"@ + pack + "`'s emitted pin "@
                                + target.package + " "@ + target.spec + " transitively requires "@
                                + a.package + " "@ + a.spec
                                + " while a hand-written workspace pin's chain requires the disjoint "@
                                + b.package + " "@ + b.spec + " -- un-routing "@ + target.package
                                + " to PyPI"@,
                        ),
                    )
                }
            },
        }
    }
}

/// The candidates of a mention paired with those after it, up to `end`.
pub open spec fn transitive_row(sc: SceneView, mentions: Seq<MentionView>, i: int, end: int) -> Seq<
    CandidateView,
>
    decreases end - i,
{
    if end <= i + 1 {
        Seq::empty()
    } else {
        let before = transitive_row(sc, mentions, i, end - 1);
        match transitive_candidate(sc, mentions, i, end - 1) {
            Some(c) => before.push(c),
            None => before,
        }
    }
}

/// The candidates of the first `count` mentions paired with those after them.
pub open spec fn transitive_rows(sc: SceneView, mentions: Seq<MentionView>, count: int) -> Seq<
    CandidateView,
>
    decreases count,
{
    if count <= 0 {
        Seq::empty()
    } else {
        transitive_rows(sc, mentions, count - 1) + transitive_row(
            sc,
            mentions,
            count - 1,
            mentions.len() as int,
        )
    }
}

fn pack_facing_pin(a: ChainAnchor, b: ChainAnchor) -> (r: Option<(String, usize)>)
    ensures
        match r {
            Some((pack, at)) => pack_against_pin(a.deep_view(), b.deep_view()) == Some(
                (pack@, at as int),
            ) && (a.deep_view() == (AnchorView::Pack { pack: pack@, emitted_mention: at as int })
                || b.deep_view() == (AnchorView::Pack {
                pack: pack@,
                emitted_mention: at as int,
            })),
            None => pack_against_pin(a.deep_view(), b.deep_view()) is None,
        },
{
    match (a, b) {
        (ChainAnchor::Pack { pack, emitted_mention }, ChainAnchor::WorkspacePin) => Some(
            (pack, emitted_mention),
        ),
        (ChainAnchor::WorkspacePin, ChainAnchor::Pack { pack, emitted_mention }) => Some(
            (pack, emitted_mention),
        ),
        _ => None,
    }
}

impl RepairPlanner {
    fn transitive(
        &self,
        editor: &ManifestEditor,
        facts: &Facts,
        mentions: &Vec<Mention>,
        i: usize,
        j: usize,
    ) -> (r: Option<FallbackCandidate>)
        requires
            i < mentions@.len(),
            j < mentions@.len(),
        ensures
            r.deep_view() == transitive_candidate(
                self.scene(*editor, *facts),
                mentions.deep_view(),
                i as int,
                j as int,
            ),
    {
        let ghost all = mentions.deep_view();
        let a = &mentions[i];
        let b = &mentions[j];
        assert(all[i as int] == a.deep_view());
        assert(all[j as int] == b.deep_view());
        if !eq_ignore_ascii_case(&b.package, &a.package) || text_eq(&b.spec, &a.spec) || !are_apart(
            &a.spec,
            &b.spec,
        ) {
            return None;
        }
        let first = self.walk_chain_anchor(editor, facts, mentions, i);
        let second = self.walk_chain_anchor(editor, facts, mentions, j);
        let (pack, at) = match pack_facing_pin(first, second) {
            Some(p) => p,
            None => {
                return None;
            },
        };
        let target = &mentions[at];
        assert(all[at as int] == target.deep_view());
        if is_abi_anchor(&target.package) || pack_emitted_pin_floor(&target.spec).is_none()
            || self.workspace_pin_governs_pack_family(editor, facts, &pack, &target.package) {
            return None;
        }
        match self.classify_mention_ownership(
            editor,
            facts,
            Some(pack.as_str()),
            &target.package,
        ) {
            Ownership::AutoRoutedPackPin => {},
            _ => {
                return None;
            },
        }
        let mut reason: String = "generic fallback: pack `".to_owned();
        reason.append(&pack);
        reason.append("`'s emitted pin ");
        reason.append(&target.package);
        reason.append(" ");
        reason.append(&target.spec);
        reason.append(" transitively requires ");
        reason.append(&a.package);
        reason.append(" ");
        reason.append(&a.spec);
        reason.append(" while a hand-written workspace pin's chain requires the disjoint ");
        reason.append(&b.package);
        reason.append(" ");
        reason.append(&b.spec);
        reason.append(" -- un-routing ");
        reason.append(&target.package);
        reason.append(" to PyPI");
        Some(
            unroute_candidate(
                9,
                &target.package,
                &pack,
                &target.spec,
                "#fallback-transitive-unroute",
                reason,
            ),
        )
    }
}

// ---------------------------------------------------------------------------
// The order of candidates
// ---------------------------------------------------------------------------

/// Every candidate of a message, tier by tier as they are found.
pub open spec fn found_candidates(
    sc: SceneView,
    bundle: Seq<char>,
    mentions: Seq<MentionView>,
) -> Seq<CandidateView> {
    mentions.filter_map(|m: MentionView| owned_candidate(sc, bundle, mentions, m))
        + mentions.filter_map(|m: MentionView| skew_candidate(sc, bundle, mentions, m))
        + mentions.filter_map(|m: MentionView| anchor_candidate(sc, bundle, mentions, m))
        + mentions.flat_map(|m: MentionView| clash_candidates(sc, bundle, mentions, m))
        + transitive_rows(sc, mentions, mentions.len() as int)
}

/// The candidates of one tier, in the order in which they stand.
pub open spec fn of_tier(all: Seq<CandidateView>, tier: int) -> Seq<CandidateView>
    decreases all.len(),
{
    if all.len() == 0 {
        Seq::empty()
    } else {
        let before = of_tier(all.drop_last(), tier);
        if all.last().tier == tier {
            before.push(all.last())
        } else {
            before
        }
    }
}

/// The candidates of the tiers 1 to `top`, tier by tier.
pub open spec fn up_to_tier(all: Seq<CandidateView>, top: int) -> Seq<CandidateView>
    decreases top,
{
    if top <= 0 {
        Seq::empty()
    } else {
        up_to_tier(all, top - 1) + of_tier(all, top)
    }
}

/// Whether two candidates do the same thing to the same package of a pack.
pub open spec fn same_candidate(a: CandidateView, b: CandidateView) -> bool {
    a.tier == b.tier && a.package == b.package && a.pack_name == b.pack_name
}

/// The candidates without those that repeat the one before them.
pub open spec fn without_repeats(all: Seq<CandidateView>) -> Seq<CandidateView>
    decreases all.len(),
{
    if all.len() == 0 {
        all
    } else {
        let before = without_repeats(all.drop_last());
        if before.len() > 0 && same_candidate(before.last(), all.last()) {
            before
        } else {
            before.push(all.last())
        }
    }
}

/// The repairs that could be made of a failure, in the order in which they are
/// tried. Outside a pack's conflict there is none.
pub open spec fn candidates_of(
    sc: SceneView,
    pack_name: Option<Seq<char>>,
    mentions: Seq<MentionView>,
) -> Seq<CandidateView> {
    match pack_name {
        None => Seq::empty(),
        Some(bundle) => without_repeats(up_to_tier(found_candidates(sc, bundle, mentions), 9)),
    }
}

/// The candidates stand in the order of their tiers.
pub proof fn law_candidates_stand_by_tier(
    sc: SceneView,
    pack_name: Option<Seq<char>>,
    mentions: Seq<MentionView>,
    i: int,
    j: int,
)
    requires
        0 <= i <= j < candidates_of(sc, pack_name, mentions).len(),
    ensures
        candidates_of(sc, pack_name, mentions)[i].tier <= candidates_of(
            sc,
            pack_name,
            mentions,
        )[j].tier,
{
    let found = found_candidates(sc, pack_name->0, mentions);
    lemma_up_to_tier_sorted(found, 9);
    lemma_without_repeats_sorted(up_to_tier(found, 9));
}

spec fn by_tier(s: Seq<CandidateView>) -> bool {
    forall|i: int, j: int| 0 <= i <= j < s.len() ==> s[i].tier <= s[j].tier
}

proof fn lemma_of_tier(all: Seq<CandidateView>, tier: int)
    ensures
        forall|i: int|
            0 <= i < of_tier(all, tier).len() ==> (#[trigger] of_tier(all, tier)[i]).tier == tier,
    decreases all.len(),
{
    if all.len() > 0 {
        lemma_of_tier(all.drop_last(), tier);
    }
}

proof fn lemma_up_to_tier_sorted(all: Seq<CandidateView>, top: int)
    ensures
        by_tier(up_to_tier(all, top)),
        forall|i: int|
            0 <= i < up_to_tier(all, top).len() ==> (#[trigger] up_to_tier(all, top)[i]).tier
                <= top,
    decreases top,
{
    if top > 0 {
        lemma_up_to_tier_sorted(all, top - 1);
        lemma_of_tier(all, top);
    }
}

proof fn lemma_without_repeats_sorted(all: Seq<CandidateView>)
    requires
        by_tier(all),
    ensures
        by_tier(without_repeats(all)),
        without_repeats(all).len() > 0 ==> all.len() > 0 && without_repeats(all).last().tier
            == all.last().tier,
    decreases all.len(),
{
    if all.len() > 0 {
        assert(by_tier(all.drop_last()));
        lemma_without_repeats_sorted(all.drop_last());
    }
}

/// No repair of an anchor is ever a candidate.
pub proof fn law_no_candidate_is_an_anchor(
    sc: SceneView,
    pack_name: Option<Seq<char>>,
    mentions: Seq<MentionView>,
    i: int,
)
    requires
        0 <= i < candidates_of(sc, pack_name, mentions).len(),
    ensures
        !is_anchor(candidates_of(sc, pack_name, mentions)[i].package),
{
    let bundle = pack_name->0;
    let found = found_candidates(sc, bundle, mentions);
    lemma_found_harmless(sc, bundle, mentions);
    lemma_up_to_tier_from(sc, bundle, mentions, found, 9);
    lemma_without_repeats_from(sc, bundle, mentions, up_to_tier(found, 9));
}

/// Whether a candidate leaves a pin of the user's own alone. The pin of the
/// workspace is what the first tier brings in. A pin that is exact bars the second
/// and the third from every name of the package's family; any pin that bears on the
/// failing pack bars the fifth, the seventh and the eighth; any on the name under
/// which the message lets the package require an anchor bars the sixth; and one of
/// any name of the family that bears on the pack bars the ninth.
pub open spec fn respects_pins(
    sc: SceneView,
    bundle: Seq<char>,
    mentions: Seq<MentionView>,
    c: CandidateView,
) -> bool {
    if c.tier == 2 || c.tier == 3 {
        !family_exact_pin_governs(sc, c.pack_name, c.package)
    } else if c.tier == 5 || c.tier == 7 || c.tier == 8 {
        !pin_governs(sc, bundle, c.package)
    } else if c.tier == 6 {
        exists|m: MentionView| #[trigger]
            mentions.contains(m) && is_anchor(m.package) && (m.requirer matches Some(name)
                && same_name(name, c.package) && !pin_governs(sc, bundle, name))
    } else if c.tier == 9 {
        !family_pin_governs(sc, c.pack_name, c.package)
    } else {
        true
    }
}

/// No candidate goes against a pin of the user's own, as far as its tier minds one.
pub proof fn law_pins_of_the_user_are_respected(
    sc: SceneView,
    bundle: Seq<char>,
    mentions: Seq<MentionView>,
    i: int,
)
    requires
        0 <= i < candidates_of(sc, Some(bundle), mentions).len(),
    ensures
        respects_pins(
            sc,
            bundle,
            mentions,
            candidates_of(sc, Some(bundle), mentions)[i],
        ),
{
    let found = found_candidates(sc, bundle, mentions);
    lemma_found_harmless(sc, bundle, mentions);
    lemma_up_to_tier_from(sc, bundle, mentions, found, 9);
    lemma_without_repeats_from(sc, bundle, mentions, up_to_tier(found, 9));
}

spec fn is_harmless(
    sc: SceneView,
    bundle: Seq<char>,
    mentions: Seq<MentionView>,
    c: CandidateView,
) -> bool {
    !is_anchor(c.package) && respects_pins(sc, bundle, mentions, c)
}

spec fn harmless(
    sc: SceneView,
    bundle: Seq<char>,
    mentions: Seq<MentionView>,
    s: Seq<CandidateView>,
) -> bool {
    forall|i: int| 0 <= i < s.len() ==> is_harmless(sc, bundle, mentions, #[trigger] s[i])
}

proof fn lemma_filter_map_harmless(
    sc: SceneView,
    bundle: Seq<char>,
    mentions: Seq<MentionView>,
    f: spec_fn(MentionView) -> Option<CandidateView>,
    n: int,
)
    requires
        0 <= n <= mentions.len(),
        forall|m: MentionView| #[trigger]
            mentions.contains(m) ==> (f(m) matches Some(c) ==> is_harmless(
                sc,
                bundle,
                mentions,
                c,
            )),
    ensures
        harmless(sc, bundle, mentions, mentions.take(n).filter_map(f)),
    decreases n,
{
    if n > 0 {
        lemma_filter_map_harmless(sc, bundle, mentions, f, n - 1);
        mentions.lemma_filter_map_take_succ(f, n - 1);
        assert(mentions.contains(mentions[n - 1]));
    } else {
        assert(mentions.take(0).filter_map(f) =~= Seq::<CandidateView>::empty());
    }
}

proof fn lemma_flat_map_harmless(
    sc: SceneView,
    bundle: Seq<char>,
    mentions: Seq<MentionView>,
    f: spec_fn(MentionView) -> Seq<CandidateView>,
    n: int,
)
    requires
        0 <= n <= mentions.len(),
        forall|m: MentionView| harmless(sc, bundle, mentions, #[trigger] f(m)),
    ensures
        harmless(sc, bundle, mentions, mentions.take(n).flat_map(f)),
    decreases n,
{
    if n > 0 {
        lemma_flat_map_harmless(sc, bundle, mentions, f, n - 1);
        mentions.lemma_flat_map_take_append(f, n - 1);
        assert(harmless(sc, bundle, mentions, f(mentions[n - 1])));
    } else {
        assert(mentions.take(0).flat_map(f) =~= Seq::<CandidateView>::empty());
    }
}

proof fn lemma_row_harmless(
    sc: SceneView,
    bundle: Seq<char>,
    mentions: Seq<MentionView>,
    i: int,
    end: int,
)
    ensures
        harmless(sc, bundle, mentions, transitive_row(sc, mentions, i, end)),
    decreases end - i,
{
    if end > i + 1 {
        lemma_row_harmless(sc, bundle, mentions, i, end - 1);
    }
}

proof fn lemma_rows_harmless(
    sc: SceneView,
    bundle: Seq<char>,
    mentions: Seq<MentionView>,
    count: int,
)
    ensures
        harmless(sc, bundle, mentions, transitive_rows(sc, mentions, count)),
    decreases count,
{
    if count > 0 {
        lemma_rows_harmless(sc, bundle, mentions, count - 1);
        lemma_row_harmless(sc, bundle, mentions, count - 1, mentions.len() as int);
    }
}

proof fn lemma_own_emitted_is_named(
    mentions: Seq<MentionView>,
    name: Seq<char>,
    pack: Seq<char>,
    from: int,
)
    ensures
        own_emitted_from(mentions, name, pack, from) matches Some(req) ==> same_name(
            name,
            req.package,
        ),
    decreases mentions.len() - from,
{
    if 0 <= from < mentions.len() {
        lemma_own_emitted_is_named(mentions, name, pack, from + 1);
    }
}

proof fn lemma_found_harmless(sc: SceneView, bundle: Seq<char>, mentions: Seq<MentionView>)
    ensures
        harmless(sc, bundle, mentions, found_candidates(sc, bundle, mentions)),
{
    assert(mentions.take(mentions.len() as int) =~= mentions);
    lemma_filter_map_harmless(
        sc,
        bundle,
        mentions,
        |m: MentionView| owned_candidate(sc, bundle, mentions, m),
        mentions.len() as int,
    );
    lemma_filter_map_harmless(
        sc,
        bundle,
        mentions,
        |m: MentionView| skew_candidate(sc, bundle, mentions, m),
        mentions.len() as int,
    );
    assert forall|m: MentionView| #[trigger]
        mentions.contains(m) && anchor_candidate(sc, bundle, mentions, m) is Some implies is_harmless(
        sc,
        bundle,
        mentions,
        anchor_candidate(sc, bundle, mentions, m)->0,
    ) by {
        lemma_own_emitted_is_named(mentions, m.requirer->0, bundle, 0);
    }
    lemma_filter_map_harmless(
        sc,
        bundle,
        mentions,
        |m: MentionView| anchor_candidate(sc, bundle, mentions, m),
        mentions.len() as int,
    );
    lemma_flat_map_harmless(
        sc,
        bundle,
        mentions,
        |m: MentionView| clash_candidates(sc, bundle, mentions, m),
        mentions.len() as int,
    );
    lemma_rows_harmless(sc, bundle, mentions, mentions.len() as int);
}

proof fn lemma_of_tier_from(
    sc: SceneView,
    bundle: Seq<char>,
    mentions: Seq<MentionView>,
    all: Seq<CandidateView>,
    tier: int,
)
    requires
        harmless(sc, bundle, mentions, all),
    ensures
        harmless(sc, bundle, mentions, of_tier(all, tier)),
    decreases all.len(),
{
    if all.len() > 0 {
        lemma_of_tier_from(sc, bundle, mentions, all.drop_last(), tier);
    }
}

proof fn lemma_up_to_tier_from(
    sc: SceneView,
    bundle: Seq<char>,
    mentions: Seq<MentionView>,
    all: Seq<CandidateView>,
    top: int,
)
    requires
        harmless(sc, bundle, mentions, all),
    ensures
        harmless(sc, bundle, mentions, up_to_tier(all, top)),
    decreases top,
{
    if top > 0 {
        lemma_up_to_tier_from(sc, bundle, mentions, all, top - 1);
        lemma_of_tier_from(sc, bundle, mentions, all, top);
    }
}

proof fn lemma_without_repeats_from(
    sc: SceneView,
    bundle: Seq<char>,
    mentions: Seq<MentionView>,
    all: Seq<CandidateView>,
)
    requires
        harmless(sc, bundle, mentions, all),
    ensures
        harmless(sc, bundle, mentions, without_repeats(all)),
    decreases all.len(),
{
    if all.len() > 0 {
        lemma_without_repeats_from(sc, bundle, mentions, all.drop_last());
    }
}

fn take_tier(all: &Vec<FallbackCandidate>, tier: u8, out: &mut Vec<FallbackCandidate>)
    ensures
        final(out).deep_view() == old(out).deep_view() + of_tier(all.deep_view(), tier as int),
{
    let ghost s = all.deep_view();
    let ghost before = out.deep_view();
    let n: usize = all.len();
    let mut i: usize = 0;
    assert(out.deep_view() =~= before + of_tier(s.take(0), tier as int));
    while i < n
        invariant
            i <= n,
            n == all@.len(),
            s == all.deep_view(),
            out.deep_view() == before + of_tier(s.take(i as int), tier as int),
        decreases n - i,
    {
        assert(s[i as int] == all@[i as int].deep_view());
        assert(s.take(i + 1).drop_last() =~= s.take(i as int));
        if all[i].tier == tier {
            push_view(out, all[i].clone());
        }
        assert(out.deep_view() =~= before + of_tier(s.take(i + 1), tier as int));
        i = i + 1;
    }
    assert(s.take(n as int) =~= s);
}

fn in_tier_order(all: &Vec<FallbackCandidate>) -> (r: Vec<FallbackCandidate>)
    ensures
        r.deep_view() == up_to_tier(all.deep_view(), 9),
{
    let mut out: Vec<FallbackCandidate> = Vec::new();
    assert(out.deep_view() =~= Seq::<CandidateView>::empty());
    let mut tier: u8 = 0;
    while tier < 9
        invariant
            tier <= 9,
            out.deep_view() == up_to_tier(all.deep_view(), tier as int),
        decreases 9 - tier,
    {
        tier = tier + 1;
        take_tier(all, tier, &mut out);
    }
    out
}

fn drop_repeats(all: Vec<FallbackCandidate>) -> (r: Vec<FallbackCandidate>)
    ensures
        r.deep_view() == without_repeats(all.deep_view()),
{
    let ghost s = all.deep_view();
    let mut out: Vec<FallbackCandidate> = Vec::new();
    let n: usize = all.len();
    let mut i: usize = 0;
    assert(out.deep_view() =~= without_repeats(s.take(0)));
    while i < n
        invariant
            i <= n,
            n == all@.len(),
            s == all.deep_view(),
            out.deep_view() == without_repeats(s.take(i as int)),
        decreases n - i,
    {
        assert(s[i as int] == all@[i as int].deep_view());
        assert(s.take(i + 1).drop_last() =~= s.take(i as int));
        assert(out.deep_view().len() == out@.len());
        let repeats: bool = if out.len() > 0 {
            let last: usize = out.len() - 1;
            assert(out.deep_view().last() == out@[last as int].deep_view());
            out[last].tier == all[i].tier && text_eq(&out[last].package, &all[i].package)
                && text_eq(&out[last].pack_name, &all[i].pack_name)
        } else {
            false
        };
        if !repeats {
            push_view(&mut out, all[i].clone());
        }
        i = i + 1;
    }
    assert(s.take(n as int) =~= s);
    out
}

impl RepairPlanner {
    fn gather_single(
        &self,
        editor: &ManifestEditor,
        facts: &Facts,
        bundle: &str,
        mentions: &Vec<Mention>,
    ) -> (r: Vec<FallbackCandidate>)
        ensures
            r.deep_view() == ({
                let sc = self.scene(*editor, *facts);
                let all = mentions.deep_view();
                all.filter_map(|m: MentionView| owned_candidate(sc, bundle@, all, m))
                    + all.filter_map(|m: MentionView| skew_candidate(sc, bundle@, all, m))
                    + all.filter_map(|m: MentionView| anchor_candidate(sc, bundle@, all, m))
            }),
    {
        let ghost sc = self.scene(*editor, *facts);
        let ghost all = mentions.deep_view();
        let ghost f1 = |m: MentionView| owned_candidate(sc, bundle@, all, m);
        let ghost f2 = |m: MentionView| skew_candidate(sc, bundle@, all, m);
        let ghost f3 = |m: MentionView| anchor_candidate(sc, bundle@, all, m);
        let mut one: Vec<FallbackCandidate> = Vec::new();
        let mut two: Vec<FallbackCandidate> = Vec::new();
        let mut three: Vec<FallbackCandidate> = Vec::new();
        let n: usize = mentions.len();
        let mut i: usize = 0;
        assert(one.deep_view() =~= all.take(0).filter_map(f1));
        assert(two.deep_view() =~= all.take(0).filter_map(f2));
        assert(three.deep_view() =~= all.take(0).filter_map(f3));
        while i < n
            invariant
                i <= n,
                n == mentions@.len(),
                all == mentions.deep_view(),
                sc == self.scene(*editor, *facts),
                f1 == (|m: MentionView| owned_candidate(sc, bundle@, all, m)),
                f2 == (|m: MentionView| skew_candidate(sc, bundle@, all, m)),
                f3 == (|m: MentionView| anchor_candidate(sc, bundle@, all, m)),
                one.deep_view() == all.take(i as int).filter_map(f1),
                two.deep_view() == all.take(i as int).filter_map(f2),
                three.deep_view() == all.take(i as int).filter_map(f3),
            decreases n - i,
        {
            let m = &mentions[i];
            assert(all[i as int] == m.deep_view());
            proof {
                all.lemma_filter_map_take_succ(f1, i as int);
                all.lemma_filter_map_take_succ(f2, i as int);
                all.lemma_filter_map_take_succ(f3, i as int);
            }
            match self.owned(editor, facts, bundle, mentions, m) {
                Some(c) => {
                    push_view(&mut one, c);
                },
                None => {},
            }
            match self.skewed(editor, facts, bundle, mentions, m) {
                Some(c) => {
                    push_view(&mut two, c);
                },
                None => {},
            }
            match self.anchored(editor, facts, bundle, mentions, m) {
                Some(c) => {
                    push_view(&mut three, c);
                },
                None => {},
            }
            i = i + 1;
        }
        assert(all.take(n as int) =~= all);
        let ghost a = one.deep_view();
        let ghost b = two.deep_view();
        let ghost c = three.deep_view();
        one.append(&mut two);
        assert(one.deep_view() =~= a + b);
        one.append(&mut three);
        assert(one.deep_view() =~= a + b + c);
        one
    }

    fn gather_clashes(
        &self,
        editor: &ManifestEditor,
        facts: &Facts,
        bundle: &str,
        mentions: &Vec<Mention>,
    ) -> (r: Vec<FallbackCandidate>)
        ensures
            r.deep_view() == ({
                let sc = self.scene(*editor, *facts);
                let all = mentions.deep_view();
                all.flat_map(|m: MentionView| clash_candidates(sc, bundle@, all, m))
            }),
    {
        let ghost sc = self.scene(*editor, *facts);
        let ghost all = mentions.deep_view();
        let ghost f = |m: MentionView| clash_candidates(sc, bundle@, all, m);
        let mut out: Vec<FallbackCandidate> = Vec::new();
        let n: usize = mentions.len();
        let mut i: usize = 0;
        assert(out.deep_view() =~= all.take(0).flat_map(f));
        while i < n
            invariant
                i <= n,
                n == mentions@.len(),
                all == mentions.deep_view(),
                sc == self.scene(*editor, *facts),
                f == (|m: MentionView| clash_candidates(sc, bundle@, all, m)),
                out.deep_view() == all.take(i as int).flat_map(f),
            decreases n - i,
        {
            let m = &mentions[i];
            assert(all[i as int] == m.deep_view());
            proof {
                all.lemma_flat_map_take_append(f, i as int);
            }
            let mut more = self.clashing(editor, facts, bundle, mentions, m);
            let ghost before = out.deep_view();
            let ghost new = more.deep_view();
            out.append(&mut more);
            assert(out.deep_view() =~= before + new);
            i = i + 1;
        }
        assert(all.take(n as int) =~= all);
        out
    }

    fn gather_transitive(&self, editor: &ManifestEditor, facts: &Facts, mentions: &Vec<Mention>) -> (r:
        Vec<FallbackCandidate>)
        ensures
            r.deep_view() == transitive_rows(
                self.scene(*editor, *facts),
                mentions.deep_view(),
                mentions.deep_view().len() as int,
            ),
    {
        let ghost sc = self.scene(*editor, *facts);
        let ghost all = mentions.deep_view();
        let mut out: Vec<FallbackCandidate> = Vec::new();
        let n: usize = mentions.len();
        let mut i: usize = 0;
        assert(out.deep_view() =~= transitive_rows(sc, all, 0));
        while i < n
            invariant
                i <= n,
                n == mentions@.len(),
                all == mentions.deep_view(),
                sc == self.scene(*editor, *facts),
                out.deep_view() == transitive_rows(sc, all, i as int),
            decreases n - i,
        {
            let ghost before = out.deep_view();
            let mut j: usize = i + 1;
            assert(out.deep_view() =~= before + transitive_row(sc, all, i as int, j as int));
            while j < n
                invariant
                    i < j <= n,
                    n == mentions@.len(),
                    all == mentions.deep_view(),
                    sc == self.scene(*editor, *facts),
                    out.deep_view() == before + transitive_row(sc, all, i as int, j as int),
                decreases n - j,
            {
                match self.transitive(editor, facts, mentions, i, j) {
                    Some(c) => {
                        push_view(&mut out, c);
                    },
                    None => {},
                }
                assert(out.deep_view() =~= before + transitive_row(sc, all, i as int, j + 1));
                j = j + 1;
            }
            i = i + 1;
        }
        out
    }

    /// The repairs that could be made of a failure, in the order in which they
    /// are tried. Outside a pack's conflict there is none.
    pub fn generate_fallback_candidates(
        &self,
        editor: &ManifestEditor,
        facts: &Facts,
        pack_name: Option<&str>,
        mentions: &Vec<Mention>,
    ) -> (r: Vec<FallbackCandidate>)
        ensures
            r.deep_view() == candidates_of(
                self.scene(*editor, *facts),
                pack_name.deep_view(),
                mentions.deep_view(),
            ),
    {
        let bundle: &str = match pack_name {
            Some(b) => b,
            None => {
                let none: Vec<FallbackCandidate> = Vec::new();
                assert(none.deep_view() =~= Seq::<CandidateView>::empty());
                return none;
            },
        };
        let mut all = self.gather_single(editor, facts, bundle, mentions);
        let mut clashes = self.gather_clashes(editor, facts, bundle, mentions);
        let mut rows = self.gather_transitive(editor, facts, mentions);
        let ghost a = all.deep_view();
        let ghost b = clashes.deep_view();
        let ghost c = rows.deep_view();
        all.append(&mut clashes);
        assert(all.deep_view() =~= a + b);
        all.append(&mut rows);
        assert(all.deep_view() =~= a + b + c);
        assert(all.deep_view() =~= found_candidates(
            self.scene(*editor, *facts),
            bundle@,
            mentions.deep_view(),
        ));
        drop_repeats(in_tier_order(&all))
    }
}

// ---------------------------------------------------------------------------
// Making the repairs
// ---------------------------------------------------------------------------

/// What a candidate counts as begun with.
pub open spec fn begun_spec(c: CandidateView) -> Seq<char> {
    match c.kind {
        PackOverrideKind::Override => c.new_spec,
        PackOverrideKind::Unroute => "unroute:"@ + c.package,
    }
}

/// The outcome of a candidate.
pub open spec fn fallback_outcome(c: CandidateView, iter: u32, now: Seq<char>) -> OutcomeView {
    OutcomeView {
        attempt: AttemptView {
            iter,
            package: c.package,
            version: c.old_spec,
            tier: strategy_name(Strategy::PypiOverride),
            strategy: strategy_name(Strategy::PypiOverride),
            conflict: "GenericFallback"@,
            source: "retread-fallback"@,
            ts: now,
            old_spec: c.old_spec,
            new_spec: Some(
                match c.kind {
                    PackOverrideKind::Override => c.new_spec,
                    PackOverrideKind::Unroute => "keep-pypi"@,
                },
            ),
            ceiling_policy: None,
            before: None,
            failed: false,
        },
        extra_attempts: Seq::empty(),
        applied: Seq::empty(),
        summary_line: match c.kind {
            PackOverrideKind::Override => "would add ["@ + c.pack_name + " :: retread-overrides] "@
                + c.package + " = \""@ + c.new_spec + "\"  (tier: pypi_override; "@ + c.reason
                + "; fallback engine)"@,
            PackOverrideKind::Unroute => "would add ["@ + c.pack_name + " :: retread-keep-pypi] "@
                + c.package + "  (tier: pypi_override; un-route; "@ + c.reason
                + "; fallback engine)"@,
        },
        pack_override: None,
    }
}

/// Makes a candidate's repair, unless it was tried or begun before.
pub open spec fn candidate_step(st: LadderView, c: CandidateView, iter: u32, now: Seq<char>) -> (
    LadderView,
    Option<OutcomeView>,
) {
    if was_tried(st, c.tried_key, Strategy::PypiOverride) || begun(
        st,
        c.tried_key,
        begun_spec(c),
        Strategy::PypiOverride,
    ) {
        (st, None)
    } else {
        (
            tried_too(
                begin(st, c.tried_key, begun_spec(c), Strategy::PypiOverride),
                c.tried_key,
                Strategy::PypiOverride,
            ),
            Some(fallback_outcome(c, iter, now)),
        )
    }
}

/// What a candidate records for its pack.
pub open spec fn candidate_write(c: CandidateView, pack_pixi: Seq<char>) -> WriteView {
    WriteView {
        bundle: c.pack_name,
        pack_pixi,
        package: c.package,
        spec: c.new_spec,
        kind: c.kind,
    }
}

/// The first of the candidates from `from` on that can be made in a pack that is
/// known.
pub open spec fn first_applied(
    sc: SceneView,
    st: LadderView,
    candidates: Seq<CandidateView>,
    iter: u32,
    from: int,
) -> (LadderView, Option<(OutcomeView, WriteView)>)
    decreases candidates.len() - from,
{
    if from < 0 || from >= candidates.len() {
        (st, None)
    } else {
        let c = candidates[from];
        let (after, out) = candidate_step(st, c, iter, sc.facts.now);
        match (out, pack_manifest(sc.facts, sc.dir, c.pack_name)) {
            (Some(o), Some(pixi)) => (after, Some((o, candidate_write(c, pixi)))),
            _ => first_applied(sc, after, candidates, iter, from + 1),
        }
    }
}

/// How far a batch has come.
#[verifier::ext_equal]
pub struct BatchView {
    pub st: LadderView,
    pub applied: Seq<(OutcomeView, Option<WriteView>)>,
    pub touched: Seq<(Seq<char>, Seq<char>)>,
}

/// What a candidate changes: its package, whatever its letters' case, in its pack.
pub open spec fn knob(c: CandidateView) -> (Seq<char>, Seq<char>) {
    (lowered(c.package), c.pack_name)
}

/// Every candidate that can be made, one for each package of a pack.
pub open spec fn batch_of(
    sc: SceneView,
    st: LadderView,
    candidates: Seq<CandidateView>,
    iter: u32,
) -> BatchView
    decreases candidates.len(),
{
    if candidates.len() == 0 {
        BatchView { st, applied: Seq::empty(), touched: Seq::empty() }
    } else {
        let before = batch_of(sc, st, candidates.drop_last(), iter);
        let c = candidates.last();
        if before.touched.contains(knob(c)) {
            before
        } else {
            let (after, out) = candidate_step(before.st, c, iter, sc.facts.now);
            match (out, pack_manifest(sc.facts, sc.dir, c.pack_name)) {
                (Some(o), Some(pixi)) => BatchView {
                    st: after,
                    applied: before.applied.push((o, Some(candidate_write(c, pixi)))),
                    touched: before.touched.push(knob(c)),
                },
                _ => BatchView { st: after, ..before },
            }
        }
    }
}

/// A batch changes no package of a pack twice.
pub proof fn law_batch_changes_each_once(
    sc: SceneView,
    st: LadderView,
    candidates: Seq<CandidateView>,
    iter: u32,
    i: int,
    j: int,
)
    requires
        0 <= i < j < batch_of(sc, st, candidates, iter).applied.len(),
    ensures
        ({
            let applied = batch_of(sc, st, candidates, iter).applied;
            let a = applied[i].1->0;
            let b = applied[j].1->0;
            applied[i].1 is Some && applied[j].1 is Some && (lowered(a.package), a.bundle) != (
                lowered(b.package),
                b.bundle,
            )
        }),
{
    lemma_batch_touched(sc, st, candidates, iter);
}

proof fn lemma_batch_touched(
    sc: SceneView,
    st: LadderView,
    candidates: Seq<CandidateView>,
    iter: u32,
)
    ensures
        ({
            let b = batch_of(sc, st, candidates, iter);
            &&& b.applied.len() == b.touched.len()
            &&& b.touched.no_duplicates()
            &&& forall|i: int|
                0 <= i < b.applied.len() ==> (#[trigger] b.applied[i]).1 is Some && b.touched[i] == (
                    lowered(b.applied[i].1->0.package),
                    b.applied[i].1->0.bundle,
                )
        }),
    decreases candidates.len(),
{
    if candidates.len() > 0 {
        lemma_batch_touched(sc, st, candidates.drop_last(), iter);
        let before = batch_of(sc, st, candidates.drop_last(), iter);
        let c = candidates.last();
        assert(before.touched.push(knob(c)).last() == knob(c));
    }
}

/// A batch begins each repair at most once, and forgets none.
pub proof fn law_batch_only_adds(
    sc: SceneView,
    st: LadderView,
    candidates: Seq<CandidateView>,
    iter: u32,
)
    ensures
        ({
            let b = batch_of(sc, st, candidates, iter);
            &&& st.attempts.subset_of(b.st.attempts)
            &&& st.tried.subset_of(b.st.tried)
            &&& b.st.nodes == st.nodes
        }),
    decreases candidates.len(),
{
    if candidates.len() > 0 {
        law_batch_only_adds(sc, st, candidates.drop_last(), iter);
    }
}

/// What comes of a batch.
pub type FallbackBatchResult = Result<Vec<(RepairOutcome, Option<PackOverrideWrite>)>, String>;

/// What the result of a batch says.
pub open spec fn batch_view(r: Option<FallbackBatchResult>) -> Option<
    Result<Seq<(OutcomeView, Option<WriteView>)>, Seq<char>>,
> {
    match r {
        None => None,
        Some(Ok(applied)) => Some(Ok(applied.deep_view())),
        Some(Err(package)) => Some(Err(package@)),
    }
}

/// What comes of a message's candidates: nothing where there is none, the package
/// of the first where none can be made, or else what was made.
pub open spec fn batch_result(
    sc: SceneView,
    st: LadderView,
    pack_name: Option<Seq<char>>,
    mentions: Seq<MentionView>,
    iter: u32,
) -> (LadderView, Option<Result<Seq<(OutcomeView, Option<WriteView>)>, Seq<char>>>) {
    let candidates = candidates_of(sc, pack_name, mentions);
    if mentions.len() == 0 || candidates.len() == 0 {
        (st, None)
    } else {
        let b = batch_of(sc, st, candidates, iter);
        if b.applied.len() == 0 {
            (b.st, Some(Err(candidates[0].package)))
        } else {
            (b.st, Some(Ok(b.applied)))
        }
    }
}

/// What comes of a message's candidates where one repair is made at a time.
pub open spec fn single_result(
    sc: SceneView,
    st: LadderView,
    pack_name: Option<Seq<char>>,
    mentions: Seq<MentionView>,
    iter: u32,
) -> (LadderView, Option<(Result<OutcomeView, Seq<char>>, Option<WriteView>)>) {
    let candidates = candidates_of(sc, pack_name, mentions);
    if mentions.len() == 0 || candidates.len() == 0 {
        (st, None)
    } else {
        let (after, out) = first_applied(sc, st, candidates, iter, 0);
        match out {
            Some((o, w)) => (after, Some((Ok(o), Some(w)))),
            None => (after, Some((Err(candidates[0].package), None))),
        }
    }
}

/// What the result of one repair says.
pub open spec fn single_view(
    r: Option<(Result<RepairOutcome, String>, Option<PackOverrideWrite>)>,
) -> Option<(Result<OutcomeView, Seq<char>>, Option<WriteView>)> {
    match r {
        None => None,
        Some((out, w)) => Some((crate::solve::repair::result_view(out), w.deep_view())),
    }
}

/// What the engine leaves: the ladder's new state, with the planner's setup and the
/// failures as they were.
pub open spec fn advanced(
    e: ManifestEditor,
    p: RepairPlanner,
    t: TriedState,
    p2: RepairPlanner,
    t2: TriedState,
    after: LadderView,
) -> bool {
    &&& p2.ladder(e, t2) == after
    &&& p2.feature@ == p.feature@
    &&& p2.ceiling_policy == p.ceiling_policy
    &&& p2.relax_preference == p.relax_preference
    &&& p2.names() == p.names()
    &&& t2.failed_set() == t.failed_set()
}

fn outcome_of_candidate(c: &FallbackCandidate, iter: u32, now: &str) -> (r: RepairOutcome)
    ensures
        r.deep_view() == fallback_outcome(c.deep_view(), iter, now@),
{
    let mut line: String = "would add [".to_owned();
    line.append(&c.pack_name);
    let new_spec: String = match c.kind {
        PackOverrideKind::Override => {
            line.append(" :: retread-overrides] ");
            line.append(&c.package);
            line.append(" = \"");
            line.append(&c.new_spec);
            line.append("\"  (tier: pypi_override; ");
            c.new_spec.clone()
        },
        PackOverrideKind::Unroute => {
            line.append(" :: retread-keep-pypi] ");
            line.append(&c.package);
            line.append("  (tier: pypi_override; un-route; ");
            "keep-pypi".to_owned()
        },
    };
    line.append(&c.reason);
    line.append("; fallback engine)");
    let extra_attempts: Vec<LedgerAttempt> = Vec::new();
    assert(extra_attempts.deep_view() =~= Seq::<AttemptView>::empty());
    let applied: Vec<AppliedEdit> = Vec::new();
    assert(applied.deep_view() =~= Seq::<EditView>::empty());
    RepairOutcome {
        attempt: LedgerAttempt {
            iter,
            package: c.package.clone(),
            version: clone_option(&c.old_spec),
            tier: Strategy::PypiOverride.as_str().to_owned(),
            strategy: Strategy::PypiOverride.as_str().to_owned(),
            conflict: "GenericFallback".to_owned(),
            source: "retread-fallback".to_owned(),
            ts: now.to_owned(),
            old_spec: clone_option(&c.old_spec),
            new_spec: Some(new_spec),
            ceiling_policy: None,
            before: None,
            failed: false,
        },
        extra_attempts,
        applied,
        summary_line: line,
        pack_override: None,
    }
}

fn write_of_candidate(c: &FallbackCandidate, pack_pixi: String) -> (r: PackOverrideWrite)
    ensures
        r.deep_view() == candidate_write(c.deep_view(), pack_pixi@),
{
    PackOverrideWrite {
        bundle: c.pack_name.clone(),
        pack_pixi,
        package: c.package.clone(),
        spec: c.new_spec.clone(),
        kind: c.kind,
    }
}

fn holds_knob(v: &Vec<(String, String)>, package: &str, pack: &str) -> (r: bool)
    ensures
        r == v.deep_view().contains((package@, pack@)),
{
    let ghost all = v.deep_view();
    let n: usize = v.len();
    let mut i: usize = 0;
    while i < n
        invariant
            i <= n,
            n == v@.len(),
            all == v.deep_view(),
            forall|k: int| 0 <= k < i ==> all[k] != (package@, pack@),
        decreases n - i,
    {
        assert(all[i as int] == v@[i as int].deep_view());
        if text_eq(&v[i].0, package) && text_eq(&v[i].1, pack) {
            return true;
        }
        i = i + 1;
    }
    false
}

impl RepairPlanner {
    /// Makes a candidate's repair, unless it was tried or begun before.
    pub fn apply_fallback_candidate(
        &mut self,
        tried: &mut TriedState,
        cand: &FallbackCandidate,
        iter: u32,
        now: &str,
    ) -> (r: Option<RepairOutcome>)
        ensures
            forall|e: ManifestEditor|
                ({
                    let (after, out) = candidate_step(
                        #[trigger] old(self).ladder(e, *old(tried)),
                        cand.deep_view(),
                        iter,
                        now@,
                    );
                    r.deep_view() == out && advanced(
                        e,
                        *old(self),
                        *old(tried),
                        *final(self),
                        *final(tried),
                        after,
                    )
                }),
    {
        if tried.has(&cand.tried_key, Strategy::PypiOverride) {
            return None;
        }
        let spec: String = match cand.kind {
            PackOverrideKind::Override => cand.new_spec.clone(),
            PackOverrideKind::Unroute => "unroute:".to_owned().concat(&cand.package),
        };
        if !self.guard_oscillation(&cand.tried_key, &spec, Strategy::PypiOverride) {
            return None;
        }
        tried.mark(&cand.tried_key, Strategy::PypiOverride, false);
        Some(outcome_of_candidate(cand, iter, now))
    }

    /// Makes every repair that the mentions of a message allow, one for each
    /// package of a pack.
    pub fn repair_mentions_batch(
        &mut self,
        editor: &ManifestEditor,
        tried: &mut TriedState,
        facts: &Facts,
        pack_name: Option<&str>,
        mentions: &Vec<Mention>,
        iter: u32,
    ) -> (r: Option<FallbackBatchResult>)
        ensures
            ({
                let (after, out) = batch_result(
                    old(self).scene(*editor, *facts),
                    old(self).ladder(*editor, *old(tried)),
                    pack_name.deep_view(),
                    mentions.deep_view(),
                    iter,
                );
                batch_view(r) == out && advanced(
                    *editor,
                    *old(self),
                    *old(tried),
                    *final(self),
                    *final(tried),
                    after,
                )
            }),
    {
        assert(mentions.deep_view().len() == mentions@.len());
        if mentions.len() == 0 {
            return None;
        }
        let candidates = self.generate_fallback_candidates(editor, facts, pack_name, mentions);
        let ghost all = candidates.deep_view();
        assert(all.len() == candidates@.len());
        if candidates.len() == 0 {
            return None;
        }
        let ghost sc = self.scene(*editor, *facts);
        let ghost st = self.ladder(*editor, *tried);
        let mut applied: Vec<(RepairOutcome, Option<PackOverrideWrite>)> = Vec::new();
        let mut touched: Vec<(String, String)> = Vec::new();
        let n: usize = candidates.len();
        let mut i: usize = 0;
        assert(applied.deep_view() =~= batch_of(sc, st, all.take(0), iter).applied);
        assert(touched.deep_view() =~= batch_of(sc, st, all.take(0), iter).touched);
        while i < n
            invariant
                i <= n,
                n == candidates@.len(),
                all == candidates.deep_view(),
                sc == old(self).scene(*editor, *facts),
                st == old(self).ladder(*editor, *old(tried)),
                applied.deep_view() == batch_of(sc, st, all.take(i as int), iter).applied,
                touched.deep_view() == batch_of(sc, st, all.take(i as int), iter).touched,
                advanced(
                    *editor,
                    *old(self),
                    *old(tried),
                    *self,
                    *tried,
                    batch_of(sc, st, all.take(i as int), iter).st,
                ),
            decreases n - i,
        {
            let c = &candidates[i];
            assert(all[i as int] == c.deep_view());
            assert(all.take(i + 1).drop_last() =~= all.take(i as int));
            let ghost now = self.ladder(*editor, *tried);
            let key = lower(&c.package);
            if !holds_knob(&touched, &key, &c.pack_name) {
                match self.apply_fallback_candidate(tried, c, iter, &facts.now) {
                    Some(out) => match facts.manifest_of(editor.project_dir(), &c.pack_name) {
                        Some(pixi) => {
                            push_view(&mut touched, (key, c.pack_name.clone()));
                            push_view(&mut applied, (out, Some(write_of_candidate(c, pixi))));
                        },
                        None => {},
                    },
                    None => {},
                }
            }
            i = i + 1;
        }
        assert(all.take(n as int) =~= all);
        assert(applied.deep_view().len() == applied@.len());
        if applied.len() == 0 {
            assert(all[0] == candidates@[0].deep_view());
            return Some(Err(candidates[0].package.clone()));
        }
        Some(Ok(applied))
    }

    /// Makes the first repair that the mentions of a message allow.
    pub fn repair_mentions(
        &mut self,
        editor: &ManifestEditor,
        tried: &mut TriedState,
        facts: &Facts,
        pack_name: Option<&str>,
        mentions: &Vec<Mention>,
        iter: u32,
    ) -> (r: Option<(Result<RepairOutcome, String>, Option<PackOverrideWrite>)>)
        ensures
            ({
                let (after, out) = single_result(
                    old(self).scene(*editor, *facts),
                    old(self).ladder(*editor, *old(tried)),
                    pack_name.deep_view(),
                    mentions.deep_view(),
                    iter,
                );
                single_view(r) == out && advanced(
                    *editor,
                    *old(self),
                    *old(tried),
                    *final(self),
                    *final(tried),
                    after,
                )
            }),
    {
        assert(mentions.deep_view().len() == mentions@.len());
        if mentions.len() == 0 {
            return None;
        }
        let candidates = self.generate_fallback_candidates(editor, facts, pack_name, mentions);
        let ghost all = candidates.deep_view();
        assert(all.len() == candidates@.len());
        if candidates.len() == 0 {
            return None;
        }
        let ghost sc = self.scene(*editor, *facts);
        let ghost st = self.ladder(*editor, *tried);
        let n: usize = candidates.len();
        let mut i: usize = 0;
        while i < n
            invariant
                i <= n,
                n == candidates@.len(),
                0 < n,
                all == candidates.deep_view(),
                all == candidates_of(sc, pack_name.deep_view(), mentions.deep_view()),
                mentions.deep_view().len() > 0,
                sc == old(self).scene(*editor, *facts),
                st == old(self).ladder(*editor, *old(tried)),
                first_applied(sc, st, all, iter, 0) == first_applied(
                    sc,
                    self.ladder(*editor, *tried),
                    all,
                    iter,
                    i as int,
                ),
                advanced(
                    *editor,
                    *old(self),
                    *old(tried),
                    *self,
                    *tried,
                    self.ladder(*editor, *tried),
                ),
            decreases n - i,
        {
            let c = &candidates[i];
            assert(all[i as int] == c.deep_view());
            let ghost now = self.ladder(*editor, *tried);
            match self.apply_fallback_candidate(tried, c, iter, &facts.now) {
                Some(out) => match facts.manifest_of(editor.project_dir(), &c.pack_name) {
                    Some(pixi) => {
                        return Some((Ok(out), Some(write_of_candidate(c, pixi))));
                    },
                    None => {},
                },
                None => {},
            }
            i = i + 1;
        }
        assert(all[0] == candidates@[0].deep_view());
        Some((Err(candidates[0].package.clone()), None))
    }

    /// Makes every repair that a message of no known shape allows, one for each
    /// package of a pack. `None` where it allows none; an error, with the package
    /// of the first, where all were tried before.
    pub fn generic_fallback_repair_batch(
        &mut self,
        editor: &ManifestEditor,
        tried: &mut TriedState,
        facts: &Facts,
        stderr: &str,
        iter: u32,
    ) -> (r: Option<FallbackBatchResult>)
        ensures
            ({
                let (after, out) = batch_result(
                    old(self).scene(*editor, *facts),
                    old(self).ladder(*editor, *old(tried)),
                    bundle_name(stderr@),
                    generic_mentions(stderr@),
                    iter,
                );
                batch_view(r) == out && advanced(
                    *editor,
                    *old(self),
                    *old(tried),
                    *final(self),
                    *final(tried),
                    after,
                )
            }),
    {
        let parser = RegexConflictParser::new();
        let mentions = parser.extract_generic_mentions(stderr);
        let pack_name = parser.extract_bundle_name(stderr);
        let pack: Option<&str> = match &pack_name {
            Some(p) => Some(p.as_str()),
            None => None,
        };
        self.repair_mentions_batch(editor, tried, facts, pack, &mentions, iter)
    }

    /// Makes the first repair that a message of no known shape allows.
    pub fn generic_fallback_repair(
        &mut self,
        editor: &ManifestEditor,
        tried: &mut TriedState,
        facts: &Facts,
        stderr: &str,
        iter: u32,
    ) -> (r: Option<(Result<RepairOutcome, String>, Option<PackOverrideWrite>)>)
        ensures
            ({
                let (after, out) = single_result(
                    old(self).scene(*editor, *facts),
                    old(self).ladder(*editor, *old(tried)),
                    bundle_name(stderr@),
                    generic_mentions(stderr@),
                    iter,
                );
                single_view(r) == out && advanced(
                    *editor,
                    *old(self),
                    *old(tried),
                    *final(self),
                    *final(tried),
                    after,
                )
            }),
    {
        let parser = RegexConflictParser::new();
        let mentions = parser.extract_generic_mentions(stderr);
        let pack_name = parser.extract_bundle_name(stderr);
        let pack: Option<&str> = match &pack_name {
            Some(p) => Some(p.as_str()),
            None => None,
        };
        self.repair_mentions(editor, tried, facts, pack, &mentions, iter)
    }
}

// ---------------------------------------------------------------------------
// What candidates do
// ---------------------------------------------------------------------------

/// Whether a candidate is about what a mention states: its package, and in place of its
/// spec.
pub open spec fn replaces(c: CandidateView, m: MentionView) -> bool {
    c.package == m.package && c.old_spec == Some(m.spec)
}

/// Whether a candidate is for the pack that a mention's pin belongs to: the one that
/// requires it, where the workspace composes that, or else the failing one.
pub open spec fn is_for_owner(sc: SceneView, bundle: Seq<char>, c: CandidateView, m: MentionView) -> bool {
    if m.requirer matches Some(r) && is_composed(sc, r) {
        Some(c.pack_name) == m.requirer
    } else {
        c.pack_name == bundle
    }
}

/// Whether a candidate lets a package of a pack stay a wheel.
pub open spec fn lets_stay(c: CandidateView) -> bool {
    c.kind == PackOverrideKind::Unroute && c.new_spec.len() == 0 && c.ownership
        == Ownership::AutoRoutedPackPin
}

/// Whether a cap is one that the message states for a package, or one below a floor that
/// the message states for it.
pub open spec fn is_stated_cap(
    mentions: Seq<MentionView>,
    package: Seq<char>,
    cap: (Seq<char>, Seq<char>),
) -> bool {
    exists|o: MentionView| #[trigger]
        mentions.contains(o) && same_name(o.package, package) && (cap_clause(o.spec) == Some(cap)
            || cap.0 == "<"@ && (emitted_floor(o.spec) == Some(cap.1) || floor_alone(o.spec)
            == Some(cap.1)))
}

/// Whether a candidate of the tiers one to three does what its tier is for, with a mention
/// of the message.
pub open spec fn answers_mention(
    sc: SceneView,
    bundle: Seq<char>,
    mentions: Seq<MentionView>,
    c: CandidateView,
    m: MentionView,
) -> bool {
    &&& mentions.contains(m)
    &&& c.package == m.package
    &&& is_for_owner(sc, bundle, c, m)
    &&& c.kind == PackOverrideKind::Override
    &&& owner_of(sc, Some(c.pack_name), c.package) == c.ownership
    &&& {
        ||| {
            &&& c.tier == 1
            &&& c.ownership == Ownership::AutoRoutedPackPin
            &&& replaces(c, m)
            &&& pin_value(sc, c.pack_name, c.package) matches Some(range) && c.new_spec
                == pep440_range(range)
            &&& c.tried_key == c.package + "@"@ + c.pack_name + "#fallback-range"@
        }
        ||| {
            &&& c.tier == 2
            &&& c.ownership == Ownership::LedgeredOverride
            &&& c.old_spec matches Some(existing) && existing != c.new_spec && (known_dir(
                sc.facts,
                sc.dir,
                c.pack_name,
            ) matches Some(d) && ledgered(sc.facts, d, c.package) == Some(existing)) && exists|
                cap: (Seq<char>, Seq<char>),
            | #[trigger]
                is_stated_cap(mentions, c.package, cap) && intersected(existing, cap.0, cap.1)
                    == Ok::<Seq<char>, Seq<char>>(c.new_spec) && (c.tried_key == c.package + "@"@
                    + c.pack_name + "#fallback-narrow"@ || cap.0 == "<"@ && c.tried_key == c.package
                    + "@"@ + c.pack_name + ("#fallback-narrow@<"@ + cap.1))
        }
        ||| {
            &&& c.tier == 3
            &&& c.ownership == Ownership::DepsFromExactPin
            &&& replaces(c, m)
            &&& first_clause(m.spec) matches Some((_, version)) && c.new_spec == ">="@ + version
            &&& c.tried_key == c.package + "@"@ + c.pack_name + "#fallback-relax"@
        }
    }
}

/// Whether a candidate of the tiers five to nine does what its tier is for: which mentions
/// of the message it rests on, and what becomes of the pack's pin.
pub open spec fn settles_clash(
    sc: SceneView,
    bundle: Seq<char>,
    mentions: Seq<MentionView>,
    c: CandidateView,
    m: MentionView,
    other: MentionView,
) -> bool {
    &&& mentions.contains(m)
    &&& mentions.contains(other)
    &&& {
        ||| {
            &&& c.tier == 5 || c.tier == 6
            &&& lets_stay(c)
            &&& c.pack_name == bundle
            &&& is_anchor(other.package) == (c.tier == 6)
            &&& other.requirer matches Some(r) && same_name(r, c.package)
            &&& replaces(c, m)
            &&& emitted_floor(m.spec) is Some
            &&& owner_of(sc, Some(bundle), c.package) == Ownership::AutoRoutedPackPin
            &&& c.tried_key == c.package + "@"@ + bundle + if c.tier == 5 {
                "#fallback-unroute"@
            } else {
                "#fallback-abi-unroute"@
            }
        }
        ||| {
            &&& c.tier == 7
            &&& c.kind == PackOverrideKind::Override
            &&& c.pack_name == bundle
            &&& replaces(c, m)
            &&& m.requirer matches Some(r) && same_name(r, bundle)
            &&& emitted_floor(m.spec) matches Some(floor) && c.new_spec == ">="@ + floor
            &&& same_name(other.package, m.package)
            &&& other.requirer matches Some(s) && !same_name(s, bundle) && is_composed(sc, s)
            &&& !apart(m.spec, other.spec)
            &&& c.tried_key == c.package + "@"@ + bundle + "#fallback-twopack"@
        }
        ||| {
            &&& c.tier == 8
            &&& lets_stay(c)
            &&& c.package == m.package
            &&& m.requirer matches Some(r) && same_name(r, bundle)
            &&& same_name(other.package, m.package)
            &&& other.requirer matches Some(s) && !same_name(s, bundle) && is_composed(sc, s) && (
            c.pack_name == bundle && c.old_spec == Some(m.spec) || c.pack_name == s && c.old_spec
                == Some(other.spec))
            &&& apart(m.spec, other.spec)
            &&& c.tried_key == c.package + "@"@ + c.pack_name + "#fallback-disjoint-unroute"@
        }
        ||| {
            &&& c.tier == 9
            &&& lets_stay(c)
            &&& m.spec != other.spec
            &&& same_name(m.package, other.package)
            &&& apart(m.spec, other.spec)
            &&& owner_of(sc, Some(c.pack_name), c.package) == Ownership::AutoRoutedPackPin
            &&& c.tried_key == c.package + "@"@ + c.pack_name + "#fallback-transitive-unroute"@
        }
    }
}

/// Whether a candidate does what its tier is for, by what the message states.
pub open spec fn is_justified(
    sc: SceneView,
    bundle: Seq<char>,
    mentions: Seq<MentionView>,
    c: CandidateView,
) -> bool {
    ||| exists|m: MentionView| #[trigger] answers_mention(sc, bundle, mentions, c, m)
    ||| exists|m: MentionView, other: MentionView| #[trigger]
        settles_clash(sc, bundle, mentions, c, m, other)
}

proof fn lemma_filter_all(
    mentions: Seq<MentionView>,
    f: spec_fn(MentionView) -> Option<CandidateView>,
    p: spec_fn(CandidateView) -> bool,
    n: int,
)
    requires
        0 <= n <= mentions.len(),
        forall|m: MentionView| #[trigger] mentions.contains(m) ==> (f(m) matches Some(c) ==> p(c)),
    ensures
        forall|i: int|
            0 <= i < mentions.take(n).filter_map(f).len() ==> p(
                #[trigger] mentions.take(n).filter_map(f)[i],
            ),
    decreases n,
{
    if n > 0 {
        lemma_filter_all(mentions, f, p, n - 1);
        mentions.lemma_filter_map_take_succ(f, n - 1);
        assert(mentions.contains(mentions[n - 1]));
        let before = mentions.take(n - 1).filter_map(f);
        let after = mentions.take(n).filter_map(f);
        assert forall|i: int| 0 <= i < after.len() implies p(#[trigger] after[i]) by {
            if i < before.len() {
                assert(after[i] == before[i]);
            }
        }
    } else {
        assert(mentions.take(0).filter_map(f) =~= Seq::<CandidateView>::empty());
    }
}

proof fn lemma_flat_all(
    mentions: Seq<MentionView>,
    f: spec_fn(MentionView) -> Seq<CandidateView>,
    p: spec_fn(CandidateView) -> bool,
    n: int,
)
    requires
        0 <= n <= mentions.len(),
        forall|m: MentionView, i: int| #[trigger]
            mentions.contains(m) && 0 <= i < f(m).len() ==> p(#[trigger] f(m)[i]),
    ensures
        forall|i: int|
            0 <= i < mentions.take(n).flat_map(f).len() ==> p(
                #[trigger] mentions.take(n).flat_map(f)[i],
            ),
    decreases n,
{
    if n > 0 {
        lemma_flat_all(mentions, f, p, n - 1);
        mentions.lemma_flat_map_take_append(f, n - 1);
        assert(mentions.contains(mentions[n - 1]));
        let before = mentions.take(n - 1).flat_map(f);
        let after = mentions.take(n).flat_map(f);
        assert forall|i: int| 0 <= i < after.len() implies p(#[trigger] after[i]) by {
            if i < before.len() {
                assert(after[i] == before[i]);
            } else {
                assert(after[i] == f(mentions[n - 1])[i - before.len()]);
            }
        }
    } else {
        assert(mentions.take(0).flat_map(f) =~= Seq::<CandidateView>::empty());
    }
}

proof fn lemma_tiers_all(all: Seq<CandidateView>, p: spec_fn(CandidateView) -> bool, tier: int)
    requires
        forall|i: int| 0 <= i < all.len() ==> p(#[trigger] all[i]),
    ensures
        forall|i: int| 0 <= i < of_tier(all, tier).len() ==> p(#[trigger] of_tier(all, tier)[i]),
    decreases all.len(),
{
    if all.len() > 0 {
        assert(p(all[all.len() - 1]));
        assert forall|i: int| 0 <= i < all.drop_last().len() implies p(
            #[trigger] all.drop_last()[i],
        ) by {
            assert(all.drop_last()[i] == all[i]);
        }
        lemma_tiers_all(all.drop_last(), p, tier);
        let before = of_tier(all.drop_last(), tier);
        let after = of_tier(all, tier);
        assert forall|i: int| 0 <= i < after.len() implies p(#[trigger] after[i]) by {
            if i < before.len() {
                assert(after[i] == before[i]);
            } else {
                assert(after[i] == all[all.len() - 1]);
            }
        }
    }
}

proof fn lemma_up_to_all(all: Seq<CandidateView>, p: spec_fn(CandidateView) -> bool, top: int)
    requires
        forall|i: int| 0 <= i < all.len() ==> p(#[trigger] all[i]),
    ensures
        forall|i: int| 0 <= i < up_to_tier(all, top).len() ==> p(#[trigger] up_to_tier(all, top)[i]),
    decreases top,
{
    if top > 0 {
        lemma_up_to_all(all, p, top - 1);
        lemma_tiers_all(all, p, top);
        let before = up_to_tier(all, top - 1);
        let last = of_tier(all, top);
        let after = up_to_tier(all, top);
        assert forall|i: int| 0 <= i < after.len() implies p(#[trigger] after[i]) by {
            if i < before.len() {
                assert(after[i] == before[i]);
            } else {
                assert(after[i] == last[i - before.len()]);
            }
        }
    }
}

proof fn lemma_repeats_all(all: Seq<CandidateView>, p: spec_fn(CandidateView) -> bool)
    requires
        forall|i: int| 0 <= i < all.len() ==> p(#[trigger] all[i]),
    ensures
        forall|i: int| 0 <= i < without_repeats(all).len() ==> p(#[trigger] without_repeats(all)[i]),
    decreases all.len(),
{
    if all.len() > 0 {
        assert(p(all[all.len() - 1]));
        assert forall|i: int| 0 <= i < all.drop_last().len() implies p(
            #[trigger] all.drop_last()[i],
        ) by {
            assert(all.drop_last()[i] == all[i]);
        }
        lemma_repeats_all(all.drop_last(), p);
        let before = without_repeats(all.drop_last());
        let after = without_repeats(all);
        assert forall|i: int| 0 <= i < after.len() implies p(#[trigger] after[i]) by {
            if i < before.len() {
                assert(after[i] == before[i]);
            } else {
                assert(after[i] == all[all.len() - 1]);
            }
        }
    }
}

proof fn lemma_caps_stated(mentions: Seq<MentionView>, m: MentionView, i: int)
    requires
        mentions.contains(m),
        0 <= i < visible_caps(mentions, m).len(),
    ensures
        is_stated_cap(mentions, m.package, visible_caps(mentions, m)[i]),
{
    let f = |o: MentionView|
        if same_name(o.package, m.package) && o.spec != m.spec {
            cap_clause(o.spec)
        } else {
            None
        };
    let caps = visible_caps(mentions, m);
    if cap_clause(m.spec) is Some && i == 0 {
        assert(caps[0] == cap_clause(m.spec)->0);
    } else {
        let skip: int = if cap_clause(m.spec) is Some {
            1
        } else {
            0
        };
        assert(mentions.take(mentions.len() as int) =~= mentions);
        lemma_caps_from(mentions, m.package, f, mentions.len() as int);
        assert(caps[i] == mentions.filter_map(f)[i - skip]);
    }
}

proof fn lemma_caps_from(
    mentions: Seq<MentionView>,
    package: Seq<char>,
    f: spec_fn(MentionView) -> Option<(Seq<char>, Seq<char>)>,
    n: int,
)
    requires
        0 <= n <= mentions.len(),
        forall|o: MentionView| (#[trigger] f(o)) matches Some(cap) ==> same_name(o.package, package)
            && cap_clause(o.spec) == Some(cap),
    ensures
        forall|i: int|
            0 <= i < mentions.take(n).filter_map(f).len() ==> is_stated_cap(
                mentions,
                package,
                #[trigger] mentions.take(n).filter_map(f)[i],
            ),
    decreases n,
{
    if n > 0 {
        lemma_caps_from(mentions, package, f, n - 1);
        mentions.lemma_filter_map_take_succ(f, n - 1);
        assert(mentions.contains(mentions[n - 1]));
        match f(mentions[n - 1]) {
            Some(cap) => {
                assert(is_stated_cap(mentions, package, cap));
            },
            None => {},
        }
    } else {
        assert(mentions.take(0).filter_map(f) =~= Seq::<(Seq<char>, Seq<char>)>::empty());
    }
}

proof fn lemma_first_narrowing(
    existing: Seq<char>,
    caps: Seq<(Seq<char>, Seq<char>)>,
    from: int,
)
    requires
        0 <= from,
    ensures
        first_narrowing(existing, caps, from) matches Some((cap, narrowed)) ==> narrowed != existing
            && intersected(existing, cap.0, cap.1) == Ok::<Seq<char>, Seq<char>>(narrowed) && exists|
            i: int,
        | 0 <= i < caps.len() && #[trigger] caps[i] == cap,
    decreases caps.len() - from,
{
    if from < caps.len() {
        lemma_first_narrowing(existing, caps, from + 1);
        assert(caps[from] == caps[from]);
    }
}

proof fn lemma_owned_justified(
    sc: SceneView,
    bundle: Seq<char>,
    mentions: Seq<MentionView>,
    m: MentionView,
)
    requires
        mentions.contains(m),
    ensures
        owned_candidate(sc, bundle, mentions, m) matches Some(c) ==> is_justified(
            sc,
            bundle,
            mentions,
            c,
        ),
{
    match owned_candidate(sc, bundle, mentions, m) {
        None => {},
        Some(c) => {
            let owner = mention_pack(sc, bundle, m);
            if owner_of(sc, Some(owner), m.package) == Ownership::LedgeredOverride {
                let d = known_dir(sc.facts, sc.dir, owner)->0;
                let existing = ledgered(sc.facts, d, m.package)->0;
                let caps = visible_caps(mentions, m);
                lemma_first_narrowing(existing, caps, 0);
                match first_narrowing(existing, caps, 0) {
                    Some((cap, narrowed)) => {
                        let i = choose|i: int| 0 <= i < caps.len() && #[trigger] caps[i] == cap;
                        lemma_caps_stated(mentions, m, i);
                        assert(is_stated_cap(mentions, c.package, cap));
                    },
                    None => {
                        let floor = failing_floor(mentions, m)->0;
                        assert(is_stated_cap(mentions, c.package, ("<"@, floor)));
                    },
                }
            }
            assert(answers_mention(sc, bundle, mentions, c, m));
        },
    }
}

proof fn lemma_emitted(mentions: Seq<MentionView>, name: Seq<char>, from: int)
    requires
        0 <= from,
    ensures
        emitted_from(mentions, name, from) matches Some(req) ==> mentions.contains(req)
            && same_name(req.package, name) && emitted_floor(req.spec) is Some,
    decreases mentions.len() - from,
{
    if from < mentions.len() {
        lemma_emitted(mentions, name, from + 1);
        assert(mentions.contains(mentions[from]));
    }
}

proof fn lemma_own_emitted(mentions: Seq<MentionView>, name: Seq<char>, pack: Seq<char>, from: int)
    requires
        0 <= from,
    ensures
        own_emitted_from(mentions, name, pack, from) matches Some(req) ==> mentions.contains(req)
            && same_name(req.package, name) && emitted_floor(req.spec) is Some,
    decreases mentions.len() - from,
{
    if from < mentions.len() {
        lemma_own_emitted(mentions, name, pack, from + 1);
        assert(mentions.contains(mentions[from]));
    }
}

proof fn lemma_sibling(
    sc: SceneView,
    mentions: Seq<MentionView>,
    name: Seq<char>,
    pack: Seq<char>,
    from: int,
)
    requires
        0 <= from,
    ensures
        sibling_from(sc, mentions, name, pack, from) matches Some(s) ==> mentions.contains(s)
            && same_name(s.package, name) && required_by_sibling(sc, s, pack),
    decreases mentions.len() - from,
{
    if from < mentions.len() {
        lemma_sibling(sc, mentions, name, pack, from + 1);
        assert(mentions.contains(mentions[from]));
    }
}

proof fn lemma_clash_justified(
    sc: SceneView,
    bundle: Seq<char>,
    mentions: Seq<MentionView>,
    m: MentionView,
)
    requires
        mentions.contains(m),
    ensures
        skew_candidate(sc, bundle, mentions, m) matches Some(c) ==> is_justified(
            sc,
            bundle,
            mentions,
            c,
        ),
        anchor_candidate(sc, bundle, mentions, m) matches Some(c) ==> is_justified(
            sc,
            bundle,
            mentions,
            c,
        ),
        forall|i: int|
            0 <= i < clash_candidates(sc, bundle, mentions, m).len() ==> is_justified(
                sc,
                bundle,
                mentions,
                #[trigger] clash_candidates(sc, bundle, mentions, m)[i],
            ),
{
    reveal_strlit("");
    match skew_candidate(sc, bundle, mentions, m) {
        Some(c) => {
            lemma_emitted(mentions, m.requirer->0, 0);
            let req = emitted_from(mentions, m.requirer->0, 0)->0;
            assert(settles_clash(sc, bundle, mentions, c, req, m));
        },
        None => {},
    }
    match anchor_candidate(sc, bundle, mentions, m) {
        Some(c) => {
            lemma_own_emitted(mentions, m.requirer->0, bundle, 0);
            let req = own_emitted_from(mentions, m.requirer->0, bundle, 0)->0;
            assert(settles_clash(sc, bundle, mentions, c, req, m));
        },
        None => {},
    }
    let clashes = clash_candidates(sc, bundle, mentions, m);
    lemma_sibling(sc, mentions, m.package, bundle, 0);
    assert forall|i: int| 0 <= i < clashes.len() implies is_justified(
        sc,
        bundle,
        mentions,
        #[trigger] clashes[i],
    ) by {
        let s = sibling_from(sc, mentions, m.package, bundle, 0)->0;
        assert(settles_clash(sc, bundle, mentions, clashes[i], m, s));
    }
}

proof fn lemma_row_justified(
    sc: SceneView,
    bundle: Seq<char>,
    mentions: Seq<MentionView>,
    i: int,
    end: int,
)
    requires
        0 <= i,
        end <= mentions.len(),
    ensures
        forall|k: int|
            0 <= k < transitive_row(sc, mentions, i, end).len() ==> is_justified(
                sc,
                bundle,
                mentions,
                #[trigger] transitive_row(sc, mentions, i, end)[k],
            ),
    decreases end - i,
{
    reveal_strlit("");
    if end > i + 1 {
        lemma_row_justified(sc, bundle, mentions, i, end - 1);
        let before = transitive_row(sc, mentions, i, end - 1);
        let after = transitive_row(sc, mentions, i, end);
        match transitive_candidate(sc, mentions, i, end - 1) {
            Some(c) => {
                assert(mentions.contains(mentions[i]));
                assert(mentions.contains(mentions[end - 1]));
                assert(settles_clash(sc, bundle, mentions, c, mentions[i], mentions[end - 1]));
                assert(after == before.push(c));
            },
            None => {},
        }
        assert forall|k: int| 0 <= k < after.len() implies is_justified(
            sc,
            bundle,
            mentions,
            #[trigger] after[k],
        ) by {
            if k < before.len() {
                assert(after[k] == before[k]);
            }
        }
    }
}

proof fn lemma_rows_justified(
    sc: SceneView,
    bundle: Seq<char>,
    mentions: Seq<MentionView>,
    count: int,
)
    requires
        count <= mentions.len(),
    ensures
        forall|k: int|
            0 <= k < transitive_rows(sc, mentions, count).len() ==> is_justified(
                sc,
                bundle,
                mentions,
                #[trigger] transitive_rows(sc, mentions, count)[k],
            ),
    decreases count,
{
    if count > 0 {
        lemma_rows_justified(sc, bundle, mentions, count - 1);
        lemma_row_justified(sc, bundle, mentions, count - 1, mentions.len() as int);
        let before = transitive_rows(sc, mentions, count - 1);
        let row = transitive_row(sc, mentions, count - 1, mentions.len() as int);
        let after = transitive_rows(sc, mentions, count);
        assert forall|k: int| 0 <= k < after.len() implies is_justified(
            sc,
            bundle,
            mentions,
            #[trigger] after[k],
        ) by {
            if k < before.len() {
                assert(after[k] == before[k]);
            } else {
                assert(after[k] == row[k - before.len()]);
            }
        }
    }
}

proof fn lemma_found_justified(sc: SceneView, bundle: Seq<char>, mentions: Seq<MentionView>)
    ensures
        forall|i: int|
            0 <= i < found_candidates(sc, bundle, mentions).len() ==> is_justified(
                sc,
                bundle,
                mentions,
                #[trigger] found_candidates(sc, bundle, mentions)[i],
            ),
{
    let n = mentions.len() as int;
    let p = |c: CandidateView| is_justified(sc, bundle, mentions, c);
    let owned = |m: MentionView| owned_candidate(sc, bundle, mentions, m);
    let skew = |m: MentionView| skew_candidate(sc, bundle, mentions, m);
    let anchor = |m: MentionView| anchor_candidate(sc, bundle, mentions, m);
    let clash = |m: MentionView| clash_candidates(sc, bundle, mentions, m);
    assert(mentions.take(n) =~= mentions);
    assert forall|m: MentionView| #[trigger] mentions.contains(m) implies (owned(m) matches Some(c)
        ==> p(c)) && (skew(m) matches Some(c) ==> p(c)) && (anchor(m) matches Some(c) ==> p(c)) by {
        lemma_owned_justified(sc, bundle, mentions, m);
        lemma_clash_justified(sc, bundle, mentions, m);
    }
    assert forall|m: MentionView, i: int| #[trigger]
        mentions.contains(m) && 0 <= i < clash(m).len() implies p(#[trigger] clash(m)[i]) by {
        lemma_clash_justified(sc, bundle, mentions, m);
    }
    lemma_filter_all(mentions, owned, p, n);
    lemma_filter_all(mentions, skew, p, n);
    lemma_filter_all(mentions, anchor, p, n);
    lemma_flat_all(mentions, clash, p, n);
    lemma_rows_justified(sc, bundle, mentions, n);
    let found = found_candidates(sc, bundle, mentions);
    assert forall|i: int| 0 <= i < found.len() implies is_justified(
        sc,
        bundle,
        mentions,
        #[trigger] found[i],
    ) by {
        let a = mentions.filter_map(owned);
        let b = mentions.filter_map(skew);
        let c = mentions.filter_map(anchor);
        let d = mentions.flat_map(clash);
        let e = transitive_rows(sc, mentions, n);
        if i < a.len() {
            assert(p(a[i]));
        } else if i < a.len() + b.len() {
            assert(p(b[i - a.len()]));
        } else if i < a.len() + b.len() + c.len() {
            assert(p(c[i - a.len() - b.len()]));
        } else if i < a.len() + b.len() + c.len() + d.len() {
            assert(p(d[i - a.len() - b.len() - c.len()]));
        } else {
            assert(found[i] == e[i - a.len() - b.len() - c.len() - d.len()]);
        }
    }
}

/// Every candidate does what its tier is for, by what the message states. A pack's own pin
/// gives way to the workspace's range; an override that is recorded is narrowed by a cap
/// that is stated; an exact pin of upstream requirements becomes a bare floor at the
/// mentioned version; a pin that two packs have becomes a floor at its own version, or,
/// where no version meets both, the package stays a wheel; and so it does where what it
/// requires cannot be had.
pub proof fn law_candidates_do_what_their_tier_is_for(
    sc: SceneView,
    bundle: Seq<char>,
    mentions: Seq<MentionView>,
    i: int,
)
    requires
        0 <= i < candidates_of(sc, Some(bundle), mentions).len(),
    ensures
        is_justified(sc, bundle, mentions, candidates_of(sc, Some(bundle), mentions)[i]),
{
    let p = |c: CandidateView| is_justified(sc, bundle, mentions, c);
    let found = found_candidates(sc, bundle, mentions);
    lemma_found_justified(sc, bundle, mentions);
    assert forall|k: int| 0 <= k < found.len() implies p(#[trigger] found[k]) by {}
    lemma_up_to_all(found, p, 9);
    lemma_repeats_all(up_to_tier(found, 9), p);
    assert(p(candidates_of(sc, Some(bundle), mentions)[i]));
}

/// A candidate that relaxes an exact pin of upstream requirements states a floor and
/// nothing more: the mentioned version, without any other bound.
pub proof fn law_relaxed_pin_is_a_floor(
    sc: SceneView,
    bundle: Seq<char>,
    mentions: Seq<MentionView>,
    i: int,
)
    requires
        0 <= i < candidates_of(sc, Some(bundle), mentions).len(),
        candidates_of(sc, Some(bundle), mentions)[i].tier == 3,
    ensures
        ({
            let c = candidates_of(sc, Some(bundle), mentions)[i];
            exists|m: MentionView|
                {
                    &&& #[trigger] mentions.contains(m)
                    &&& c.package == m.package
                    &&& c.old_spec == Some(m.spec)
                    &&& first_clause(m.spec) matches Some((_, version)) && c.new_spec == ">="@
                        + version && c.new_spec.skip(2) == version
                }
        }),
{
    let c = candidates_of(sc, Some(bundle), mentions)[i];
    law_candidates_do_what_their_tier_is_for(sc, bundle, mentions, i);
    let m = choose|m: MentionView| #[trigger] answers_mention(sc, bundle, mentions, c, m);
    let version = (first_clause(m.spec)->0).1;
    reveal_strlit(">=");
    assert((">="@ + version).skip(2) =~= version);
    assert(mentions.contains(m));
}

proof fn lemma_of_tier_has(all: Seq<CandidateView>, tier: int, i: int)
    requires
        0 <= i < all.len(),
        all[i].tier == tier,
    ensures
        of_tier(all, tier).contains(all[i]),
    decreases all.len(),
{
    let rest = all.drop_last();
    let after = of_tier(all, tier);
    let before = of_tier(rest, tier);
    if i < rest.len() {
        lemma_of_tier_has(rest, tier, i);
        let k = choose|k: int| 0 <= k < before.len() && before[k] == rest[i];
        assert(after[k] == all[i]);
    } else {
        assert(after[before.len() as int] == all[i]);
    }
}

proof fn lemma_up_to_tier_has(all: Seq<CandidateView>, top: int, i: int)
    requires
        0 <= i < all.len(),
        1 <= all[i].tier <= top,
    ensures
        up_to_tier(all, top).contains(all[i]),
    decreases top,
{
    let before = up_to_tier(all, top - 1);
    let last = of_tier(all, top);
    let after = up_to_tier(all, top);
    if all[i].tier == top {
        lemma_of_tier_has(all, top, i);
        let k = choose|k: int| 0 <= k < last.len() && last[k] == all[i];
        assert(after[before.len() + k] == all[i]);
    } else {
        lemma_up_to_tier_has(all, top - 1, i);
        let k = choose|k: int| 0 <= k < before.len() && before[k] == all[i];
        assert(after[k] == all[i]);
    }
}

proof fn lemma_repeats_stand(all: Seq<CandidateView>, i: int)
    requires
        0 <= i < all.len(),
    ensures
        exists|k: int|
            0 <= k < without_repeats(all).len() && same_candidate(
                #[trigger] without_repeats(all)[k],
                all[i],
            ),
    decreases all.len(),
{
    let rest = all.drop_last();
    let before = without_repeats(rest);
    let after = without_repeats(all);
    if i < rest.len() {
        lemma_repeats_stand(rest, i);
        let k = choose|k: int|
            0 <= k < before.len() && same_candidate(#[trigger] before[k], rest[i]);
        assert(after[k] == before[k]);
    } else if before.len() > 0 && same_candidate(before.last(), all.last()) {
        assert(same_candidate(after[before.len() - 1], all[i]));
    } else {
        assert(after[before.len() as int] == all[i]);
    }
}

proof fn lemma_filter_has(
    mentions: Seq<MentionView>,
    f: spec_fn(MentionView) -> Option<CandidateView>,
    n: int,
    at: int,
)
    requires
        0 <= at < n <= mentions.len(),
        f(mentions[at]) is Some,
    ensures
        mentions.take(n).filter_map(f).contains(f(mentions[at])->0),
    decreases n,
{
    mentions.lemma_filter_map_take_succ(f, n - 1);
    let before = mentions.take(n - 1).filter_map(f);
    let after = mentions.take(n).filter_map(f);
    if at < n - 1 {
        lemma_filter_has(mentions, f, n - 1, at);
        let k = choose|k: int| 0 <= k < before.len() && before[k] == f(mentions[at])->0;
        assert(after[k] == f(mentions[at])->0);
    } else {
        assert(after[before.len() as int] == f(mentions[at])->0);
    }
}

/// An exact pin of upstream requirements that a message mentions is relaxed, where the
/// pack that it belongs to is known and has it, and no exact pin of the user's own stands
/// in its way: there is a candidate for it.
#[verifier::rlimit(50)]
pub proof fn law_upstream_pins_are_candidates(
    sc: SceneView,
    bundle: Seq<char>,
    mentions: Seq<MentionView>,
    at: int,
    pack: Seq<char>,
)
    requires
        0 <= at < mentions.len(),
        if mentions[at].requirer matches Some(r) && is_composed(sc, r) {
            Some(pack) == mentions[at].requirer
        } else {
            pack == bundle
        },
        known_dir(sc.facts, sc.dir, pack) is Some,
        owner_of(sc, Some(pack), mentions[at].package) == Ownership::DepsFromExactPin,
        !family_exact_pin_governs(sc, pack, mentions[at].package),
        first_clause(mentions[at].spec) is Some,
    ensures
        exists|k: int|
            {
                let c = candidates_of(sc, Some(bundle), mentions)[k];
                &&& 0 <= k < candidates_of(sc, Some(bundle), mentions).len()
                &&& (#[trigger] candidates_of(sc, Some(bundle), mentions)[k]).tier == 3
                &&& c.package == mentions[at].package
                &&& c.pack_name == pack
            },
{
    let n = mentions.len() as int;
    let owned = |m: MentionView| owned_candidate(sc, bundle, mentions, m);
    let c = owned_candidate(sc, bundle, mentions, mentions[at])->0;
    assert(mention_pack(sc, bundle, mentions[at]) == pack);
    assert(owned(mentions[at]) is Some);
    lemma_filter_has(mentions, owned, n, at);
    assert(mentions.take(n) =~= mentions);
    let a = mentions.filter_map(owned);
    let found = found_candidates(sc, bundle, mentions);
    let i = choose|i: int| 0 <= i < a.len() && a[i] == c;
    assert(found[i] == c);
    lemma_up_to_tier_has(found, 9, i);
    let by = up_to_tier(found, 9);
    let j = choose|j: int| 0 <= j < by.len() && by[j] == c;
    lemma_repeats_stand(by, j);
    let all = candidates_of(sc, Some(bundle), mentions);
    let k = choose|k: int| 0 <= k < all.len() && same_candidate(#[trigger] all[k], by[j]);
    assert(all[k].tier == 3);
}

/// Whether what was made is a candidate's: the write is for its pack, its package and its
/// spec, and what is recorded is the spec that it replaces and the one that it makes, or
/// that the package is kept a wheel.
pub open spec fn makes(
    sc: SceneView,
    c: CandidateView,
    iter: u32,
    out: OutcomeView,
    w: WriteView,
) -> bool {
    &&& w.bundle == c.pack_name
    &&& pack_manifest(sc.facts, sc.dir, c.pack_name) == Some(w.pack_pixi)
    &&& w.package == c.package
    &&& w.spec == c.new_spec
    &&& w.kind == c.kind
    &&& out.attempt.iter == iter
    &&& out.attempt.package == c.package
    &&& out.attempt.version == c.old_spec
    &&& out.attempt.old_spec == c.old_spec
    &&& out.attempt.new_spec == Some(
        if c.kind == PackOverrideKind::Override {
            c.new_spec
        } else {
            "keep-pypi"@
        },
    )
    &&& out.attempt.strategy == "pypi_override"@
    &&& out.attempt.conflict == "GenericFallback"@
    &&& !out.attempt.failed
    &&& out.applied.len() == 0
}

/// Whether a candidate was tried, or begun with what it makes.
pub open spec fn is_spent(st: LadderView, c: CandidateView) -> bool {
    let made = if c.kind == PackOverrideKind::Override {
        c.new_spec
    } else {
        "unroute:"@ + c.package
    };
    st.tried.contains((c.tried_key, Strategy::PypiOverride)) || st.attempts.contains(
        (c.tried_key, made, Strategy::PypiOverride),
    )
}

proof fn lemma_first_applied(
    sc: SceneView,
    st: LadderView,
    now: LadderView,
    candidates: Seq<CandidateView>,
    iter: u32,
    from: int,
)
    requires
        0 <= from,
        st.tried.subset_of(now.tried),
        st.attempts.subset_of(now.attempts),
        now.nodes == st.nodes,
        forall|k: int|
            0 <= k < from && k < candidates.len() ==> is_spent(now, #[trigger] candidates[k]),
    ensures
        ({
            let (after, out) = first_applied(sc, now, candidates, iter, from);
            &&& after.nodes == st.nodes
            &&& out matches Some((o, w)) ==> exists|k: int|
                {
                    &&& from <= k < candidates.len()
                    &&& makes(sc, #[trigger] candidates[k], iter, o, w)
                    &&& !is_spent(st, candidates[k])
                    &&& is_spent(after, candidates[k])
                }
            &&& out is None ==> forall|k: int|
                from <= k < candidates.len() && !is_spent(st, #[trigger] candidates[k])
                    ==> is_spent(after, candidates[k])
            &&& now.tried.subset_of(after.tried)
            &&& now.attempts.subset_of(after.attempts)
        }),
    decreases candidates.len() - from,
{
    if from < candidates.len() {
        let c = candidates[from];
        let (next, out) = candidate_step(now, c, iter, sc.facts.now);
        assert(is_spent(next, c)) by {
            assert(begun_spec(c) == if c.kind == PackOverrideKind::Override {
                c.new_spec
            } else {
                "unroute:"@ + c.package
            });
        }
        assert forall|k: int| 0 <= k < from + 1 && k < candidates.len() implies is_spent(
            next,
            #[trigger] candidates[k],
        ) by {
            if k < from {
                assert(is_spent(now, candidates[k]));
            }
        }
        match (out, pack_manifest(sc.facts, sc.dir, c.pack_name)) {
            (Some(o), Some(pixi)) => {
                assert(makes(sc, candidates[from], iter, o, candidate_write(c, pixi)));
            },
            _ => {
                lemma_first_applied(sc, st, next, candidates, iter, from + 1);
                let (after, last) = first_applied(sc, next, candidates, iter, from + 1);
                if last is None {
                    assert forall|k: int|
                        from <= k < candidates.len() && !is_spent(
                            st,
                            #[trigger] candidates[k],
                        ) implies is_spent(after, candidates[k]) by {
                        if k == from {
                            assert(is_spent(next, candidates[k]));
                        }
                    }
                }
            },
        }
    }
}

/// Where one repair is made at a time, what is made is one of the candidates, as it
/// stands, that was not spent before and is now; and the manifest stays as it was.
pub proof fn law_repair_of_a_mention_is_a_candidate(
    sc: SceneView,
    st: LadderView,
    pack_name: Option<Seq<char>>,
    mentions: Seq<MentionView>,
    iter: u32,
)
    ensures
        ({
            let candidates = candidates_of(sc, pack_name, mentions);
            let (after, out) = single_result(sc, st, pack_name, mentions, iter);
            &&& after.nodes == st.nodes
            &&& out is None <==> mentions.len() == 0 || candidates.len() == 0
            &&& out matches Some((Ok(o), Some(w))) ==> exists|k: int|
                {
                    &&& 0 <= k < candidates.len()
                    &&& makes(sc, #[trigger] candidates[k], iter, o, w)
                    &&& !is_spent(st, candidates[k])
                    &&& is_spent(after, candidates[k])
                }
            &&& out matches Some((Err(e), w)) ==> e == candidates[0].package && w is None
            &&& out matches Some((Ok(_), w)) ==> w is Some
        }),
{
    lemma_first_applied(sc, st, st, candidates_of(sc, pack_name, mentions), iter, 0);
}

/// Every repair of a batch is one of the candidates, as it stands.
pub proof fn law_batch_makes_candidates(
    sc: SceneView,
    st: LadderView,
    candidates: Seq<CandidateView>,
    iter: u32,
    i: int,
)
    requires
        0 <= i < batch_of(sc, st, candidates, iter).applied.len(),
    ensures
        ({
            let (o, w) = batch_of(sc, st, candidates, iter).applied[i];
            w is Some && exists|k: int|
                {
                    &&& 0 <= k < candidates.len()
                    &&& makes(sc, #[trigger] candidates[k], iter, o, w->0)
                    &&& !is_spent(st, candidates[k])
                }
        }),
    decreases candidates.len(),
{
    let rest = candidates.drop_last();
    let before = batch_of(sc, st, rest, iter);
    let c = candidates.last();
    let (o, w) = batch_of(sc, st, candidates, iter).applied[i];
    if i < before.applied.len() {
        law_batch_makes_candidates(sc, st, rest, iter, i);
        let k = choose|k: int|
            {
                &&& 0 <= k < rest.len()
                &&& makes(sc, #[trigger] rest[k], iter, o, w->0)
                &&& !is_spent(st, rest[k])
            };
        assert(candidates[k] == rest[k]);
    } else {
        law_batch_only_adds(sc, st, rest, iter);
        assert(candidates[candidates.len() - 1] == c);
        assert(begun_spec(c) == if c.kind == PackOverrideKind::Override {
            c.new_spec
        } else {
            "unroute:"@ + c.package
        });
        assert(makes(sc, candidates[candidates.len() - 1], iter, o, w->0));
    }
}

} // verus!
