//! Who owns a pin that a message mentions: the workspace, a pack, or nobody here.
use crate::solve::document::Nodes;
use crate::solve::ledger::TableKind;
use crate::solve::manifest::{has_sentinel, snapshot, user_entry, ManifestEditor};
use crate::solve::parse::{Mention, MentionView};
use crate::solve::repair::{is_abi_anchor, is_anchor, RepairPlanner};
use crate::solve::workspace::{
    conda_name_family, find_key, known_dir, ledgered, lookup, name_family, owns_exact_pin,
    pack_feature, resolve_pack_feature, EnvironmentDef, EnvironmentView, Facts, FactsView,
    WorkspaceManifest, WorkspaceView,
};
use crate::text::{
    eq_ignore_ascii_case, holds_text, lower, lowered, push_view, same_name, starts_with, trim_start,
    trimmed_start,
};
use vstd::prelude::*;

verus! {

broadcast use vstd::seq_lib::group_seq_properties;

/// What the search for an owner reads.
#[verifier::ext_equal]
pub struct SceneView {
    pub nodes: Nodes,
    pub features: Seq<Seq<char>>,
    pub dir: Seq<char>,
    pub names: Seq<(Seq<char>, Seq<Seq<char>>)>,
    pub facts: FactsView,
}

/// What can be done about a mentioned package, by who owns its pin.
#[derive(Debug, Clone, Copy, PartialEq, Eq, Structural)]
pub enum Ownership {
    /// An exact pin of a pack's upstream requirements: an advice that may be
    /// relaxed.
    DepsFromExactPin,
    /// A pin that a pack emits for a package it routes to conda.
    AutoRoutedPackPin,
    /// An override that an earlier repair recorded.
    LedgeredOverride,
    /// An entry of the workspace's manifest: what the user wants.
    WorkspacePin,
    /// A package that fixes the interface to the machine.
    AbiAnchor,
    /// Nobody here.
    Unowned,
}

/// The name of an ownership.
pub open spec fn ownership_name(o: Ownership) -> Seq<char> {
    match o {
        Ownership::DepsFromExactPin => "deps-from-exact-pin"@,
        Ownership::AutoRoutedPackPin => "auto-routed-pack-pin"@,
        Ownership::LedgeredOverride => "ledgered-override"@,
        Ownership::WorkspacePin => "workspace-pin"@,
        Ownership::AbiAnchor => "abi-anchor"@,
        Ownership::Unowned => "unowned"@,
    }
}

impl Ownership {
    /// The name of the ownership.
    pub fn as_str(self) -> (r: &'static str)
        ensures
            r@ == ownership_name(self),
    {
        match self {
            Ownership::DepsFromExactPin => "deps-from-exact-pin",
            Ownership::AutoRoutedPackPin => "auto-routed-pack-pin",
            Ownership::LedgeredOverride => "ledgered-override",
            Ownership::WorkspacePin => "workspace-pin",
            Ownership::AbiAnchor => "abi-anchor",
            Ownership::Unowned => "unowned",
        }
    }
}

// ---------------------------------------------------------------------------
// Pins of the workspace
// ---------------------------------------------------------------------------

/// Whether the user pins a package in a feature, as conda package or as wheel.
pub open spec fn pinned_in(nodes: Nodes, feature: Seq<char>, package: Seq<char>) -> bool {
    user_entry(nodes, feature, TableKind::Conda, package) || user_entry(
        nodes,
        feature,
        TableKind::Pypi,
        package,
    )
}

/// Whether the user pins a package in one of `features`.
pub open spec fn pinned_in_any(nodes: Nodes, features: Seq<Seq<char>>, package: Seq<char>) -> bool {
    exists|i: int| 0 <= i < features.len() && pinned_in(nodes, #[trigger] features[i], package)
}

/// Whether the workspace composes a pack of this name.
pub open spec fn is_composed(sc: SceneView, name: Seq<char>) -> bool {
    known_dir(sc.facts, sc.dir, name) is Some
}

/// The features that depend on the pack.
pub open spec fn composing_features(ws: WorkspaceView, pack: Seq<char>) -> Seq<Seq<char>> {
    ws.features.filter_map(
        |f: (Seq<char>, Seq<(Seq<char>, Seq<char>)>)|
            if lookup(f.1, pack) is Some {
                Some(f.0)
            } else {
                None
            },
    )
}

/// The features whose entries an environment takes.
pub open spec fn environment_scope(e: EnvironmentView) -> Seq<Seq<char>> {
    if e.no_default_feature {
        e.features
    } else {
        e.features.push("default"@)
    }
}

/// Whether an environment takes the pack in.
pub open spec fn environment_composes(ws: WorkspaceView, pack: Seq<char>, e: EnvironmentView) -> bool {
    (exists|i: int|
        0 <= i < e.features.len() && composing_features(ws, pack).contains(
            #[trigger] e.features[i],
        )) || (lookup(ws.path_dependencies, pack) is Some && !e.no_default_feature)
}

/// The features of the environments among `envs` that take the pack in.
pub open spec fn scopes_of(
    ws: WorkspaceView,
    pack: Seq<char>,
    envs: Seq<(Seq<char>, EnvironmentView)>,
) -> Seq<Seq<char>>
    decreases envs.len(),
{
    if envs.len() == 0 {
        Seq::empty()
    } else {
        let before = scopes_of(ws, pack, envs.drop_last());
        if environment_composes(ws, pack, envs.last().1) {
            before + environment_scope(envs.last().1)
        } else {
            before
        }
    }
}

/// The features whose entries bear on a pack: those of the environments that take
/// it in, or where no environment does, those that depend on it.
pub open spec fn governing_features(ws: WorkspaceView, pack: Seq<char>) -> Seq<Seq<char>> {
    let scopes = scopes_of(ws, pack, ws.environments);
    if scopes.len() > 0 {
        scopes
    } else if lookup(ws.path_dependencies, pack) is Some {
        composing_features(ws, pack).push("default"@)
    } else {
        composing_features(ws, pack)
    }
}

/// Whether a pin of the user's own bears on a pack. Where the workspace or the
/// pack is not known, any pin does.
pub open spec fn pin_governs(sc: SceneView, pack: Seq<char>, package: Seq<char>) -> bool {
    match sc.facts.workspace {
        None => pinned_in_any(sc.nodes, sc.features, package),
        Some(ws) => if composing_features(ws, pack).len() == 0 && lookup(
            ws.path_dependencies,
            pack,
        ) is None {
            pinned_in_any(sc.nodes, sc.features, package)
        } else {
            pinned_in_any(sc.nodes, governing_features(ws, pack), package)
        },
    }
}

/// The value of the user's conda pin in a feature under the first of `candidates`
/// from `from` on that has one.
pub open spec fn first_pin(
    nodes: Nodes,
    feature: Seq<char>,
    candidates: Seq<Seq<char>>,
    from: int,
) -> Option<Seq<char>>
    decreases candidates.len() - from,
{
    if from < 0 || from >= candidates.len() {
        None
    } else if user_entry(nodes, feature, TableKind::Conda, candidates[from]) {
        snapshot(nodes, feature, TableKind::Conda, candidates[from]).value
    } else {
        first_pin(nodes, feature, candidates, from + 1)
    }
}

/// The value of the user's conda pin under one of `candidates` in the first of
/// `features` from `from` on that has one.
pub open spec fn first_pin_among(
    nodes: Nodes,
    features: Seq<Seq<char>>,
    candidates: Seq<Seq<char>>,
    from: int,
) -> Option<Seq<char>>
    decreases features.len() - from,
{
    if from < 0 || from >= features.len() {
        None
    } else {
        match first_pin(nodes, features[from], candidates, 0) {
            Some(v) => Some(v),
            None => first_pin_among(nodes, features, candidates, from + 1),
        }
    }
}

/// The value of the user's conda pin of a package, under any name of its family:
/// in the feature that depends on the pack, or else in the first that has one.
pub open spec fn pin_value(sc: SceneView, pack: Seq<char>, package: Seq<char>) -> Option<Seq<char>> {
    let candidates = name_family(package, sc.names);
    let near = match sc.facts.workspace {
        Some(ws) => match pack_feature(ws, pack) {
            Some(f) => first_pin(sc.nodes, f, candidates, 0),
            None => None,
        },
        None => None,
    };
    match near {
        Some(v) => Some(v),
        None => first_pin_among(sc.nodes, sc.features, candidates, 0),
    }
}

/// Whether the user pins a package anywhere, under any name of its family.
pub open spec fn family_pinned(sc: SceneView, package: Seq<char>) -> bool {
    let family = name_family(package, sc.names);
    exists|i: int|
        0 <= i < family.len() && pinned_in_any(sc.nodes, sc.features, #[trigger] family[i])
}

/// Whether a pin of the user's own under any name of the package's family bears
/// on a pack.
pub open spec fn family_pin_governs(sc: SceneView, pack: Seq<char>, package: Seq<char>) -> bool {
    let family = name_family(package, sc.names);
    exists|i: int| 0 <= i < family.len() && pin_governs(sc, pack, #[trigger] family[i])
}

/// Whether the user's pin of a name bears on a pack and is exact.
pub open spec fn exact_pin_governs(sc: SceneView, pack: Seq<char>, name: Seq<char>) -> bool {
    pin_governs(sc, pack, name) && (pin_value(sc, pack, name) matches Some(spec)
        && "=="@.is_prefix_of(trimmed_start(spec)))
}

/// Whether an exact pin of the user's own under any name of the package's family
/// bears on a pack.
pub open spec fn family_exact_pin_governs(sc: SceneView, pack: Seq<char>, package: Seq<char>) -> bool {
    let family = name_family(package, sc.names);
    exists|i: int| 0 <= i < family.len() && exact_pin_governs(sc, pack, #[trigger] family[i])
}

/// Who owns the pin of a mentioned package, in the conflict of a pack or of none.
pub open spec fn owner_of(sc: SceneView, pack: Option<Seq<char>>, package: Seq<char>) -> Ownership {
    if is_anchor(package) {
        Ownership::AbiAnchor
    } else {
        match pack {
            None => if pinned_in_any(sc.nodes, sc.features, package) {
                Ownership::WorkspacePin
            } else {
                Ownership::Unowned
            },
            Some(bundle) => match known_dir(sc.facts, sc.dir, bundle) {
                None => Ownership::Unowned,
                Some(d) => if ledgered(sc.facts, d, package) is Some {
                    Ownership::LedgeredOverride
                } else if owns_exact_pin(sc.facts, sc.dir, bundle, package) {
                    Ownership::DepsFromExactPin
                } else {
                    Ownership::AutoRoutedPackPin
                },
            },
        }
    }
}

// ---------------------------------------------------------------------------
// Chains of requirers
// ---------------------------------------------------------------------------

/// How many requirers a chain is followed through.
pub const MAX_CHAIN_HOPS: usize = 8;

/// Where a chain of requirers ends.
#[derive(Debug)]
pub enum ChainAnchor {
    /// At a pack of the workspace; the mention is the one that the pack requires.
    Pack { pack: String, emitted_mention: usize },
    /// At a pin of the user's own.
    WorkspacePin,
    /// Nowhere that is known.
    Unknown,
}

/// What a `ChainAnchor` says.
pub enum AnchorView {
    Pack { pack: Seq<char>, emitted_mention: int },
    WorkspacePin,
    Unknown,
}

impl DeepView for ChainAnchor {
    type V = AnchorView;

    open spec fn deep_view(&self) -> AnchorView {
        match self {
            ChainAnchor::Pack { pack, emitted_mention } => AnchorView::Pack {
                pack: pack@,
                emitted_mention: *emitted_mention as int,
            },
            ChainAnchor::WorkspacePin => AnchorView::WorkspacePin,
            ChainAnchor::Unknown => AnchorView::Unknown,
        }
    }
}

/// The first mention from `from` on of a package of this name.
pub open spec fn mention_of(mentions: Seq<MentionView>, name: Seq<char>, from: int) -> Option<int>
    decreases mentions.len() - from,
{
    if from < 0 || from >= mentions.len() {
        None
    } else if same_name(mentions[from].package, name) {
        Some(from)
    } else {
        mention_of(mentions, name, from + 1)
    }
}

/// Where the chain of requirers from a mention ends, followed through at most
/// `hops` requirers and through none that is in `visited`.
pub open spec fn chain_end(
    sc: SceneView,
    mentions: Seq<MentionView>,
    at: int,
    visited: Seq<Seq<char>>,
    hops: nat,
) -> AnchorView
    decreases hops,
{
    if hops == 0 {
        AnchorView::Unknown
    } else {
        match mentions[at].requirer {
            None => AnchorView::Unknown,
            Some(requirer) => if is_composed(sc, requirer) {
                AnchorView::Pack { pack: requirer, emitted_mention: at }
            } else if family_pinned(sc, requirer) {
                AnchorView::WorkspacePin
            } else if visited.contains(lowered(requirer)) {
                AnchorView::Unknown
            } else {
                match mention_of(mentions, requirer, 0) {
                    None => AnchorView::Unknown,
                    Some(next) => chain_end(
                        sc,
                        mentions,
                        next,
                        visited.push(lowered(requirer)),
                        (hops - 1) as nat,
                    ),
                }
            },
        }
    }
}

fn find_mention(mentions: &Vec<Mention>, name: &str) -> (r: Option<usize>)
    ensures
        match r {
            Some(i) => mention_of(mentions.deep_view(), name@, 0) == Some(i as int) && i
                < mentions@.len(),
            None => mention_of(mentions.deep_view(), name@, 0) is None,
        },
{
    let ghost all = mentions.deep_view();
    let n: usize = mentions.len();
    let mut i: usize = 0;
    while i < n
        invariant
            i <= n,
            n == mentions@.len(),
            all == mentions.deep_view(),
            mention_of(all, name@, 0) == mention_of(all, name@, i as int),
        decreases n - i,
    {
        assert(all[i as int] == mentions@[i as int].deep_view());
        if eq_ignore_ascii_case(&mentions[i].package, name) {
            return Some(i);
        }
        i = i + 1;
    }
    None
}

fn composing(ws: &WorkspaceManifest, pack: &str) -> (r: Vec<String>)
    ensures
        r.deep_view() == composing_features(ws.deep_view(), pack@),
{
    let ghost all = ws.features.deep_view();
    let ghost f = |f: (Seq<char>, Seq<(Seq<char>, Seq<char>)>)|
        if lookup(f.1, pack@) is Some {
            Some(f.0)
        } else {
            None
        };
    let mut out: Vec<String> = Vec::new();
    let n: usize = ws.features.len();
    let mut i: usize = 0;
    assert(out.deep_view() =~= all.take(0).filter_map(f));
    while i < n
        invariant
            i <= n,
            n == ws.features@.len(),
            all == ws.features.deep_view(),
            f == (|f: (Seq<char>, Seq<(Seq<char>, Seq<char>)>)|
                if lookup(f.1, pack@) is Some {
                    Some(f.0)
                } else {
                    None
                }),
            out.deep_view() == all.take(i as int).filter_map(f),
        decreases n - i,
    {
        assert(all[i as int] == ws.features@[i as int].deep_view());
        proof {
            all.lemma_filter_map_take_succ(f, i as int);
        }
        if find_key(&ws.features[i].1.path_dependencies, pack).is_some() {
            push_view(&mut out, ws.features[i].0.clone());
        }
        i = i + 1;
    }
    assert(all.take(n as int) =~= all);
    out
}

fn composes(owning: &Vec<String>, default_owns: bool, e: &EnvironmentDef) -> (r: bool)
    ensures
        r == ((exists|i: int|
            0 <= i < e.deep_view().features.len() && owning.deep_view().contains(
                #[trigger] e.deep_view().features[i],
            )) || (default_owns && !e.no_default_feature)),
{
    if default_owns && !e.no_default_feature {
        return true;
    }
    let ghost all = e.features.deep_view();
    let n: usize = e.features.len();
    let mut i: usize = 0;
    while i < n
        invariant
            i <= n,
            n == e.features@.len(),
            all == e.features.deep_view(),
            all == e.deep_view().features,
            forall|k: int| 0 <= k < i ==> !owning.deep_view().contains(#[trigger] all[k]),
        decreases n - i,
    {
        assert(all[i as int] == e.features@[i as int].deep_view());
        if holds_text(owning, &e.features[i]) {
            return true;
        }
        i = i + 1;
    }
    false
}

fn governing(ws: &WorkspaceManifest, pack: &str) -> (r: Vec<String>)
    ensures
        r.deep_view() == governing_features(ws.deep_view(), pack@),
{
    let ghost w = ws.deep_view();
    let owning = composing(ws, pack);
    let default_owns: bool = find_key(&ws.path_dependencies, pack).is_some();
    let ghost all = ws.environments.deep_view();
    let mut out: Vec<String> = Vec::new();
    let n: usize = ws.environments.len();
    let mut i: usize = 0;
    assert(out.deep_view() =~= scopes_of(w, pack@, all.take(0)));
    while i < n
        invariant
            i <= n,
            n == ws.environments@.len(),
            w == ws.deep_view(),
            all == ws.environments.deep_view(),
            all == w.environments,
            owning.deep_view() == composing_features(w, pack@),
            default_owns == (lookup(w.path_dependencies, pack@) is Some),
            out.deep_view() == scopes_of(w, pack@, all.take(i as int)),
        decreases n - i,
    {
        let e = &ws.environments[i].1;
        assert(all[i as int] == ws.environments@[i as int].deep_view());
        assert(all[i as int].1 == e.deep_view());
        assert(all.take(i + 1).drop_last() =~= all.take(i as int));
        if composes(&owning, default_owns, e) {
            let ghost before = out.deep_view();
            let mut features = crate::text::clone_texts(&e.features);
            let ghost more = features.deep_view();
            out.append(&mut features);
            assert(out.deep_view() =~= before + more);
            if !e.no_default_feature {
                push_view(&mut out, "default".to_owned());
            }
            assert(out.deep_view() =~= before + environment_scope(e.deep_view()));
        }
        i = i + 1;
    }
    assert(all.take(n as int) =~= all);
    if out.len() > 0 {
        return out;
    }
    assert(out.deep_view().len() == 0);
    let mut owning = owning;
    if default_owns {
        push_view(&mut owning, "default".to_owned());
    }
    owning
}

impl RepairPlanner {
    /// What the search for an owner reads.
    pub open spec fn scene(&self, e: ManifestEditor, facts: Facts) -> SceneView {
        SceneView {
            nodes: e.nodes(),
            features: e.features(),
            dir: e.dir(),
            names: self.names(),
            facts: facts.deep_view(),
        }
    }

    pub fn pinned_among(&self, editor: &ManifestEditor, features: &Vec<String>, package: &str) -> (r:
        bool)
        ensures
            r == pinned_in_any(editor.nodes(), features.deep_view(), package@),
    {
        let ghost all = features.deep_view();
        let n: usize = features.len();
        let mut i: usize = 0;
        while i < n
            invariant
                i <= n,
                n == features@.len(),
                all == features.deep_view(),
                forall|k: int|
                    0 <= k < i ==> !pinned_in(editor.nodes(), #[trigger] all[k], package@),
            decreases n - i,
        {
            assert(all[i as int] == features@[i as int].deep_view());
            if editor.has_user_entry(&features[i], TableKind::Conda, package)
                || editor.has_user_entry(&features[i], TableKind::Pypi, package) {
                return true;
            }
            i = i + 1;
        }
        false
    }

    /// Whether the user pins a package in any feature.
    pub fn has_workspace_pin(&self, editor: &ManifestEditor, package: &str) -> (r: bool)
        ensures
            r == pinned_in_any(editor.nodes(), editor.features(), package@),
    {
        self.pinned_among(editor, &editor.feature_names(), package)
    }

    /// Whether a pin of the user's own bears on a pack.
    pub fn workspace_pin_governs_pack(
        &self,
        editor: &ManifestEditor,
        facts: &Facts,
        bundle: &str,
        package: &str,
    ) -> (r: bool)
        ensures
            r == pin_governs(self.scene(*editor, *facts), bundle@, package@),
    {
        match &facts.workspace {
            None => self.has_workspace_pin(editor, package),
            Some(ws) => {
                let owning = composing(ws, bundle);
                assert(owning.deep_view().len() == owning@.len());
                if owning.len() == 0 && find_key(&ws.path_dependencies, bundle).is_none() {
                    return self.has_workspace_pin(editor, package);
                }
                self.pinned_among(editor, &governing(ws, bundle), package)
            },
        }
    }

    fn first_pin_in(&self, editor: &ManifestEditor, feature: &str, candidates: &Vec<String>) -> (r:
        Option<String>)
        ensures
            r.deep_view() == first_pin(editor.nodes(), feature@, candidates.deep_view(), 0),
    {
        let ghost all = candidates.deep_view();
        let n: usize = candidates.len();
        let mut i: usize = 0;
        while i < n
            invariant
                i <= n,
                n == candidates@.len(),
                all == candidates.deep_view(),
                first_pin(editor.nodes(), feature@, all, 0) == first_pin(
                    editor.nodes(),
                    feature@,
                    all,
                    i as int,
                ),
            decreases n - i,
        {
            assert(all[i as int] == candidates@[i as int].deep_view());
            if editor.has_user_entry(feature, TableKind::Conda, &candidates[i]) {
                return editor.entry_snapshot(feature, TableKind::Conda, &candidates[i]).value;
            }
            i = i + 1;
        }
        None
    }

    /// The value of the user's conda pin of a package, under any name of its
    /// family: in the feature that depends on the pack, or else in the first that
    /// has one.
    pub fn workspace_conda_pin(
        &self,
        editor: &ManifestEditor,
        facts: &Facts,
        bundle: &str,
        package: &str,
    ) -> (r: Option<String>)
        ensures
            r.deep_view() == pin_value(self.scene(*editor, *facts), bundle@, package@),
    {
        let ghost sc = self.scene(*editor, *facts);
        let candidates = conda_name_family(package, &self.conda_name_map);
        let ghost names = candidates.deep_view();
        match &facts.workspace {
            Some(ws) => match resolve_pack_feature(ws, bundle) {
                Some(feature) => {
                    let near = self.first_pin_in(editor, &feature, &candidates);
                    if near.is_some() {
                        return near;
                    }
                },
                None => {},
            },
            None => {},
        }
        let features = editor.feature_names();
        let ghost all = features.deep_view();
        let n: usize = features.len();
        let mut i: usize = 0;
        while i < n
            invariant
                i <= n,
                n == features@.len(),
                all == features.deep_view(),
                names == candidates.deep_view(),
                sc == self.scene(*editor, *facts),
                pin_value(sc, bundle@, package@) == first_pin_among(
                    editor.nodes(),
                    all,
                    names,
                    i as int,
                ),
            decreases n - i,
        {
            assert(all[i as int] == features@[i as int].deep_view());
            let here = self.first_pin_in(editor, &features[i], &candidates);
            if here.is_some() {
                return here;
            }
            i = i + 1;
        }
        None
    }

    /// Whether the user pins a package anywhere, under any name of its family.
    pub fn has_workspace_pin_family(&self, editor: &ManifestEditor, facts: &Facts, package: &str) -> (r:
        bool)
        ensures
            r == family_pinned(self.scene(*editor, *facts), package@),
    {
        let ghost sc = self.scene(*editor, *facts);
        let family = conda_name_family(package, &self.conda_name_map);
        let ghost all = family.deep_view();
        let n: usize = family.len();
        let mut i: usize = 0;
        while i < n
            invariant
                i <= n,
                n == family@.len(),
                all == family.deep_view(),
                sc == self.scene(*editor, *facts),
                all == name_family(package@, sc.names),
                forall|k: int|
                    0 <= k < i ==> !pinned_in_any(sc.nodes, sc.features, #[trigger] all[k]),
            decreases n - i,
        {
            assert(all[i as int] == family@[i as int].deep_view());
            if self.has_workspace_pin(editor, &family[i]) {
                return true;
            }
            i = i + 1;
        }
        false
    }

    /// Whether a pin of the user's own under any name of the package's family
    /// bears on a pack.
    pub fn workspace_pin_governs_pack_family(
        &self,
        editor: &ManifestEditor,
        facts: &Facts,
        bundle: &str,
        package: &str,
    ) -> (r: bool)
        ensures
            r == family_pin_governs(self.scene(*editor, *facts), bundle@, package@),
    {
        let ghost sc = self.scene(*editor, *facts);
        let family = conda_name_family(package, &self.conda_name_map);
        let ghost all = family.deep_view();
        let n: usize = family.len();
        let mut i: usize = 0;
        while i < n
            invariant
                i <= n,
                n == family@.len(),
                all == family.deep_view(),
                sc == self.scene(*editor, *facts),
                all == name_family(package@, sc.names),
                forall|k: int| 0 <= k < i ==> !pin_governs(sc, bundle@, #[trigger] all[k]),
            decreases n - i,
        {
            assert(all[i as int] == family@[i as int].deep_view());
            if self.workspace_pin_governs_pack(editor, facts, bundle, &family[i]) {
                return true;
            }
            i = i + 1;
        }
        false
    }

    /// Whether an exact pin of the user's own under any name of the package's
    /// family bears on a pack.
    pub fn workspace_exact_pin_governs_pack_family(
        &self,
        editor: &ManifestEditor,
        facts: &Facts,
        bundle: &str,
        package: &str,
    ) -> (r: bool)
        ensures
            r == family_exact_pin_governs(self.scene(*editor, *facts), bundle@, package@),
    {
        let ghost sc = self.scene(*editor, *facts);
        let family = conda_name_family(package, &self.conda_name_map);
        let ghost all = family.deep_view();
        let n: usize = family.len();
        let mut i: usize = 0;
        while i < n
            invariant
                i <= n,
                n == family@.len(),
                all == family.deep_view(),
                sc == self.scene(*editor, *facts),
                all == name_family(package@, sc.names),
                forall|k: int| 0 <= k < i ==> !exact_pin_governs(sc, bundle@, #[trigger] all[k]),
            decreases n - i,
        {
            assert(all[i as int] == family@[i as int].deep_view());
            if self.workspace_pin_governs_pack(editor, facts, bundle, &family[i]) {
                match self.workspace_conda_pin(editor, facts, bundle, &family[i]) {
                    Some(spec) => {
                        if starts_with(&trim_start(&spec), "==") {
                            assert(exact_pin_governs(sc, bundle@, all[i as int]));
                            return true;
                        }
                    },
                    None => {},
                }
            }
            i = i + 1;
        }
        false
    }

    /// Whether the workspace composes a pack of this name.
    pub fn is_owned_pack(&self, editor: &ManifestEditor, facts: &Facts, name: &str) -> (r: bool)
        ensures
            r == is_composed(self.scene(*editor, *facts), name@),
    {
        facts.dir_of(editor.project_dir(), name).is_some()
    }

    /// Who owns the pin of a mentioned package, in the conflict of a pack or of
    /// none.
    pub fn classify_mention_ownership(
        &self,
        editor: &ManifestEditor,
        facts: &Facts,
        pack_name: Option<&str>,
        package: &str,
    ) -> (r: Ownership)
        ensures
            r == owner_of(self.scene(*editor, *facts), pack_name.deep_view(), package@),
    {
        if is_abi_anchor(package) {
            return Ownership::AbiAnchor;
        }
        let bundle: &str = match pack_name {
            Some(b) => b,
            None => {
                if self.has_workspace_pin(editor, package) {
                    return Ownership::WorkspacePin;
                }
                return Ownership::Unowned;
            },
        };
        let dir = editor.project_dir();
        let at = match facts.dir_of(dir, bundle) {
            Some(d) => d,
            None => {
                return Ownership::Unowned;
            },
        };
        if facts.override_of(&at, package).is_some() {
            return Ownership::LedgeredOverride;
        }
        if facts.deps_from_owns_exact_pin(dir, bundle, package) {
            return Ownership::DepsFromExactPin;
        }
        Ownership::AutoRoutedPackPin
    }

    /// Where the chain of requirers from a mention ends.
    pub fn walk_chain_anchor(
        &self,
        editor: &ManifestEditor,
        facts: &Facts,
        mentions: &Vec<Mention>,
        start: usize,
    ) -> (r: ChainAnchor)
        requires
            start < mentions@.len(),
        ensures
            r.deep_view() == chain_end(
                self.scene(*editor, *facts),
                mentions.deep_view(),
                start as int,
                Seq::empty(),
                MAX_CHAIN_HOPS as nat,
            ),
            r matches ChainAnchor::Pack { emitted_mention, .. } ==> emitted_mention
                < mentions@.len(),
    {
        let ghost sc = self.scene(*editor, *facts);
        let ghost all = mentions.deep_view();
        let mut at: usize = start;
        let mut visited: Vec<String> = Vec::new();
        let mut hops: usize = MAX_CHAIN_HOPS;
        assert(visited.deep_view() =~= Seq::<Seq<char>>::empty());
        while hops > 0
            invariant
                at < mentions@.len(),
                start < mentions@.len(),
                sc == self.scene(*editor, *facts),
                all == mentions.deep_view(),
                chain_end(sc, all, start as int, Seq::empty(), MAX_CHAIN_HOPS as nat) == chain_end(
                    sc,
                    all,
                    at as int,
                    visited.deep_view(),
                    hops as nat,
                ),
            decreases hops,
        {
            assert(all[at as int] == mentions@[at as int].deep_view());
            let requirer: &String = match &mentions[at].requirer {
                Some(r) => r,
                None => {
                    return ChainAnchor::Unknown;
                },
            };
            if self.is_owned_pack(editor, facts, requirer) {
                return ChainAnchor::Pack { pack: requirer.clone(), emitted_mention: at };
            }
            if self.has_workspace_pin_family(editor, facts, requirer) {
                return ChainAnchor::WorkspacePin;
            }
            let low = lower(requirer);
            if holds_text(&visited, &low) {
                return ChainAnchor::Unknown;
            }
            push_view(&mut visited, low);
            match find_mention(mentions, requirer) {
                Some(next) => {
                    at = next;
                },
                None => {
                    return ChainAnchor::Unknown;
                },
            }
            hops = hops - 1;
        }
        ChainAnchor::Unknown
    }
}

// ---------------------------------------------------------------------------
// Laws
// ---------------------------------------------------------------------------

/// Whether the user has an entry of a package in a feature, for conda or for wheels: a
/// string without a mark.
pub open spec fn users_entry(nodes: Nodes, feature: Seq<char>, package: Seq<char>) -> bool {
    let conda = snapshot(nodes, feature, TableKind::Conda, package);
    let wheel = snapshot(nodes, feature, TableKind::Pypi, package);
    (conda.value is Some && !has_sentinel(conda)) || (wheel.value is Some && !has_sentinel(wheel))
}

/// Every pin has one owner: an anchor is nobody's to change; in a pack's conflict what
/// the pack's ledger records comes before what its upstream requirements pin exactly, and
/// that before what the pack routes to conda, and without a pack that is known nobody
/// owns it; outside a pack it is the workspace's where the user has an entry of it.
pub proof fn law_each_pin_has_its_owner(sc: SceneView, pack: Option<Seq<char>>, package: Seq<char>)
    ensures
        ({
            let owner = owner_of(sc, pack, package);
            &&& owner == Ownership::AbiAnchor <==> is_anchor(package)
            &&& !is_anchor(package) && pack is None ==> owner == if exists|i: int|
                0 <= i < sc.features.len() && users_entry(
                    sc.nodes,
                    #[trigger] sc.features[i],
                    package,
                ) {
                Ownership::WorkspacePin
            } else {
                Ownership::Unowned
            }
            &&& !is_anchor(package) && pack is Some && known_dir(sc.facts, sc.dir, pack->0) is None
                ==> owner == Ownership::Unowned
            &&& !is_anchor(package) && (pack matches Some(b) && (known_dir(
                sc.facts,
                sc.dir,
                b,
            ) matches Some(d) && ledgered(sc.facts, d, package) is Some)) ==> owner
                == Ownership::LedgeredOverride
            &&& !is_anchor(package) && (pack matches Some(b) && (known_dir(
                sc.facts,
                sc.dir,
                b,
            ) matches Some(d) && ledgered(sc.facts, d, package) is None && owns_exact_pin(
                sc.facts,
                sc.dir,
                b,
                package,
            ))) ==> owner == Ownership::DepsFromExactPin
            &&& !is_anchor(package) && (pack matches Some(b) && (known_dir(
                sc.facts,
                sc.dir,
                b,
            ) matches Some(d) && ledgered(sc.facts, d, package) is None && !owns_exact_pin(
                sc.facts,
                sc.dir,
                b,
                package,
            ))) ==> owner == Ownership::AutoRoutedPackPin
        }),
{
    if pack is None {
        assert forall|f: Seq<char>| #[trigger] users_entry(sc.nodes, f, package) == pinned_in(
            sc.nodes,
            f,
            package,
        ) by {}
        if pinned_in_any(sc.nodes, sc.features, package) {
            let i = choose|i: int|
                0 <= i < sc.features.len() && pinned_in(sc.nodes, #[trigger] sc.features[i], package);
            assert(users_entry(sc.nodes, sc.features[i], package));
        }
        if exists|i: int|
            0 <= i < sc.features.len() && users_entry(sc.nodes, #[trigger] sc.features[i], package) {
            let i = choose|i: int|
                0 <= i < sc.features.len() && users_entry(
                    sc.nodes,
                    #[trigger] sc.features[i],
                    package,
                );
            assert(pinned_in(sc.nodes, sc.features[i], package));
        }
    }
}

/// Whether a feature of the workspace depends on a pack.
pub open spec fn feature_takes(ws: WorkspaceView, feature: Seq<char>, pack: Seq<char>) -> bool {
    exists|i: int|
        0 <= i < ws.features.len() && (#[trigger] ws.features[i]).0 == feature && lookup(
            ws.features[i].1,
            pack,
        ) is Some
}

/// Whether an environment takes a pack in: one of its features depends on it, or the
/// workspace does and the environment has the default feature.
pub open spec fn environment_takes(ws: WorkspaceView, e: EnvironmentView, pack: Seq<char>) -> bool {
    (lookup(ws.path_dependencies, pack) is Some && !e.no_default_feature) || exists|i: int|
        0 <= i < e.features.len() && feature_takes(ws, #[trigger] e.features[i], pack)
}

/// Whether an environment has a feature's entries.
pub open spec fn environment_has(e: EnvironmentView, feature: Seq<char>) -> bool {
    e.features.contains(feature) || feature == "default"@ && !e.no_default_feature
}

/// Whether a feature bears on a pack: an environment that takes the pack in has it; or no
/// environment takes the pack in, and the feature, or the workspace for the default one,
/// depends on it.
pub open spec fn feature_bears_on(ws: WorkspaceView, feature: Seq<char>, pack: Seq<char>) -> bool {
    if exists|i: int|
        0 <= i < ws.environments.len() && environment_takes(
            ws,
            (#[trigger] ws.environments[i]).1,
            pack,
        ) && (ws.environments[i].1.features.len() > 0 || !ws.environments[i].1.no_default_feature) {
        exists|i: int|
            0 <= i < ws.environments.len() && environment_takes(
                ws,
                (#[trigger] ws.environments[i]).1,
                pack,
            ) && environment_has(ws.environments[i].1, feature)
    } else {
        feature_takes(ws, feature, pack) || feature == "default"@ && lookup(
            ws.path_dependencies,
            pack,
        ) is Some
    }
}

proof fn lemma_composing(ws: WorkspaceView, pack: Seq<char>, n: int, feature: Seq<char>)
    requires
        0 <= n <= ws.features.len(),
    ensures
        ws.features.take(n).filter_map(
            |f: (Seq<char>, Seq<(Seq<char>, Seq<char>)>)|
                if lookup(f.1, pack) is Some {
                    Some(f.0)
                } else {
                    None
                },
        ).contains(feature) <==> exists|i: int|
            0 <= i < n && (#[trigger] ws.features[i]).0 == feature && lookup(
                ws.features[i].1,
                pack,
            ) is Some,
    decreases n,
{
    let g = |f: (Seq<char>, Seq<(Seq<char>, Seq<char>)>)|
        if lookup(f.1, pack) is Some {
            Some(f.0)
        } else {
            None
        };
    let after = ws.features.take(n).filter_map(g);
    if n > 0 {
        lemma_composing(ws, pack, n - 1, feature);
        ws.features.lemma_filter_map_take_succ(g, n - 1);
        let before = ws.features.take(n - 1).filter_map(g);
        let last = ws.features[n - 1];
        if lookup(last.1, pack) is Some {
            assert(after == before.push(last.0));
            assert(after[before.len() as int] == last.0);
            if before.contains(feature) {
                let k = choose|k: int| 0 <= k < before.len() && before[k] == feature;
                assert(after[k] == feature);
            }
            if after.contains(feature) && last.0 != feature {
                let k = choose|k: int| 0 <= k < after.len() && after[k] == feature;
                assert(before[k] == feature);
            }
            if last.0 == feature {
                assert(ws.features[n - 1].0 == feature);
            }
        }
    } else {
        assert(after =~= Seq::<Seq<char>>::empty());
    }
}

proof fn lemma_composing_features(ws: WorkspaceView, pack: Seq<char>, feature: Seq<char>)
    ensures
        composing_features(ws, pack).contains(feature) <==> feature_takes(ws, feature, pack),
{
    let n = ws.features.len() as int;
    lemma_composing(ws, pack, n, feature);
    assert(ws.features.take(n) =~= ws.features);
}

proof fn lemma_environment_takes(ws: WorkspaceView, pack: Seq<char>, e: EnvironmentView)
    ensures
        environment_composes(ws, pack, e) == environment_takes(ws, e, pack),
{
    assert forall|f: Seq<char>| #[trigger] feature_takes(ws, f, pack) <==> composing_features(
        ws,
        pack,
    ).contains(f) by {
        lemma_composing_features(ws, pack, f);
    }
    if exists|i: int|
        0 <= i < e.features.len() && composing_features(ws, pack).contains(
            #[trigger] e.features[i],
        ) {
        let i = choose|i: int|
            0 <= i < e.features.len() && composing_features(ws, pack).contains(
                #[trigger] e.features[i],
            );
        assert(feature_takes(ws, e.features[i], pack));
    }
    if exists|i: int| 0 <= i < e.features.len() && feature_takes(ws, #[trigger] e.features[i], pack) {
        let i = choose|i: int|
            0 <= i < e.features.len() && feature_takes(ws, #[trigger] e.features[i], pack);
        assert(composing_features(ws, pack).contains(e.features[i]));
    }
}

proof fn lemma_scope(e: EnvironmentView, feature: Seq<char>)
    ensures
        environment_scope(e).contains(feature) <==> environment_has(e, feature),
        environment_scope(e).len() > 0 <==> e.features.len() > 0 || !e.no_default_feature,
{
    let scope = environment_scope(e);
    if !e.no_default_feature {
        assert(scope[e.features.len() as int] == "default"@);
        if e.features.contains(feature) {
            let k = choose|k: int| 0 <= k < e.features.len() && e.features[k] == feature;
            assert(scope[k] == feature);
        }
        if scope.contains(feature) && feature != "default"@ {
            let k = choose|k: int| 0 <= k < scope.len() && scope[k] == feature;
            assert(e.features[k] == feature);
        }
    }
}

proof fn lemma_scopes(ws: WorkspaceView, pack: Seq<char>, n: int, feature: Seq<char>)
    requires
        0 <= n <= ws.environments.len(),
    ensures
        scopes_of(ws, pack, ws.environments.take(n)).contains(feature) <==> exists|i: int|
            0 <= i < n && environment_takes(ws, (#[trigger] ws.environments[i]).1, pack)
                && environment_has(ws.environments[i].1, feature),
        scopes_of(ws, pack, ws.environments.take(n)).len() > 0 <==> exists|i: int|
            0 <= i < n && environment_takes(ws, (#[trigger] ws.environments[i]).1, pack) && (
            ws.environments[i].1.features.len() > 0 || !ws.environments[i].1.no_default_feature),
    decreases n,
{
    if n > 0 {
        lemma_scopes(ws, pack, n - 1, feature);
        let envs = ws.environments;
        assert(envs.take(n).drop_last() =~= envs.take(n - 1));
        assert(envs.take(n).last() == envs[n - 1]);
        let e = envs[n - 1].1;
        lemma_environment_takes(ws, pack, e);
        lemma_scope(e, feature);
        let before = scopes_of(ws, pack, envs.take(n - 1));
        let own = environment_scope(e);
        let after = scopes_of(ws, pack, envs.take(n));
        if environment_takes(ws, e, pack) {
            assert(after == before + own);
            if before.contains(feature) {
                let k = choose|k: int| 0 <= k < before.len() && before[k] == feature;
                assert(after[k] == feature);
            }
            if own.contains(feature) {
                let k = choose|k: int| 0 <= k < own.len() && own[k] == feature;
                assert(after[before.len() + k] == feature);
                assert(environment_takes(ws, envs[n - 1].1, pack));
            }
            if after.contains(feature) {
                let k = choose|k: int| 0 <= k < after.len() && after[k] == feature;
                if k < before.len() {
                    assert(before[k] == feature);
                } else {
                    assert(own[k - before.len()] == feature);
                    assert(environment_takes(ws, envs[n - 1].1, pack));
                }
            }
            assert(environment_takes(ws, envs[n - 1].1, pack));
        }
    } else {
        assert(ws.environments.take(0) =~= Seq::empty());
    }
}

proof fn lemma_governing(ws: WorkspaceView, pack: Seq<char>, feature: Seq<char>)
    ensures
        governing_features(ws, pack).contains(feature) <==> feature_bears_on(ws, feature, pack),
{
    let n = ws.environments.len() as int;
    lemma_scopes(ws, pack, n, feature);
    assert(ws.environments.take(n) =~= ws.environments);
    lemma_composing_features(ws, pack, feature);
    let own = composing_features(ws, pack);
    let more = own.push("default"@);
    assert(more[own.len() as int] == "default"@);
    if own.contains(feature) {
        let k = choose|k: int| 0 <= k < own.len() && own[k] == feature;
        assert(more[k] == feature);
    }
    if more.contains(feature) && feature != "default"@ {
        let k = choose|k: int| 0 <= k < more.len() && more[k] == feature;
        assert(own[k] == feature);
    }
}

/// A pin of the user's own bears on a pack where it stands in a feature that does; and
/// where the workspace or the pack is not known, wherever it stands.
pub proof fn law_pins_bear_on_their_packs(sc: SceneView, pack: Seq<char>, package: Seq<char>)
    ensures
        ({
            let known = sc.facts.workspace matches Some(ws) && (lookup(
                ws.path_dependencies,
                pack,
            ) is Some || exists|f: Seq<char>| #[trigger] feature_takes(ws, f, pack));
            pin_governs(sc, pack, package) <==> exists|f: Seq<char>| #[trigger]
                users_entry(sc.nodes, f, package) && if known {
                    feature_bears_on(sc.facts.workspace->0, f, pack)
                } else {
                    sc.features.contains(f)
                }
        }),
{
    assert forall|f: Seq<char>| #[trigger] users_entry(sc.nodes, f, package) == pinned_in(
        sc.nodes,
        f,
        package,
    ) by {}
    let known = sc.facts.workspace matches Some(ws) && (lookup(ws.path_dependencies, pack) is Some
        || exists|f: Seq<char>| #[trigger] feature_takes(ws, f, pack));
    match sc.facts.workspace {
        Some(ws) => {
            let own = composing_features(ws, pack);
            assert(own.len() > 0 <==> exists|f: Seq<char>| #[trigger] feature_takes(ws, f, pack)) by {
                if own.len() > 0 {
                    lemma_composing_features(ws, pack, own[0]);
                    assert(own.contains(own[0]));
                }
                if exists|f: Seq<char>| #[trigger] feature_takes(ws, f, pack) {
                    let f = choose|f: Seq<char>| #[trigger] feature_takes(ws, f, pack);
                    lemma_composing_features(ws, pack, f);
                }
            }
            assert forall|f: Seq<char>| #[trigger] governing_features(ws, pack).contains(f)
                <==> feature_bears_on(ws, f, pack) by {
                lemma_governing(ws, pack, f);
            }
            let list = if known {
                governing_features(ws, pack)
            } else {
                sc.features
            };
            lemma_pinned_somewhere(sc.nodes, list, package);
        },
        None => {
            lemma_pinned_somewhere(sc.nodes, sc.features, package);
        },
    }
}

proof fn lemma_pinned_somewhere(nodes: Nodes, list: Seq<Seq<char>>, package: Seq<char>)
    ensures
        pinned_in_any(nodes, list, package) <==> exists|f: Seq<char>| #[trigger]
            users_entry(nodes, f, package) && list.contains(f),
{
    if pinned_in_any(nodes, list, package) {
        let i = choose|i: int| 0 <= i < list.len() && pinned_in(nodes, #[trigger] list[i], package);
        assert(users_entry(nodes, list[i], package) && list.contains(list[i]));
    }
    if exists|f: Seq<char>| #[trigger] users_entry(nodes, f, package) && list.contains(f) {
        let f = choose|f: Seq<char>| #[trigger]
            users_entry(nodes, f, package) && list.contains(f);
        let i = choose|i: int| 0 <= i < list.len() && list[i] == f;
        assert(pinned_in(nodes, list[i], package));
    }
}

proof fn lemma_first_pin(nodes: Nodes, feature: Seq<char>, names: Seq<Seq<char>>, from: int)
    requires
        0 <= from,
    ensures
        match first_pin(nodes, feature, names, from) {
            Some(v) => exists|i: int|
                from <= i < names.len() && user_entry(
                    nodes,
                    feature,
                    TableKind::Conda,
                    #[trigger] names[i],
                ) && snapshot(nodes, feature, TableKind::Conda, names[i]).value == Some(v),
            None => forall|i: int|
                from <= i < names.len() ==> !user_entry(
                    nodes,
                    feature,
                    TableKind::Conda,
                    #[trigger] names[i],
                ),
        },
    decreases names.len() - from,
{
    if from < names.len() {
        lemma_first_pin(nodes, feature, names, from + 1);
    }
}

proof fn lemma_first_pin_among(
    nodes: Nodes,
    features: Seq<Seq<char>>,
    names: Seq<Seq<char>>,
    from: int,
)
    requires
        0 <= from,
    ensures
        match first_pin_among(nodes, features, names, from) {
            Some(v) => exists|k: int|
                from <= k < features.len() && has_pin_value(nodes, #[trigger] features[k], names, v),
            None => forall|k: int, i: int|
                from <= k < features.len() && 0 <= i < names.len() ==> !user_entry(
                    nodes,
                    #[trigger] features[k],
                    TableKind::Conda,
                    #[trigger] names[i],
                ),
        },
    decreases features.len() - from,
{
    if from < features.len() {
        lemma_first_pin(nodes, features[from], names, 0);
        lemma_first_pin_among(nodes, features, names, from + 1);
        match first_pin(nodes, features[from], names, 0) {
            Some(v) => {
                assert(has_pin_value(nodes, features[from], names, v));
            },
            None => {},
        }
    }
}

/// Whether a feature's conda table has, under one of the names, an entry of the user's own
/// with this value.
pub open spec fn has_pin_value(
    nodes: Nodes,
    feature: Seq<char>,
    names: Seq<Seq<char>>,
    value: Seq<char>,
) -> bool {
    exists|i: int|
        0 <= i < names.len() && user_entry(nodes, feature, TableKind::Conda, #[trigger] names[i])
            && snapshot(nodes, feature, TableKind::Conda, names[i]).value == Some(value)
}

/// The value of the user's pin of a package is that of an entry of the user's own, under
/// a name of the package's family: in the feature that depends on the pack, where that has
/// one, or else in another; and there is none only where no feature has one.
pub proof fn law_pin_value_is_the_users(sc: SceneView, pack: Seq<char>, package: Seq<char>)
    ensures
        ({
            let names = name_family(package, sc.names);
            let near = match sc.facts.workspace {
                Some(ws) => pack_feature(ws, pack),
                None => None,
            };
            &&& pin_value(sc, pack, package) matches Some(v) ==> {
                ||| near matches Some(f) && has_pin_value(sc.nodes, f, names, v)
                ||| exists|k: int|
                    0 <= k < sc.features.len() && has_pin_value(
                        sc.nodes,
                        #[trigger] sc.features[k],
                        names,
                        v,
                    )
            }
            &&& (near matches Some(f) && exists|i: int|
                0 <= i < names.len() && user_entry(
                    sc.nodes,
                    f,
                    TableKind::Conda,
                    #[trigger] names[i],
                )) ==> (pin_value(sc, pack, package) matches Some(v) && has_pin_value(
                sc.nodes,
                near->0,
                names,
                v,
            ))
            &&& pin_value(sc, pack, package) is None ==> forall|k: int, i: int|
                0 <= k < sc.features.len() && 0 <= i < names.len() ==> !user_entry(
                    sc.nodes,
                    #[trigger] sc.features[k],
                    TableKind::Conda,
                    #[trigger] names[i],
                )
        }),
{
    let names = name_family(package, sc.names);
    lemma_first_pin_among(sc.nodes, sc.features, names, 0);
    match sc.facts.workspace {
        Some(ws) => match pack_feature(ws, pack) {
            Some(f) => {
                lemma_first_pin(sc.nodes, f, names, 0);
                match first_pin(sc.nodes, f, names, 0) {
                    Some(v) => {
                        assert(has_pin_value(sc.nodes, f, names, v));
                    },
                    None => {},
                }
            },
            None => {},
        },
        None => {},
    }
}

proof fn lemma_mention_at(mentions: Seq<MentionView>, name: Seq<char>, from: int)
    requires
        0 <= from,
    ensures
        match mention_of(mentions, name, from) {
            Some(i) => from <= i < mentions.len() && same_name(mentions[i].package, name),
            None => forall|i: int|
                from <= i < mentions.len() ==> !same_name((#[trigger] mentions[i]).package, name),
        },
    decreases mentions.len() - from,
{
    if from < mentions.len() {
        lemma_mention_at(mentions, name, from + 1);
    }
}

/// A chain of requirers ends at a pack where a mention on it is required by a pack that
/// the workspace composes, and says which mention; it ends at a pin of the user's own where
/// what requires a mention on it is pinned; and what requires the first mention decides,
/// where it is one or the other.
pub proof fn law_chains_end_at_their_owners(
    sc: SceneView,
    mentions: Seq<MentionView>,
    at: int,
    visited: Seq<Seq<char>>,
    hops: nat,
)
    requires
        0 <= at < mentions.len(),
    ensures
        match chain_end(sc, mentions, at, visited, hops) {
            AnchorView::Pack { pack, emitted_mention } => 0 <= emitted_mention < mentions.len()
                && mentions[emitted_mention].requirer == Some(pack) && is_composed(sc, pack),
            AnchorView::WorkspacePin => exists|i: int|
                0 <= i < mentions.len() && ((#[trigger] mentions[i]).requirer matches Some(r)
                    && family_pinned(sc, r) && !is_composed(sc, r)),
            AnchorView::Unknown => true,
        },
        hops > 0 ==> (mentions[at].requirer matches Some(r) ==> {
            &&& is_composed(sc, r) ==> chain_end(sc, mentions, at, visited, hops) == (
            AnchorView::Pack { pack: r, emitted_mention: at })
            &&& !is_composed(sc, r) && family_pinned(sc, r) ==> chain_end(
                sc,
                mentions,
                at,
                visited,
                hops,
            ) == AnchorView::WorkspacePin
        }),
        mentions[at].requirer is None ==> chain_end(sc, mentions, at, visited, hops)
            == AnchorView::Unknown,
    decreases hops,
{
    if hops > 0 {
        match mentions[at].requirer {
            Some(r) => {
                lemma_mention_at(mentions, r, 0);
                if !is_composed(sc, r) && !family_pinned(sc, r) && !visited.contains(lowered(r)) {
                    match mention_of(mentions, r, 0) {
                        Some(next) => {
                            law_chains_end_at_their_owners(
                                sc,
                                mentions,
                                next,
                                visited.push(lowered(r)),
                                (hops - 1) as nat,
                            );
                        },
                        None => {},
                    }
                }
            },
            None => {},
        }
    }
}

/// What is told of an owner tells the owners apart.
pub proof fn law_owners_go_by_their_names(o: Ownership)
    ensures
        ownership_name(o) == "deps-from-exact-pin"@ <==> o == Ownership::DepsFromExactPin,
        ownership_name(o) == "auto-routed-pack-pin"@ <==> o == Ownership::AutoRoutedPackPin,
        ownership_name(o) == "ledgered-override"@ <==> o == Ownership::LedgeredOverride,
        ownership_name(o) == "workspace-pin"@ <==> o == Ownership::WorkspacePin,
        ownership_name(o) == "abi-anchor"@ <==> o == Ownership::AbiAnchor,
        ownership_name(o) == "unowned"@ <==> o == Ownership::Unowned,
{
    reveal_strlit("deps-from-exact-pin");
    reveal_strlit("auto-routed-pack-pin");
    reveal_strlit("ledgered-override");
    reveal_strlit("workspace-pin");
    reveal_strlit("abi-anchor");
    reveal_strlit("unowned");
    assert("deps-from-exact-pin"@[0] == 'd' && "auto-routed-pack-pin"@[0] == 'a');
    assert("ledgered-override"@[0] == 'l' && "workspace-pin"@[0] == 'w' && "unowned"@[0] == 'u');
    assert("auto-routed-pack-pin"@.len() == 20 && "abi-anchor"@.len() == 10);
}

} // verus!
