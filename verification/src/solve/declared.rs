//! What a workspace manifest declares: its environments, its features, and the packs
//! that their tables depend on by path.
use crate::solve::document::{
    doc_nodes, doc_orders, keyed_at, keys_at, node_at, parse_document, toml_keys, toml_read,
    KeyPath, Nodes, Orders,
};
use crate::solve::order::{
    all_placed, in_their_order, law_placed_texts_are_in_order, place_text, text_placed,
};
use crate::solve::workspace::{
    EnvironmentDef, EnvironmentView, FeatureDef, FeatureView, WorkspaceManifest, WorkspaceView,
};
use crate::text::{clone_texts, in_order, push_view, text_before};
use toml_edit::DocumentMut;
use vstd::prelude::*;

verus! {

broadcast use vstd::seq_lib::group_seq_properties;

// ---------------------------------------------------------------------------
// What is declared
// ---------------------------------------------------------------------------

/// The order in which a text gives the keys of each of its tables.
pub open spec fn toml_orders(nodes: Nodes, text: Seq<char>) -> Orders {
    Map::new(|p: Seq<Seq<char>>| keyed_at(nodes, p), |p: Seq<Seq<char>>| toml_keys(text, p))
}

/// The keys of the table at a path, in the order of names; none where there is no
/// table.
pub open spec fn names_at(nodes: Nodes, orders: Orders, path: KeyPath) -> Seq<Seq<char>> {
    if keyed_at(nodes, path) {
        all_placed(orders[path])
    } else {
        Seq::empty()
    }
}

/// The string at a path.
pub open spec fn string_at(nodes: Nodes, path: KeyPath) -> Option<Seq<char>> {
    if nodes.dom().contains(path) {
        nodes[path].value
    } else {
        None
    }
}

/// The elements of the array at a path, each with its text where it is a string.
pub open spec fn elements_at(nodes: Nodes, path: KeyPath) -> Option<Seq<Option<Seq<char>>>> {
    if nodes.dom().contains(path) {
        nodes[path].elements
    } else {
        None
    }
}

/// The paths that those of the names give that depend on something by path.
pub open spec fn paths_of(nodes: Nodes, path: KeyPath, names: Seq<Seq<char>>) -> FeatureView
    decreases names.len(),
{
    if names.len() == 0 {
        Seq::empty()
    } else {
        let before = paths_of(nodes, path, names.drop_last());
        match string_at(nodes, path.push(names.last()).push("path"@)) {
            Some(to) => before.push((names.last(), to)),
            None => before,
        }
    }
}

/// What the table at a path depends on by path, in the order of names.
pub open spec fn paths_at(nodes: Nodes, orders: Orders, path: KeyPath) -> FeatureView {
    paths_of(nodes, path, names_at(nodes, orders, path))
}

/// The path of a feature.
pub open spec fn feature_path(name: Seq<char>) -> KeyPath {
    seq!["feature"@, name]
}

/// What each of the features depends on by path.
pub open spec fn features_of(nodes: Nodes, orders: Orders, names: Seq<Seq<char>>) -> Seq<
    (Seq<char>, FeatureView),
> {
    names.map_values(
        |name: Seq<char>|
            (name, paths_at(nodes, orders, feature_path(name).push("dependencies"@))),
    )
}

/// What the manifest says of an environment: the features that it lists, as an array
/// of its own or under a key, and whether it leaves the top-level tables out. Where
/// it is not declared, it composes the top-level tables alone.
pub open spec fn environment_of(nodes: Nodes, name: Seq<char>) -> EnvironmentView {
    let path = seq!["environments"@, name];
    let listed = match elements_at(nodes, path) {
        Some(own) => own,
        None => match elements_at(nodes, path.push("features"@)) {
            Some(keyed) => keyed,
            None => Seq::empty(),
        },
    };
    let flag = path.push("no-default-feature"@);
    EnvironmentView {
        features: listed.filter_map(|e: Option<Seq<char>>| e),
        no_default_feature: nodes.dom().contains(flag) && nodes[flag].truth == Some(true),
    }
}

/// The names of the environments, in order. `default` is among them though it is not
/// declared.
pub open spec fn environment_names(nodes: Nodes, orders: Orders) -> Seq<Seq<char>> {
    text_placed(names_at(nodes, orders, seq!["environments"@]), "default"@)
}

/// What a manifest says of the workspace.
pub open spec fn workspace_in(nodes: Nodes, orders: Orders) -> WorkspaceView {
    WorkspaceView {
        path_dependencies: paths_at(nodes, orders, seq!["dependencies"@]),
        features: features_of(nodes, orders, names_at(nodes, orders, seq!["feature"@])),
        environments: environment_names(nodes, orders).map_values(
            |name: Seq<char>| (name, environment_of(nodes, name)),
        ),
    }
}

/// The tables of dependencies below a path: its own, and those of its targets.
pub open spec fn tables_below(nodes: Nodes, orders: Orders, base: KeyPath) -> Seq<FeatureView> {
    seq![paths_at(nodes, orders, base.push("dependencies"@))] + names_at(
        nodes,
        orders,
        base.push("target"@),
    ).map_values(
        |target: Seq<char>|
            paths_at(
                nodes,
                orders,
                base.push("target"@).push(target).push("dependencies"@),
            ),
    )
}

/// The tables of dependencies of the features.
pub open spec fn feature_tables(nodes: Nodes, orders: Orders, names: Seq<Seq<char>>) -> Seq<
    FeatureView,
>
    decreases names.len(),
{
    if names.len() == 0 {
        Seq::empty()
    } else {
        feature_tables(nodes, orders, names.drop_last()) + tables_below(
            nodes,
            orders,
            feature_path(names.last()),
        )
    }
}

/// Every table of dependencies of a manifest: those at its root, and those of each
/// feature.
pub open spec fn tables_in(nodes: Nodes, orders: Orders) -> Seq<FeatureView> {
    tables_below(nodes, orders, Seq::empty()) + feature_tables(
        nodes,
        orders,
        names_at(nodes, orders, seq!["feature"@]),
    )
}

// ---------------------------------------------------------------------------
// Reading
// ---------------------------------------------------------------------------

fn longer(path: &Vec<String>, key: &str) -> (r: Vec<String>)
    ensures
        r.deep_view() == path.deep_view().push(key@),
{
    let mut out = clone_texts(path);
    push_view(&mut out, key.to_owned());
    out
}

fn path_to(key: &str) -> (r: Vec<String>)
    ensures
        r.deep_view() == seq![key@],
{
    let root: Vec<String> = Vec::new();
    assert(root.deep_view() =~= Seq::<Seq<char>>::empty());
    let r = longer(&root, key);
    assert(r.deep_view() =~= seq![key@]);
    r
}

fn names_in(doc: &DocumentMut, path: &Vec<String>) -> (r: Vec<String>)
    ensures
        r.deep_view() == names_at(doc_nodes(*doc), doc_orders(*doc), path.deep_view()),
{
    let keyed: bool = match node_at(doc, path) {
        Some(node) => node.is_table || node.is_inline,
        None => false,
    };
    if keyed {
        in_their_order(&keys_at(doc, path))
    } else {
        let none: Vec<String> = Vec::new();
        assert(none.deep_view() =~= Seq::<Seq<char>>::empty());
        none
    }
}

fn string_of(doc: &DocumentMut, path: &Vec<String>) -> (r: Option<String>)
    ensures
        r.deep_view() == string_at(doc_nodes(*doc), path.deep_view()),
{
    match node_at(doc, path) {
        Some(node) => node.value,
        None => None,
    }
}

fn elements_of(doc: &DocumentMut, path: &Vec<String>) -> (r: Option<Vec<Option<String>>>)
    ensures
        r.deep_view() == elements_at(doc_nodes(*doc), path.deep_view()),
{
    match node_at(doc, path) {
        Some(node) => node.elements,
        None => None,
    }
}

fn paths_in(doc: &DocumentMut, path: &Vec<String>) -> (r: Vec<(String, String)>)
    ensures
        r.deep_view() == paths_at(doc_nodes(*doc), doc_orders(*doc), path.deep_view()),
{
    let ghost nodes = doc_nodes(*doc);
    let ghost p = path.deep_view();
    let names = names_in(doc, path);
    let ghost all = names.deep_view();
    let mut out: Vec<(String, String)> = Vec::new();
    let n: usize = names.len();
    let mut i: usize = 0;
    assert(out.deep_view() =~= paths_of(nodes, p, all.take(0)));
    while i < n
        invariant
            i <= n,
            n == names@.len(),
            all == names.deep_view(),
            nodes == doc_nodes(*doc),
            p == path.deep_view(),
            out.deep_view() == paths_of(nodes, p, all.take(i as int)),
        decreases n - i,
    {
        assert(all[i as int] == names@[i as int].deep_view());
        assert(all.take(i + 1).drop_last() =~= all.take(i as int));
        match string_of(doc, &longer(&longer(path, &names[i]), "path")) {
            Some(to) => {
                push_view(&mut out, (names[i].clone(), to));
            },
            None => {},
        }
        i = i + 1;
    }
    assert(all.take(n as int) =~= all);
    out
}

fn texts_among(elements: &Vec<Option<String>>) -> (r: Vec<String>)
    ensures
        r.deep_view() == elements.deep_view().filter_map(|e: Option<Seq<char>>| e),
{
    let ghost all = elements.deep_view();
    let ghost f = |e: Option<Seq<char>>| e;
    let mut out: Vec<String> = Vec::new();
    let n: usize = elements.len();
    let mut i: usize = 0;
    assert(out.deep_view() =~= all.take(0).filter_map(f));
    while i < n
        invariant
            i <= n,
            n == elements@.len(),
            all == elements.deep_view(),
            f == (|e: Option<Seq<char>>| e),
            out.deep_view() == all.take(i as int).filter_map(f),
        decreases n - i,
    {
        proof {
            all.lemma_filter_map_take_succ(f, i as int);
        }
        assert(all[i as int] == elements@[i as int].deep_view());
        match &elements[i] {
            Some(e) => {
                push_view(&mut out, e.clone());
            },
            None => {
                assert(all.take(i + 1).filter_map(f) =~= all.take(i as int).filter_map(f));
            },
        }
        i = i + 1;
    }
    assert(all.take(n as int) =~= all);
    out
}

fn environment_in(doc: &DocumentMut, name: &str) -> (r: EnvironmentDef)
    ensures
        r.deep_view() == environment_of(doc_nodes(*doc), name@),
{
    let path = longer(&path_to("environments"), name);
    assert(path.deep_view() =~= seq!["environments"@, name@]);
    let listed: Vec<Option<String>> = match elements_of(doc, &path) {
        Some(own) => own,
        None => match elements_of(doc, &longer(&path, "features")) {
            Some(keyed) => keyed,
            None => {
                let none: Vec<Option<String>> = Vec::new();
                assert(none.deep_view() =~= Seq::<Option<Seq<char>>>::empty());
                none
            },
        },
    };
    let no_default_feature: bool = match node_at(doc, &longer(&path, "no-default-feature")) {
        Some(node) => matches!(node.truth, Some(true)),
        None => false,
    };
    EnvironmentDef { features: texts_among(&listed), no_default_feature }
}

fn environment_names_in(doc: &DocumentMut) -> (r: Vec<String>)
    ensures
        r.deep_view() == environment_names(doc_nodes(*doc), doc_orders(*doc)),
{
    let mut names = names_in(doc, &path_to("environments"));
    place_text(&mut names, "default".to_owned());
    names
}

fn environments_in(doc: &DocumentMut) -> (r: Vec<(String, EnvironmentDef)>)
    ensures
        r.deep_view() == workspace_in(doc_nodes(*doc), doc_orders(*doc)).environments,
{
    let ghost nodes = doc_nodes(*doc);
    let names = environment_names_in(doc);
    let ghost all = names.deep_view();
    let ghost f = |name: Seq<char>| (name, environment_of(nodes, name));
    let mut out: Vec<(String, EnvironmentDef)> = Vec::new();
    let n: usize = names.len();
    let mut i: usize = 0;
    assert(out.deep_view() =~= all.take(0).map_values(f));
    while i < n
        invariant
            i <= n,
            n == names@.len(),
            all == names.deep_view(),
            nodes == doc_nodes(*doc),
            f == (|name: Seq<char>| (name, environment_of(nodes, name))),
            out.deep_view() == all.take(i as int).map_values(f),
        decreases n - i,
    {
        assert(all[i as int] == names@[i as int].deep_view());
        push_view(&mut out, (names[i].clone(), environment_in(doc, &names[i])));
        assert(out.deep_view() =~= all.take(i + 1).map_values(f));
        i = i + 1;
    }
    assert(all.take(n as int) =~= all);
    out
}

fn path_of_feature(name: &str) -> (r: Vec<String>)
    ensures
        r.deep_view() == feature_path(name@),
{
    let r = longer(&path_to("feature"), name);
    assert(r.deep_view() =~= feature_path(name@));
    r
}

fn features_in(doc: &DocumentMut) -> (r: Vec<(String, FeatureDef)>)
    ensures
        r.deep_view() == workspace_in(doc_nodes(*doc), doc_orders(*doc)).features,
{
    let ghost nodes = doc_nodes(*doc);
    let ghost orders = doc_orders(*doc);
    let names = names_in(doc, &path_to("feature"));
    let ghost all = names.deep_view();
    let mut out: Vec<(String, FeatureDef)> = Vec::new();
    let n: usize = names.len();
    let mut i: usize = 0;
    assert(out.deep_view() =~= features_of(nodes, orders, all.take(0)));
    while i < n
        invariant
            i <= n,
            n == names@.len(),
            all == names.deep_view(),
            nodes == doc_nodes(*doc),
            orders == doc_orders(*doc),
            out.deep_view() == features_of(nodes, orders, all.take(i as int)),
        decreases n - i,
    {
        assert(all[i as int] == names@[i as int].deep_view());
        let path_dependencies = paths_in(
            doc,
            &longer(&path_of_feature(&names[i]), "dependencies"),
        );
        push_view(&mut out, (names[i].clone(), FeatureDef { path_dependencies }));
        assert(out.deep_view() =~= features_of(nodes, orders, all.take(i + 1)));
        i = i + 1;
    }
    assert(all.take(n as int) =~= all);
    out
}

fn add_tables(out: &mut Vec<Vec<(String, String)>>, doc: &DocumentMut, base: &Vec<String>)
    ensures
        final(out).deep_view() == old(out).deep_view() + tables_below(
            doc_nodes(*doc),
            doc_orders(*doc),
            base.deep_view(),
        ),
{
    let ghost nodes = doc_nodes(*doc);
    let ghost orders = doc_orders(*doc);
    let ghost b = base.deep_view();
    let ghost own = seq![paths_at(nodes, orders, b.push("dependencies"@))];
    let ghost f = |target: Seq<char>|
        paths_at(nodes, orders, b.push("target"@).push(target).push("dependencies"@));
    push_view(out, paths_in(doc, &longer(base, "dependencies")));
    let targets = longer(base, "target");
    let names = names_in(doc, &targets);
    let ghost all = names.deep_view();
    let n: usize = names.len();
    let mut i: usize = 0;
    assert(out.deep_view() =~= old(out).deep_view() + own + all.take(0).map_values(f));
    while i < n
        invariant
            i <= n,
            n == names@.len(),
            all == names.deep_view(),
            nodes == doc_nodes(*doc),
            orders == doc_orders(*doc),
            targets.deep_view() == b.push("target"@),
            f == (|target: Seq<char>|
                paths_at(nodes, orders, b.push("target"@).push(target).push("dependencies"@))),
            out.deep_view() == old(out).deep_view() + own + all.take(i as int).map_values(f),
        decreases n - i,
    {
        assert(all[i as int] == names@[i as int].deep_view());
        push_view(out, paths_in(doc, &longer(&longer(&targets, &names[i]), "dependencies")));
        assert(out.deep_view() =~= old(out).deep_view() + own + all.take(i + 1).map_values(f));
        i = i + 1;
    }
    assert(all.take(n as int) =~= all);
    assert(old(out).deep_view() + own + all.map_values(f) =~= old(out).deep_view() + (own
        + all.map_values(f)));
}

/// What a manifest of the given text says of the workspace; an error is what is wrong
/// with the text.
pub fn workspace_of(source: &str) -> (r: Result<WorkspaceManifest, String>)
    ensures
        match toml_read(source@) {
            Err(e) => r matches Err(t) && t@ == e,
            Ok(nodes) => r matches Ok(ws) && ws.deep_view() == workspace_in(
                nodes,
                toml_orders(nodes, source@),
            ),
        },
{
    match parse_document(source) {
        Ok(doc) => {
            assert(doc_orders(doc) =~= toml_orders(doc_nodes(doc), source@));
            Ok(
                WorkspaceManifest {
                    path_dependencies: paths_in(&doc, &path_to("dependencies")),
                    features: features_in(&doc),
                    environments: environments_in(&doc),
                },
            )
        },
        Err(e) => Err(e),
    }
}

/// The environments that an audit of a manifest of the given text checks, in order;
/// an error is what is wrong with the text.
pub fn audited_environments(source: &str) -> (r: Result<Vec<String>, String>)
    ensures
        match toml_read(source@) {
            Err(e) => r matches Err(t) && t@ == e,
            Ok(nodes) => r matches Ok(names) && names.deep_view() == environment_names(
                nodes,
                toml_orders(nodes, source@),
            ),
        },
{
    match parse_document(source) {
        Ok(doc) => {
            assert(doc_orders(doc) =~= toml_orders(doc_nodes(doc), source@));
            Ok(environment_names_in(&doc))
        },
        Err(e) => Err(e),
    }
}

/// Every table of dependencies of a manifest of the given text, by what it depends on
/// by path; an error is what is wrong with the text.
pub fn dependency_tables(source: &str) -> (r: Result<Vec<Vec<(String, String)>>, String>)
    ensures
        match toml_read(source@) {
            Err(e) => r matches Err(t) && t@ == e,
            Ok(nodes) => r matches Ok(tables) && tables.deep_view() == tables_in(
                nodes,
                toml_orders(nodes, source@),
            ),
        },
{
    let doc = match parse_document(source) {
        Ok(doc) => doc,
        Err(e) => {
            return Err(e);
        },
    };
    assert(doc_orders(doc) =~= toml_orders(doc_nodes(doc), source@));
    let ghost nodes = doc_nodes(doc);
    let ghost orders = doc_orders(doc);
    let root: Vec<String> = Vec::new();
    assert(root.deep_view() =~= Seq::<Seq<char>>::empty());
    let mut out: Vec<Vec<(String, String)>> = Vec::new();
    assert(out.deep_view() =~= Seq::<FeatureView>::empty());
    add_tables(&mut out, &doc, &root);
    let ghost top = tables_below(nodes, orders, Seq::empty());
    assert(out.deep_view() =~= top);
    let names = names_in(&doc, &path_to("feature"));
    let ghost all = names.deep_view();
    let n: usize = names.len();
    let mut i: usize = 0;
    assert(out.deep_view() =~= top + feature_tables(nodes, orders, all.take(0)));
    while i < n
        invariant
            i <= n,
            n == names@.len(),
            all == names.deep_view(),
            nodes == doc_nodes(doc),
            orders == doc_orders(doc),
            out.deep_view() == top + feature_tables(nodes, orders, all.take(i as int)),
        decreases n - i,
    {
        assert(all[i as int] == names@[i as int].deep_view());
        assert(all.take(i + 1).drop_last() =~= all.take(i as int));
        add_tables(&mut out, &doc, &path_of_feature(&names[i]));
        assert(out.deep_view() =~= top + feature_tables(nodes, orders, all.take(i + 1)));
        i = i + 1;
    }
    assert(all.take(n as int) =~= all);
    Ok(out)
}

// ---------------------------------------------------------------------------
// Laws
// ---------------------------------------------------------------------------

proof fn lemma_all_placed(texts: Seq<Seq<char>>)
    ensures
        in_order(all_placed(texts)),
        forall|t: Seq<char>| #[trigger] all_placed(texts).contains(t) <==> texts.contains(t),
    decreases texts.len(),
{
    if texts.len() > 0 {
        let rest = texts.drop_last();
        lemma_all_placed(rest);
        law_placed_texts_are_in_order(all_placed(rest), texts.last());
        assert(texts =~= rest.push(texts.last()));
    }
}

/// An audit checks every environment that the manifest declares, and `default` though
/// it is not declared, and nothing else; and it checks each once, in order.
pub proof fn law_every_environment_is_audited(nodes: Nodes, orders: Orders, name: Seq<char>)
    ensures
        in_order(environment_names(nodes, orders)),
        environment_names(nodes, orders).contains(name) <==> name == "default"@ || (keyed_at(
            nodes,
            seq!["environments"@],
        ) && orders[seq!["environments"@]].contains(name)),
{
    lemma_all_placed(orders[seq!["environments"@]]);
    law_placed_texts_are_in_order(names_at(nodes, orders, seq!["environments"@]), "default"@);
}

proof fn lemma_paths_of(
    nodes: Nodes,
    path: KeyPath,
    names: Seq<Seq<char>>,
    name: Seq<char>,
    to: Seq<char>,
)
    ensures
        paths_of(nodes, path, names).contains((name, to)) <==> names.contains(name) && string_at(
            nodes,
            path.push(name).push("path"@),
        ) == Some(to),
    decreases names.len(),
{
    if names.len() > 0 {
        let short = names.drop_last();
        lemma_paths_of(nodes, path, short, name, to);
        assert(names =~= short.push(names.last()));
    }
}

/// A table depends by path on what it has a key for that has a string under `path`, and
/// on nothing else.
pub proof fn law_paths_are_what_is_declared(
    nodes: Nodes,
    orders: Orders,
    table: KeyPath,
    name: Seq<char>,
    to: Seq<char>,
)
    ensures
        paths_at(nodes, orders, table).contains((name, to)) <==> {
            let at = table + seq![name, "path"@];
            &&& nodes.dom().contains(table) && (nodes[table].is_table || nodes[table].is_inline)
            &&& orders[table].contains(name)
            &&& nodes.dom().contains(at) && nodes[at].value == Some(to)
        },
{
    let at = table + seq![name, "path"@];
    assert(at =~= table.push(name).push("path"@));
    lemma_all_placed(orders[table]);
    lemma_paths_of(nodes, table, names_at(nodes, orders, table), name, to);
}

/// What a workspace declares at its root and in each feature is read from the table
/// `dependencies` there, for every feature and no other, in the order of their names.
pub proof fn law_features_are_read_from_their_tables(
    nodes: Nodes,
    orders: Orders,
    name: Seq<char>,
    deps: FeatureView,
)
    ensures
        workspace_in(nodes, orders).path_dependencies == paths_at(
            nodes,
            orders,
            seq!["dependencies"@],
        ),
        workspace_in(nodes, orders).features.contains((name, deps)) <==> {
            &&& keyed_at(nodes, seq!["feature"@]) && orders[seq!["feature"@]].contains(name)
            &&& deps == paths_at(nodes, orders, seq!["feature"@, name, "dependencies"@])
        },
        forall|i: int, j: int|
            0 <= i < j < workspace_in(nodes, orders).features.len() ==> text_before(
                (#[trigger] workspace_in(nodes, orders).features[i]).0,
                (#[trigger] workspace_in(nodes, orders).features[j]).0,
            ),
{
    let at = seq!["feature"@];
    lemma_all_placed(orders[at]);
    let names = names_at(nodes, orders, at);
    let all = workspace_in(nodes, orders).features;
    assert(seq!["feature"@, name, "dependencies"@] =~= feature_path(name).push("dependencies"@));
    let own = (name, paths_at(nodes, orders, feature_path(name).push("dependencies"@)));
    if names.contains(name) {
        let i = choose|i: int| 0 <= i < names.len() && names[i] == name;
        assert(all[i] == own);
    }
    if all.contains((name, deps)) {
        let i = choose|i: int| 0 <= i < all.len() && all[i] == (name, deps);
        assert(names[i] == name);
        assert(names.contains(name));
    }
    assert forall|i: int, j: int| 0 <= i < j < all.len() implies text_before(
        (#[trigger] all[i]).0,
        (#[trigger] all[j]).0,
    ) by {
        assert(text_before(names[i], names[j]));
    }
}

proof fn lemma_listed(listed: Seq<Option<Seq<char>>>, f: Seq<char>)
    ensures
        listed.filter_map(|e: Option<Seq<char>>| e).contains(f) <==> listed.contains(Some(f)),
    decreases listed.len(),
{
    let g = |e: Option<Seq<char>>| e;
    if listed.len() > 0 {
        let short = listed.drop_last();
        lemma_listed(short, f);
        assert(listed =~= short.push(listed.last()));
        reveal(Seq::filter_map);
    } else {
        reveal(Seq::filter_map);
    }
}

/// An environment composes the features that it lists: in an array of its own, or in one
/// under its key `features`, of which the first counts. It leaves the top-level tables out
/// where it says that it is true, and only there.
pub proof fn law_environment_composes_what_it_lists(
    nodes: Nodes,
    name: Seq<char>,
    own: Seq<Option<Seq<char>>>,
    f: Seq<char>,
)
    ensures
        ({
            let at = seq!["environments"@, name];
            let keyed = seq!["environments"@, name, "features"@];
            let flag = seq!["environments"@, name, "no-default-feature"@];
            let e = environment_of(nodes, name);
            &&& nodes.dom().contains(at) && nodes[at].elements == Some(own) ==> (
            e.features.contains(f) <==> own.contains(Some(f)))
            &&& (!nodes.dom().contains(at) || nodes[at].elements is None) && nodes.dom().contains(
                keyed,
            ) && nodes[keyed].elements == Some(own) ==> (e.features.contains(f) <==> own.contains(
                Some(f),
            ))
            &&& (!nodes.dom().contains(at) || nodes[at].elements is None) && (
            !nodes.dom().contains(keyed) || nodes[keyed].elements is None) ==> !e.features.contains(
                f,
            )
            &&& e.no_default_feature <==> nodes.dom().contains(flag) && nodes[flag].truth == Some(
                true,
            )
        }),
{
    let at = seq!["environments"@, name];
    assert(at.push("features"@) =~= seq!["environments"@, name, "features"@]);
    assert(at.push("no-default-feature"@) =~= seq!["environments"@, name, "no-default-feature"@]);
    lemma_listed(own, f);
    lemma_listed(Seq::empty(), f);
}

proof fn lemma_tables_below(nodes: Nodes, orders: Orders, base: KeyPath, target: Seq<char>)
    ensures
        tables_below(nodes, orders, base).contains(
            paths_at(nodes, orders, base.push("dependencies"@)),
        ),
        keyed_at(nodes, base.push("target"@)) && orders[base.push("target"@)].contains(target)
            ==> tables_below(nodes, orders, base).contains(
            paths_at(
                nodes,
                orders,
                base.push("target"@).push(target).push("dependencies"@),
            ),
        ),
{
    let all = tables_below(nodes, orders, base);
    assert(all[0] == paths_at(nodes, orders, base.push("dependencies"@)));
    let names = names_at(nodes, orders, base.push("target"@));
    lemma_all_placed(orders[base.push("target"@)]);
    if names.contains(target) {
        let i = choose|i: int| 0 <= i < names.len() && names[i] == target;
        assert(all[i + 1] == paths_at(
            nodes,
            orders,
            base.push("target"@).push(target).push("dependencies"@),
        ));
    }
}

proof fn lemma_feature_tables(
    nodes: Nodes,
    orders: Orders,
    names: Seq<Seq<char>>,
    name: Seq<char>,
    table: FeatureView,
)
    requires
        names.contains(name),
        tables_below(nodes, orders, feature_path(name)).contains(table),
    ensures
        feature_tables(nodes, orders, names).contains(table),
    decreases names.len(),
{
    let short = names.drop_last();
    let before = feature_tables(nodes, orders, short);
    let own = tables_below(nodes, orders, feature_path(names.last()));
    if names.last() == name {
        let j = choose|j: int| 0 <= j < own.len() && own[j] == table;
        assert((before + own)[before.len() + j] == table);
    } else {
        let i = choose|i: int| 0 <= i < names.len() && names[i] == name;
        assert(short[i] == name);
        lemma_feature_tables(nodes, orders, short, name, table);
        let j = choose|j: int| 0 <= j < before.len() && before[j] == table;
        assert((before + own)[j] == table);
    }
}

/// Every table of dependencies counts: that at the root, that of each feature, and that of
/// each target of either.
pub proof fn law_every_table_counts(
    nodes: Nodes,
    orders: Orders,
    feature: Seq<char>,
    target: Seq<char>,
)
    ensures
        tables_in(nodes, orders).contains(paths_at(nodes, orders, seq!["dependencies"@])),
        keyed_at(nodes, seq!["target"@]) && orders[seq!["target"@]].contains(target) ==> tables_in(
            nodes,
            orders,
        ).contains(paths_at(nodes, orders, seq!["target"@, target, "dependencies"@])),
        keyed_at(nodes, seq!["feature"@]) && orders[seq!["feature"@]].contains(feature) ==> {
            let at = seq!["feature"@, feature, "target"@];
            &&& tables_in(nodes, orders).contains(
                paths_at(nodes, orders, seq!["feature"@, feature, "dependencies"@]),
            )
            &&& keyed_at(nodes, at) && orders[at].contains(target) ==> tables_in(
                nodes,
                orders,
            ).contains(
                paths_at(
                    nodes,
                    orders,
                    seq!["feature"@, feature, "target"@, target, "dependencies"@],
                ),
            )
        },
{
    let root: KeyPath = Seq::empty();
    let at = feature_path(feature);
    let own = tables_below(nodes, orders, root);
    let names = names_at(nodes, orders, seq!["feature"@]);
    let rest = feature_tables(nodes, orders, names);
    assert(root.push("dependencies"@) =~= seq!["dependencies"@]);
    assert(root.push("target"@) =~= seq!["target"@]);
    assert(seq!["target"@].push(target).push("dependencies"@) =~= seq![
        "target"@,
        target,
        "dependencies"@,
    ]);
    assert(at.push("dependencies"@) =~= seq!["feature"@, feature, "dependencies"@]);
    assert(at.push("target"@) =~= seq!["feature"@, feature, "target"@]);
    assert(at.push("target"@).push(target).push("dependencies"@) =~= seq![
        "feature"@,
        feature,
        "target"@,
        target,
        "dependencies"@,
    ]);
    lemma_tables_below(nodes, orders, root, target);
    lemma_tables_below(nodes, orders, at, target);
    lemma_all_placed(orders[seq!["feature"@]]);
    assert forall|t: FeatureView| own.contains(t) implies #[trigger] (own + rest).contains(t) by {
        let j = choose|j: int| 0 <= j < own.len() && own[j] == t;
        assert((own + rest)[j] == t);
    }
    assert forall|t: FeatureView| rest.contains(t) implies #[trigger] (own + rest).contains(t) by {
        let j = choose|j: int| 0 <= j < rest.len() && rest[j] == t;
        assert((own + rest)[own.len() + j] == t);
    }
    if names.contains(feature) {
        let a = paths_at(nodes, orders, at.push("dependencies"@));
        let b = paths_at(
            nodes,
            orders,
            at.push("target"@).push(target).push("dependencies"@),
        );
        lemma_feature_tables(nodes, orders, names, feature, a);
        if tables_below(nodes, orders, at).contains(b) {
            lemma_feature_tables(nodes, orders, names, feature, b);
        }
    }
}

} // verus!
