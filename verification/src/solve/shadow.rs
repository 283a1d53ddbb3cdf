//! The throw-away copy of a workspace in which one environment is checked: which of
//! its environments it keeps, and which of its directories are copied.
use crate::solve::document::{
    doc_keys, doc_nodes, doc_orders, doc_text, empty_array_node, inline_node, is_rooted, keyed_at,
    keys_at, node_at, parse_document, put_empty_array, put_inline_table, put_truth, remove_key,
    render_document, toml_keys, toml_read, truth_node, with_key, without, KeyPath, Nodes,
};
use crate::solve::workspace::{join_path, path_joined};
use crate::text::{
    decimal, decimal_text, holds_text, lemma_pieces_nonempty, pieces, push_view, split,
    starts_with, text_eq,
};
use toml_edit::DocumentMut;
use vstd::prelude::*;

verus! {

broadcast use vstd::seq_lib::group_seq_properties;

// ---------------------------------------------------------------------------
// The manifest of the copy
// ---------------------------------------------------------------------------

/// The path of the environments.
pub open spec fn environments_path() -> KeyPath {
    seq!["environments"@]
}

/// The path of an environment.
pub open spec fn environment_path(name: Seq<char>) -> KeyPath {
    seq!["environments"@, name]
}

/// The text that a key of an environment has.
pub open spec fn environment_text(nodes: Nodes, name: Seq<char>, key: Seq<char>) -> Option<
    Seq<char>,
> {
    let path = environment_path(name).push(key);
    if nodes.dom().contains(path) {
        nodes[path].value
    } else {
        None
    }
}

/// The group that an environment is solved in.
pub open spec fn solve_group(nodes: Nodes, name: Seq<char>) -> Option<Seq<char>> {
    if !keyed_at(nodes, environment_path(name)) {
        None
    } else if nodes.dom().contains(environment_path(name).push("solve-group"@)) {
        environment_text(nodes, name, "solve-group"@)
    } else {
        environment_text(nodes, name, "solve_group"@)
    }
}

/// Whether the manifest declares an environment.
pub open spec fn declares(nodes: Nodes, name: Seq<char>) -> bool {
    nodes.dom().contains(environment_path(name))
}

/// Whether an environment is solved together with another: it is the same, or in
/// the same group.
pub open spec fn solved_with(nodes: Nodes, environment: Seq<char>, name: Seq<char>) -> bool {
    match solve_group(nodes, environment) {
        Some(group) => solve_group(nodes, name) == Some(group),
        None => name == environment,
    }
}

/// Whether the copy keeps what the manifest says of an environment.
pub open spec fn keeps(nodes: Nodes, environment: Seq<char>, name: Seq<char>) -> bool {
    declares(nodes, environment) && solved_with(nodes, environment, name)
}

/// Whether a path leads to what the copy keeps: to anything but the other
/// environments.
pub open spec fn stays(nodes: Nodes, environment: Seq<char>, path: KeyPath) -> bool {
    environments_path().is_prefix_of(path) && path.len() > 1 ==> keeps(nodes, environment, path[1])
}

/// The nodes that the copy keeps.
pub open spec fn kept_nodes(nodes: Nodes, environment: Seq<char>) -> Nodes {
    Map::new(
        |p: Seq<Seq<char>>| nodes.dom().contains(p) && stays(nodes, environment, p),
        |p: Seq<Seq<char>>| nodes[p],
    )
}

/// The nodes with a default environment that composes nothing.
pub open spec fn with_inert_default(nodes: Nodes) -> Nodes {
    let path = environment_path("default"@);
    nodes.insert(path, inline_node()).insert(path.push("features"@), empty_array_node()).insert(
        path.push("no-default-feature"@),
        truth_node(true),
    )
}

/// The manifest of the copy in which an environment is checked: the environment
/// and those that are solved with it. The default environment is always there, and
/// is empty where it is not among them. Where the default environment is checked
/// and not declared, no environment is left.
pub open spec fn filtered(nodes: Nodes, environment: Seq<char>) -> Result<Nodes, Seq<char>> {
    if nodes.dom().contains(environments_path()) && !keyed_at(nodes, environments_path()) {
        Err("retread solve audit: `environments` must be a TOML table"@)
    } else if environment != "default"@ && !declares(nodes, environment) {
        Err(
            "retread solve audit: environment `"@ + environment
                + "` disappeared while filtering manifest"@,
        )
    } else if !declares(nodes, environment) {
        Ok(without(nodes, environments_path()))
    } else if environment == "default"@ || keeps(nodes, environment, "default"@) {
        Ok(kept_nodes(nodes, environment))
    } else {
        Ok(with_inert_default(kept_nodes(nodes, environment)))
    }
}

/// The keys of the table at a path of the copy, in order: they stand as `text` gives
/// them, but for the environments that are not kept, and a default environment that
/// is put in comes last.
pub open spec fn kept_order(
    nodes: Nodes,
    text: Seq<char>,
    environment: Seq<char>,
    path: KeyPath,
) -> Seq<Seq<char>> {
    let inert = environment != "default"@ && !keeps(nodes, environment, "default"@);
    if !declares(nodes, environment) {
        if path.len() == 0 {
            toml_keys(text, path).remove_value("environments"@)
        } else {
            toml_keys(text, path)
        }
    } else if path == environments_path() {
        let kept = kept_names(nodes, environment, toml_keys(text, path));
        if inert {
            with_key(kept, "default"@)
        } else {
            kept
        }
    } else if path == environment_path("default"@) && inert {
        seq!["features"@, "no-default-feature"@]
    } else {
        toml_keys(text, path)
    }
}

/// Those of the names whose environments the copy keeps.
pub open spec fn kept_names(
    nodes: Nodes,
    environment: Seq<char>,
    names: Seq<Seq<char>>,
) -> Seq<Seq<char>> {
    names.filter(|name: Seq<char>| keeps(nodes, environment, name))
}

fn path_of_environments() -> (r: Vec<String>)
    ensures
        r.deep_view() == environments_path(),
{
    let mut r: Vec<String> = Vec::new();
    assert(r.deep_view() =~= Seq::<Seq<char>>::empty());
    push_view(&mut r, "environments".to_owned());
    assert(r.deep_view() =~= environments_path());
    r
}

fn path_of_environment(name: &str) -> (r: Vec<String>)
    ensures
        r.deep_view() == environment_path(name@),
{
    let mut r = path_of_environments();
    push_view(&mut r, name.to_owned());
    assert(r.deep_view() =~= environment_path(name@));
    r
}

/// The group that an environment is solved in.
fn environment_solve_group(doc: &DocumentMut, name: &str) -> (r: Option<String>)
    ensures
        r.deep_view() == solve_group(doc_nodes(*doc), name@),
{
    let mut path = path_of_environment(name);
    match node_at(doc, &path) {
        Some(node) => {
            if !node.is_table && !node.is_inline {
                return None;
            }
        },
        None => {
            return None;
        },
    }
    push_view(&mut path, "solve-group".to_owned());
    match node_at(doc, &path) {
        Some(node) => {
            return node.value;
        },
        None => {},
    }
    let mut path = path_of_environment(name);
    push_view(&mut path, "solve_group".to_owned());
    match node_at(doc, &path) {
        Some(node) => node.value,
        None => None,
    }
}

fn same_group(a: &Option<String>, b: &Option<String>) -> (r: bool)
    ensures
        r == (a.deep_view() == b.deep_view()),
{
    match (a, b) {
        (Some(x), Some(y)) => text_eq(x, y),
        (None, None) => true,
        _ => false,
    }
}

/// What is kept after the environments before `i` were looked at.
spec fn partly_kept(nodes: Nodes, environment: Seq<char>, names: Seq<Seq<char>>, i: int) -> Nodes {
    Map::new(
        |p: Seq<Seq<char>>|
            nodes.dom().contains(p) && (stays(nodes, environment, p) || !names.take(i).contains(
                p[1],
            )),
        |p: Seq<Seq<char>>| nodes[p],
    )
}

proof fn lemma_one_dropped(nodes: Nodes, environment: Seq<char>, names: Seq<Seq<char>>, i: int)
    requires
        0 <= i < names.len(),
        names.no_duplicates(),
    ensures
        keeps(nodes, environment, names[i]) ==> partly_kept(nodes, environment, names, i + 1)
            == partly_kept(nodes, environment, names, i),
        !keeps(nodes, environment, names[i]) ==> partly_kept(nodes, environment, names, i + 1)
            == without(
            partly_kept(nodes, environment, names, i),
            environments_path().push(names[i]),
        ),
{
    let here = partly_kept(nodes, environment, names, i);
    let next = partly_kept(nodes, environment, names, i + 1);
    let gone = environments_path().push(names[i]);
    assert(names.take(i + 1) =~= names.take(i).push(names[i]));
    assert forall|p: Seq<Seq<char>>|
        nodes.dom().contains(p) && !stays(nodes, environment, p) implies (gone.is_prefix_of(p)
        <==> p[1] == names[i]) by {
        assert(environments_path().is_prefix_of(p));
        assert(p.subrange(0, 1) =~= environments_path());
        assert(p[0] == p.subrange(0, 1)[0]);
        if p[1] == names[i] {
            assert(p.subrange(0, 2) =~= gone);
        } else if gone.is_prefix_of(p) {
            assert(p.subrange(0, 2) == gone);
            assert(gone[1] == p.subrange(0, 2)[1]);
        }
    }
    assert forall|p: Seq<Seq<char>>| gone.is_prefix_of(p) implies environments_path().is_prefix_of(
        p,
    ) && p.len() > 1 && p[1] == names[i] by {
        assert(p.subrange(0, 2) == gone);
        assert(gone[1] == p.subrange(0, 2)[1]);
        assert(gone[0] == p.subrange(0, 2)[0]);
        assert(p.subrange(0, 1) =~= environments_path());
    }
    if keeps(nodes, environment, names[i]) {
        assert forall|p: Seq<Seq<char>>| next.dom().contains(p) == here.dom().contains(p) by {
            if nodes.dom().contains(p) && !stays(nodes, environment, p) {
                assert(!keeps(nodes, environment, p[1]));
                assert(names.take(i + 1).contains(p[1]) <==> names.take(i).contains(p[1]) || p[1]
                    == names[i]);
            }
        }
        assert(next =~= here);
    } else {
        assert forall|p: Seq<Seq<char>>| next.dom().contains(p) == without(here, gone).dom().contains(
            p,
        ) by {
            assert(names.take(i + 1).contains(p[1]) <==> names.take(i).contains(p[1]) || p[1]
                == names[i]);
        }
        assert(next =~= without(here, gone));
    }
}

proof fn lemma_one_left_out(
    nodes: Nodes,
    environment: Seq<char>,
    names: Seq<Seq<char>>,
    i: int,
)
    requires
        0 <= i < names.len(),
        names.no_duplicates(),
    ensures
        ({
            let here = kept_names(nodes, environment, names.take(i)) + names.skip(i);
            let next = kept_names(nodes, environment, names.take(i + 1)) + names.skip(i + 1);
            next == if keeps(nodes, environment, names[i]) {
                here
            } else {
                here.remove_value(names[i])
            }
        }),
{
    let kept = kept_names(nodes, environment, names.take(i));
    let here = kept + names.skip(i);
    let next = kept_names(nodes, environment, names.take(i + 1)) + names.skip(i + 1);
    reveal(Seq::filter);
    assert(names.take(i + 1).drop_last() =~= names.take(i));
    assert(names.take(i + 1).last() == names[i]);
    if keeps(nodes, environment, names[i]) {
        assert(next =~= here);
    } else {
        assert(here[kept.len() as int] == names[i]);
        assert forall|k: int| 0 <= k < kept.len() implies here[k] != names[i] by {
            names.take(i).lemma_filter_pred(
                |name: Seq<char>| keeps(nodes, environment, name),
                k,
            );
        }
        assert(here.contains(names[i]));
        let first = here.index_of_first(names[i]);
        here.index_of_first_ensures(names[i]);
        assert(first == Some(kept.len() as int));
        assert(here.remove(kept.len() as int) =~= next);
    }
}

fn drop_others(doc: &mut DocumentMut, environment: &str)
    requires
        is_rooted(doc_nodes(*old(doc))),
        keyed_at(doc_nodes(*old(doc)), environments_path()),
        declares(doc_nodes(*old(doc)), environment@),
    ensures
        doc_nodes(*final(doc)) == kept_nodes(doc_nodes(*old(doc)), environment@),
        forall|p: Seq<Seq<char>>|
            keyed_at(doc_nodes(*final(doc)), p) ==> #[trigger] doc_keys(*final(doc), p) == if p
                == environments_path() {
                kept_names(doc_nodes(*old(doc)), environment@, doc_keys(*old(doc), p))
            } else {
                doc_keys(*old(doc), p)
            },
{
    let ghost nodes = doc_nodes(*doc);
    let ghost before = *doc;
    let path = path_of_environments();
    let names = keys_at(doc, &path);
    let ghost all = names.deep_view();
    let group = environment_solve_group(doc, environment);
    let n: usize = names.len();
    let mut kept: Vec<bool> = Vec::new();
    let mut k: usize = 0;
    while k < n
        invariant
            k <= n,
            n == names@.len(),
            all == names.deep_view(),
            nodes == doc_nodes(*doc),
            declares(nodes, environment@),
            group.deep_view() == solve_group(nodes, environment@),
            kept@.len() == k,
            forall|j: int| 0 <= j < k ==> kept@[j] == keeps(nodes, environment@, all[j]),
        decreases n - k,
    {
        assert(all[k as int] == names@[k as int].deep_view());
        let stay: bool = match &group {
            Some(_) => same_group(&environment_solve_group(doc, &names[k]), &group),
            None => text_eq(&names[k], environment),
        };
        kept.push(stay);
        k = k + 1;
    }
    let mut i: usize = 0;
    proof {
        assert(all.take(0) =~= Seq::<Seq<char>>::empty());
        assert(partly_kept(nodes, environment@, all, 0) =~= nodes);
        reveal(Seq::filter);
        assert(kept_names(nodes, environment@, all.take(0)) + all.skip(0) =~= all);
    }
    while i < n
        invariant
            i <= n,
            n == names@.len(),
            n == kept@.len(),
            all == names.deep_view(),
            all.no_duplicates(),
            path.deep_view() == environments_path(),
            keyed_at(nodes, environments_path()),
            forall|j: int| 0 <= j < n ==> kept@[j] == keeps(nodes, environment@, all[j]),
            doc_nodes(*doc) == partly_kept(nodes, environment@, all, i as int),
            forall|p: Seq<Seq<char>>|
                keyed_at(doc_nodes(*doc), p) ==> #[trigger] doc_keys(*doc, p) == if p
                    == environments_path() {
                    kept_names(nodes, environment@, all.take(i as int)) + all.skip(i as int)
                } else {
                    doc_keys(before, p)
                },
        decreases n - i,
    {
        assert(all[i as int] == names@[i as int].deep_view());
        proof {
            lemma_one_dropped(nodes, environment@, all, i as int);
            lemma_one_left_out(nodes, environment@, all, i as int);
            assert(stays(nodes, environment@, environments_path()));
        }
        let ghost here = *doc;
        if !kept[i] {
            remove_key(doc, &path, &names[i]);
            assert forall|p: Seq<Seq<char>>|
                keyed_at(doc_nodes(*doc), p) implies #[trigger] doc_keys(*doc, p) == if p
                == environments_path() {
                kept_names(nodes, environment@, all.take(i + 1)) + all.skip(i + 1)
            } else {
                doc_keys(before, p)
            } by {
                assert(doc_orders(*doc)[p] == doc_keys(*doc, p));
                assert(keyed_at(doc_nodes(here), p));
                assert(doc_orders(here)[p] == doc_keys(here, p));
            }
        }
        i = i + 1;
    }
    proof {
        assert(all.skip(n as int) =~= Seq::<Seq<char>>::empty());
        assert(all.take(n as int) =~= all);
        let after = partly_kept(nodes, environment@, all, n as int);
        assert forall|p: Seq<Seq<char>>|
            nodes.dom().contains(p) && !stays(nodes, environment@, p) implies all.contains(
            p[1],
        ) by {
            assert(p.subrange(0, 1) == environments_path());
            assert(p[0] == p.subrange(0, 1)[0]);
            assert(p.take(2) =~= environments_path().push(p[1]));
            assert(nodes.dom().contains(p.take(2)));
        }
        assert(after =~= kept_nodes(nodes, environment@));
    }
}

fn put_inert_default(doc: &mut DocumentMut)
    requires
        keyed_at(doc_nodes(*old(doc)), environments_path()),
        forall|p: Seq<Seq<char>>|
            environment_path("default"@).is_prefix_of(p) ==> !#[trigger] doc_nodes(
                *old(doc),
            ).dom().contains(p),
    ensures
        doc_nodes(*final(doc)) == with_inert_default(doc_nodes(*old(doc))),
        forall|p: Seq<Seq<char>>|
            keyed_at(doc_nodes(*final(doc)), p) ==> #[trigger] doc_keys(*final(doc), p) == if p
                == environments_path() {
                with_key(doc_keys(*old(doc), p), "default"@)
            } else if p == environment_path("default"@) {
                seq!["features"@, "no-default-feature"@]
            } else {
                doc_keys(*old(doc), p)
            },
{
    let ghost nodes = doc_nodes(*doc);
    let ghost start = *doc;
    let ghost path = environment_path("default"@);
    let ghost features = path.push("features"@);
    let ghost flag = path.push("no-default-feature"@);
    assert(environments_path().push("default"@) =~= path);
    put_inline_table(doc, &path_of_environments(), "default");
    assert(without(nodes, path) =~= nodes);
    let inner = path_of_environment("default");
    put_empty_array(doc, &inner, "features");
    proof {
        assert(!features.is_prefix_of(path));
        assert forall|p: Seq<Seq<char>>| features.is_prefix_of(p) implies path.is_prefix_of(p) by {
            assert(p.subrange(0, 3) == features);
            assert(p.subrange(0, 2) =~= features.subrange(0, 2));
            assert(features.subrange(0, 2) =~= path);
        }
        assert(without(nodes.insert(path, inline_node()), features) =~= nodes.insert(
            path,
            inline_node(),
        ));
    }
    put_truth(doc, &inner, "no-default-feature", true);
    proof {
        assert(!flag.is_prefix_of(path));
        reveal_strlit("features");
        reveal_strlit("no-default-feature");
        assert("features"@.len() == 8);
        assert("no-default-feature"@.len() == 18);
        if flag.is_prefix_of(features) {
            assert(features.subrange(0, 3) =~= features);
            assert(features[2] == flag[2]);
        }
        assert forall|p: Seq<Seq<char>>| flag.is_prefix_of(p) implies path.is_prefix_of(p) by {
            assert(p.subrange(0, 3) == flag);
            assert(p.subrange(0, 2) =~= flag.subrange(0, 2));
            assert(flag.subrange(0, 2) =~= path);
        }
        let before = nodes.insert(path, inline_node()).insert(features, empty_array_node());
        assert(without(before, flag) =~= before);
        let last = seq!["features"@, "no-default-feature"@];
        assert(with_key(with_key(Seq::empty(), "features"@), "no-default-feature"@) =~= last);
        assert forall|p: Seq<Seq<char>>|
            keyed_at(doc_nodes(*doc), p) implies #[trigger] doc_keys(*doc, p) == if p
            == environments_path() {
            with_key(doc_keys(start, p), "default"@)
        } else if p == path {
            last
        } else {
            doc_keys(start, p)
        } by {
            assert(doc_orders(*doc)[p] == doc_keys(*doc, p));
            if p != path {
                assert(keyed_at(nodes, p));
                assert(doc_orders(start)[p] == doc_keys(start, p));
            }
        }
    }
}

/// The manifest of the copy in which an environment is checked. What it does not
/// take out stays, with its keys in their order. Nothing is claimed of how the text is
/// laid out.
pub fn filtered_audit_manifest(manifest_source: &str, environment: &str) -> (r: Result<
    String,
    String,
>)
    ensures
        match toml_read(manifest_source@) {
            Err(_) => r matches Err(e) && e@
                == "retread solve audit: failed parsing editable manifest"@,
            Ok(nodes) => match filtered(nodes, environment@) {
                Err(text) => r matches Err(e) && e@ == text,
                Ok(want) => r matches Ok(text) && exists|doc: DocumentMut| #[trigger]
                    doc_nodes(doc) == want && text@ == doc_text(doc) && (forall|p: Seq<Seq<char>>|
                        keyed_at(want, p) ==> #[trigger] doc_keys(doc, p) == kept_order(
                            nodes,
                            manifest_source@,
                            environment@,
                            p,
                        )),
            },
        },
{
    let mut doc: DocumentMut = match parse_document(manifest_source) {
        Ok(doc) => doc,
        Err(_) => {
            return Err("retread solve audit: failed parsing editable manifest".to_owned());
        },
    };
    let ghost nodes = doc_nodes(doc);
    let path = path_of_environments();
    let mut declared: bool = false;
    match node_at(&doc, &path) {
        Some(node) => {
            if !node.is_table && !node.is_inline {
                return Err("retread solve audit: `environments` must be a TOML table".to_owned());
            }
            declared = node_at(&doc, &path_of_environment(environment)).is_some();
        },
        None => {
            assert(environment_path(environment@).take(1) =~= environments_path());
        },
    }
    if !declared {
        if !text_eq(environment, "default") {
            let mut s: String = "retread solve audit: environment `".to_owned();
            s.append(environment);
            s.append("` disappeared while filtering manifest");
            return Err(s);
        }
        let root: Vec<String> = Vec::new();
        assert(root.deep_view() =~= Seq::<Seq<char>>::empty());
        assert(root.deep_view().push("environments"@) =~= environments_path());
        let ghost start = doc;
        remove_key(&mut doc, &root, "environments");
        assert forall|p: Seq<Seq<char>>|
            keyed_at(doc_nodes(doc), p) implies #[trigger] doc_keys(doc, p) == kept_order(
            nodes,
            manifest_source@,
            environment@,
            p,
        ) by {
            assert(doc_orders(doc)[p] == doc_keys(doc, p));
            assert(keyed_at(nodes, p));
            assert(doc_orders(start)[p] == doc_keys(start, p));
            if p.len() == 0 {
                assert(p =~= Seq::<Seq<char>>::empty());
            }
        }
        return Ok(render_document(&doc));
    }
    let group = environment_solve_group(&doc, environment);
    let keep_default: bool = match &group {
        Some(_) => same_group(&environment_solve_group(&doc, "default"), &group),
        None => text_eq("default", environment),
    };
    drop_others(&mut doc, environment);
    if !text_eq(environment, "default") && !keep_default {
        proof {
            let after = doc_nodes(doc);
            assert(stays(nodes, environment@, environments_path()));
            assert(keyed_at(after, environments_path()));
            assert forall|p: Seq<Seq<char>>|
                environment_path("default"@).is_prefix_of(p) implies !after.dom().contains(p) by {
                assert(p.subrange(0, 2) == environment_path("default"@));
                assert(p.subrange(0, 2)[1] == p[1]);
                assert(p.subrange(0, 1) =~= environments_path()) by {
                    assert(p.subrange(0, 2)[0] == p[0]);
                }
            }
        }
        put_inert_default(&mut doc);
    }
    Ok(render_document(&doc))
}

/// Checking an environment changes nothing of the manifest but its environments.
pub proof fn law_filtering_touches_environments_only(
    nodes: Nodes,
    environment: Seq<char>,
    path: KeyPath,
)
    requires
        filtered(nodes, environment) is Ok,
        !environments_path().is_prefix_of(path),
    ensures
        ({
            let after = filtered(nodes, environment)->Ok_0;
            &&& after.dom().contains(path) <==> nodes.dom().contains(path)
            &&& nodes.dom().contains(path) ==> after[path] == nodes[path]
        }),
{
    let own = environment_path("default"@);
    assert(own.subrange(0, 1) =~= environments_path());
    assert(own.push("features"@).subrange(0, 1) =~= environments_path());
    assert(own.push("no-default-feature"@).subrange(0, 1) =~= environments_path());
}

/// The environment that is checked is in the copy as it is declared, and so are those
/// that are solved with it; and of the others only an empty default one is.
pub proof fn law_checked_environment_stays(
    nodes: Nodes,
    environment: Seq<char>,
    name: Seq<char>,
    path: KeyPath,
)
    requires
        filtered(nodes, environment) is Ok,
        environment_path(name).is_prefix_of(path),
    ensures
        ({
            let after = filtered(nodes, environment)->Ok_0;
            if keeps(nodes, environment, name) {
                &&& after.dom().contains(path) <==> nodes.dom().contains(path)
                &&& nodes.dom().contains(path) ==> after[path] == nodes[path]
            } else {
                after.dom().contains(path) ==> name == "default"@ && environment != "default"@
            }
        }),
{
    assert(path.subrange(0, 2) == environment_path(name));
    assert(path.subrange(0, 2)[1] == path[1]);
    assert(path.subrange(0, 2)[0] == path[0]);
    assert(path.subrange(0, 1) =~= environments_path());
}

// ---------------------------------------------------------------------------
// The directories of the copy
// ---------------------------------------------------------------------------

/// The first name from `from` on in a path that was cut at its slashes.
pub open spec fn first_name(parts: Seq<Seq<char>>, from: int) -> Option<Seq<char>>
    decreases parts.len() - from,
{
    if from < 0 || from >= parts.len() {
        None
    } else if parts[from] == ""@ || parts[from] == "."@ {
        first_name(parts, from + 1)
    } else {
        Some(parts[from])
    }
}

/// What is told of a path dependency that lies outside of the workspace.
pub open spec fn external_error(raw: Seq<char>) -> Seq<char> {
    "retread solve audit: external path dependency `"@ + raw + "` cannot be isolated read-only"@
}

/// The name in the workspace under which a path dependency lies. One outside of the
/// workspace, and the workspace itself, cannot be copied.
pub open spec fn top_name(raw: Seq<char>) -> Result<Seq<char>, Seq<char>> {
    let parts = pieces(raw, '/');
    if "/"@.is_prefix_of(raw) || parts.contains(".."@) {
        Err(external_error(raw))
    } else {
        match first_name(parts, 0) {
            Some(name) => Ok(name),
            None => Err(
                "retread solve audit: workspace-root path dependency `"@ + raw
                    + "` cannot be isolated read-only"@,
            ),
        }
    }
}

/// The directories of a workspace that hold a path dependency, each once; or what is
/// wrong with the first that cannot be copied.
pub open spec fn mutable_entries(paths: Seq<Seq<char>>, dir: Seq<char>) -> Result<
    Seq<Seq<char>>,
    Seq<char>,
>
    decreases paths.len(),
{
    if paths.len() == 0 {
        Ok(Seq::empty())
    } else {
        match mutable_entries(paths.drop_last(), dir) {
            Err(e) => Err(e),
            Ok(before) => match top_name(paths.last()) {
                Err(e) => Err(e),
                Ok(name) => {
                    let entry = path_joined(dir, name);
                    if before.contains(entry) {
                        Ok(before)
                    } else {
                        Ok(before.push(entry))
                    }
                },
            },
        }
    }
}

/// The paths that tables of path dependencies give, one table after the other.
pub open spec fn all_paths(tables: Seq<Seq<(Seq<char>, Seq<char>)>>) -> Seq<Seq<char>>
    decreases tables.len(),
{
    if tables.len() == 0 {
        Seq::empty()
    } else {
        all_paths(tables.drop_last()) + tables.last().map_values(
            |d: (Seq<char>, Seq<char>)| d.1,
        )
    }
}

fn find_top_name(raw: &str) -> (r: Result<String, String>)
    ensures
        match top_name(raw@) {
            Ok(name) => r matches Ok(n) && n@ == name,
            Err(text) => r matches Err(e) && e@ == text,
        },
{
    let parts = split(raw, '/');
    if starts_with(raw, "/") || holds_text(&parts, "..") {
        let mut s: String = "retread solve audit: external path dependency `".to_owned();
        s.append(raw);
        s.append("` cannot be isolated read-only");
        return Err(s);
    }
    let ghost all = parts.deep_view();
    let n: usize = parts.len();
    let mut i: usize = 0;
    while i < n
        invariant
            i <= n,
            n == parts@.len(),
            all == parts.deep_view(),
            first_name(all, 0) == first_name(all, i as int),
            all == pieces(raw@, '/'),
            !"/"@.is_prefix_of(raw@),
            !all.contains(".."@),
        decreases n - i,
    {
        assert(all[i as int] == parts@[i as int].deep_view());
        if !text_eq(&parts[i], "") && !text_eq(&parts[i], ".") {
            return Ok(parts[i].clone());
        }
        i = i + 1;
    }
    let mut s: String = "retread solve audit: workspace-root path dependency `".to_owned();
    s.append(raw);
    s.append("` cannot be isolated read-only");
    Err(s)
}

/// The paths that tables of path dependencies give, one table after the other.
pub fn paths_in(tables: &Vec<Vec<(String, String)>>) -> (r: Vec<String>)
    ensures
        r.deep_view() == all_paths(tables.deep_view()),
{
    let ghost all = tables.deep_view();
    let mut out: Vec<String> = Vec::new();
    assert(out.deep_view() =~= Seq::<Seq<char>>::empty());
    let n: usize = tables.len();
    let mut i: usize = 0;
    while i < n
        invariant
            i <= n,
            n == tables@.len(),
            all == tables.deep_view(),
            out.deep_view() == all_paths(all.take(i as int)),
        decreases n - i,
    {
        assert(all.take(i + 1).drop_last() =~= all.take(i as int));
        assert(all.take(i + 1).last() == all[i as int]);
        assert(all[i as int] == tables@[i as int].deep_view());
        let ghost before = out.deep_view();
        let ghost table = all[i as int];
        let ghost f = |d: (Seq<char>, Seq<char>)| d.1;
        let m: usize = tables[i].len();
        let mut k: usize = 0;
        assert(out.deep_view() =~= before + table.take(0).map_values(f));
        while k < m
            invariant
                i < n,
                n == tables@.len(),
                k <= m,
                m == tables@[i as int]@.len(),
                table == tables@[i as int].deep_view(),
                f == (|d: (Seq<char>, Seq<char>)| d.1),
                out.deep_view() == before + table.take(k as int).map_values(f),
            decreases m - k,
        {
            assert(table[k as int] == tables@[i as int]@[k as int].deep_view());
            push_view(&mut out, tables[i][k].1.clone());
            assert(out.deep_view() =~= before + table.take(k + 1).map_values(f));
            k = k + 1;
        }
        assert(table.take(m as int) =~= table);
        i = i + 1;
    }
    assert(all.take(n as int) =~= all);
    out
}

/// The directories of a workspace that hold a path dependency, each once. They are
/// copied, since a backend may write beside the manifest that it builds from. The
/// tables are every table of path dependencies that the manifest has: the top-level
/// one, those of its targets, those of its features and those of their targets.
pub fn audit_mutable_path_entries(
    project_dir: &str,
    tables: &Vec<Vec<(String, String)>>,
) -> (r: Result<Vec<String>, String>)
    ensures
        match mutable_entries(all_paths(tables.deep_view()), project_dir@) {
            Ok(entries) => r matches Ok(v) && v.deep_view() == entries,
            Err(text) => r matches Err(e) && e@ == text,
        },
{
    let paths = paths_in(tables);
    let ghost all = paths.deep_view();
    let mut out: Vec<String> = Vec::new();
    assert(out.deep_view() =~= Seq::<Seq<char>>::empty());
    let n: usize = paths.len();
    let mut i: usize = 0;
    while i < n
        invariant
            i <= n,
            n == paths@.len(),
            all == paths.deep_view(),
            all == all_paths(tables.deep_view()),
            mutable_entries(all.take(i as int), project_dir@) == Ok::<Seq<Seq<char>>, Seq<char>>(
                out.deep_view(),
            ),
        decreases n - i,
    {
        assert(all.take(i + 1).drop_last() =~= all.take(i as int));
        assert(all.take(i + 1).last() == all[i as int]);
        assert(all[i as int] == paths@[i as int].deep_view());
        match find_top_name(&paths[i]) {
            Ok(name) => {
                let entry: String = join_path(project_dir, &name);
                if !holds_text(&out, &entry) {
                    push_view(&mut out, entry);
                }
            },
            Err(e) => {
                proof {
                    lemma_first_error_stays(all, project_dir@, i + 1);
                }
                return Err(e);
            },
        }
        i = i + 1;
    }
    assert(all.take(n as int) =~= all);
    Ok(out)
}

proof fn lemma_first_error_stays(paths: Seq<Seq<char>>, dir: Seq<char>, n: int)
    requires
        0 <= n <= paths.len(),
        mutable_entries(paths.take(n), dir) is Err,
    ensures
        mutable_entries(paths, dir) == mutable_entries(paths.take(n), dir),
    decreases paths.len() - n,
{
    if n < paths.len() {
        assert(paths.take(n + 1).drop_last() =~= paths.take(n));
        lemma_first_error_stays(paths, dir, n + 1);
    } else {
        assert(paths.take(n) =~= paths);
    }
}

/// What becomes of an entry of the workspace in its copy.
#[derive(Debug, Clone, Copy, PartialEq, Eq, Structural)]
pub enum ShadowEntry {
    LeftOut,
    Copied,
    Linked,
}

/// Whether an entry of the workspace is made anew in its copy, or has no place there.
pub open spec fn is_left_out(name: Seq<char>, manifest_name: Option<Seq<char>>) -> bool {
    ||| manifest_name == Some(name)
    ||| name == "pixi.toml"@
    ||| name == "pixi.lock"@
    ||| name == ".pixi"@
    ||| name == ".retread"@
}

/// What becomes of an entry of the workspace in its copy: the manifest, the lock and
/// what the tools keep for themselves are left out, a directory that holds a path
/// dependency is copied, and the rest is linked.
pub fn shadow_entry(
    name: &str,
    manifest_name: Option<&str>,
    source: &str,
    copied: &Vec<String>,
) -> (r: ShadowEntry)
    ensures
        r == if is_left_out(name@, manifest_name.deep_view()) {
            ShadowEntry::LeftOut
        } else if copied.deep_view().contains(source@) {
            ShadowEntry::Copied
        } else {
            ShadowEntry::Linked
        },
{
    let is_manifest: bool = match manifest_name {
        Some(m) => text_eq(m, name),
        None => false,
    };
    if is_manifest || text_eq(name, "pixi.toml") || text_eq(name, "pixi.lock") || text_eq(
        name,
        ".pixi",
    ) || text_eq(name, ".retread") {
        ShadowEntry::LeftOut
    } else if holds_text(copied, source) {
        ShadowEntry::Copied
    } else {
        ShadowEntry::Linked
    }
}

/// The name of a copy of the workspace, beside it.
pub fn shadow_name(workspace_name: &str, process: u32, serial: u64) -> (r: String)
    ensures
        r@ == "."@ + workspace_name@ + "-retread-audit-"@ + decimal(process as nat) + "-"@
            + decimal(serial as nat),
{
    let mut s: String = ".".to_owned();
    s.append(workspace_name);
    s.append("-retread-audit-");
    s.append(&decimal_text(process as u64));
    s.append("-");
    s.append(&decimal_text(serial));
    s
}

/// No directory that holds a path dependency is linked back to the workspace.
pub proof fn law_path_dependencies_are_copied(paths: Seq<Seq<char>>, dir: Seq<char>, at: int)
    requires
        0 <= at < paths.len(),
        mutable_entries(paths, dir) is Ok,
    ensures
        top_name(paths[at]) is Ok,
        mutable_entries(paths, dir)->Ok_0.contains(path_joined(dir, top_name(paths[at])->Ok_0)),
    decreases paths.len(),
{
    let rest = paths.drop_last();
    let before = mutable_entries(rest, dir)->Ok_0;
    let after = mutable_entries(paths, dir)->Ok_0;
    let entry = path_joined(dir, top_name(paths.last())->Ok_0);
    if at < paths.len() - 1 {
        law_path_dependencies_are_copied(rest, dir, at);
        assert(rest[at] == paths[at]);
        let e = path_joined(dir, top_name(paths[at])->Ok_0);
        if !before.contains(entry) {
            let k = choose|k: int| 0 <= k < before.len() && before[k] == e;
            assert(after[k] == e);
        }
    } else {
        if !before.contains(entry) {
            assert(after.last() == entry);
        }
    }
}

// ---------------------------------------------------------------------------
// Laws of the copy
// ---------------------------------------------------------------------------

/// Whether an environment says that it is solved in a group: under `solve-group`, or
/// under `solve_group` where it does not have the other key.
pub open spec fn is_in_group(nodes: Nodes, name: Seq<char>, group: Seq<char>) -> bool {
    let at = seq!["environments"@, name];
    let key = seq!["environments"@, name, "solve-group"@];
    let older = seq!["environments"@, name, "solve_group"@];
    &&& keyed_at(nodes, at)
    &&& if nodes.dom().contains(key) {
        nodes[key].value == Some(group)
    } else {
        nodes.dom().contains(older) && nodes[older].value == Some(group)
    }
}

proof fn lemma_group(nodes: Nodes, name: Seq<char>, group: Seq<char>)
    ensures
        solve_group(nodes, name) == Some(group) <==> is_in_group(nodes, name, group),
{
    let at = environment_path(name);
    assert(at.push("solve-group"@) =~= seq!["environments"@, name, "solve-group"@]);
    assert(at.push("solve_group"@) =~= seq!["environments"@, name, "solve_group"@]);
}

/// The copy has an environment other than the default one where the environment that is
/// checked is that one, or both are in one group; and only there.
pub proof fn law_copy_has_the_group(
    nodes: Nodes,
    environment: Seq<char>,
    name: Seq<char>,
    group: Seq<char>,
)
    requires
        filtered(nodes, environment) is Ok,
        nodes.dom().contains(seq!["environments"@, environment]),
        nodes.dom().contains(seq!["environments"@, name]),
        name != "default"@,
    ensures
        ({
            let after = filtered(nodes, environment)->Ok_0;
            let at = seq!["environments"@, name];
            &&& is_in_group(nodes, environment, group) ==> (after.dom().contains(at)
                <==> is_in_group(nodes, name, group))
            &&& (forall|g: Seq<char>| !#[trigger] is_in_group(nodes, environment, g)) ==> (
            after.dom().contains(at) <==> name == environment)
        }),
{
    let at = environment_path(name);
    lemma_group(nodes, environment, group);
    lemma_group(nodes, name, group);
    if let Some(g) = solve_group(nodes, environment) {
        lemma_group(nodes, environment, g);
        lemma_group(nodes, name, g);
    }
    assert(at.subrange(0, 2) =~= at);
    law_checked_environment_stays(nodes, environment, name, at);
}

/// Where the default environment is not solved with the one that is checked, the copy has
/// one that composes nothing, not even the top-level tables.
pub proof fn law_copy_has_an_empty_default(
    nodes: Nodes,
    environment: Seq<char>,
    group: Seq<char>,
)
    requires
        filtered(nodes, environment) is Ok,
        environment != "default"@,
        (is_in_group(nodes, environment, group) && !is_in_group(nodes, "default"@, group)) || (
        forall|g: Seq<char>| !#[trigger] is_in_group(nodes, environment, g)),
    ensures
        ({
            let after = filtered(nodes, environment)->Ok_0;
            let listed = seq!["environments"@, "default"@, "features"@];
            let flag = seq!["environments"@, "default"@, "no-default-feature"@];
            &&& after.dom().contains(listed) && after[listed].elements == Some(
                Seq::<Option<Seq<char>>>::empty(),
            )
            &&& after.dom().contains(flag) && after[flag].truth == Some(true)
        }),
{
    let at = environment_path("default"@);
    let listed = at.push("features"@);
    let flag = at.push("no-default-feature"@);
    assert(listed =~= seq!["environments"@, "default"@, "features"@]);
    assert(flag =~= seq!["environments"@, "default"@, "no-default-feature"@]);
    lemma_group(nodes, environment, group);
    lemma_group(nodes, "default"@, group);
    if let Some(g) = solve_group(nodes, environment) {
        lemma_group(nodes, environment, g);
    }
    reveal_strlit("features");
    reveal_strlit("no-default-feature");
    assert("features"@.len() == 8 && "no-default-feature"@.len() == 18);
    assert(listed[2] == "features"@ && flag[2] == "no-default-feature"@);
    assert(listed != flag);
}

/// Environments that are no table cannot be filtered, nor can one be checked that is not
/// declared, unless it is the default one: then the copy declares none.
pub proof fn law_undeclared_environment_is_refused(
    nodes: Nodes,
    environment: Seq<char>,
    path: KeyPath,
)
    requires
        !nodes.dom().contains(seq!["environments"@, environment]),
    ensures
        nodes.dom().contains(seq!["environments"@]) && !nodes[seq!["environments"@]].is_table
            && !nodes[seq!["environments"@]].is_inline ==> filtered(nodes, environment) is Err,
        environment != "default"@ ==> filtered(nodes, environment) is Err,
        environment != "default"@ && !nodes.dom().contains(seq!["environments"@]) ==> filtered(
            nodes,
            environment,
        ) == Err::<Nodes, Seq<char>>(
            "retread solve audit: environment `"@ + environment
                + "` disappeared while filtering manifest"@,
        ),
        (filtered(nodes, environment) matches Ok(after) && path.len() > 0 && path[0]
            == "environments"@) ==> !filtered(nodes, environment)->Ok_0.dom().contains(path),
{
    if path.len() > 0 && path[0] == "environments"@ {
        assert(path.subrange(0, 1) =~= environments_path());
    }
}

proof fn lemma_pieces_behind(name: Seq<char>, rest: Seq<char>)
    requires
        !name.contains('/'),
    ensures
        pieces(name, '/') == seq![name],
        pieces(name + seq!['/'] + rest, '/') == seq![name] + pieces(rest, '/'),
    decreases name.len() + rest.len(),
{
    if rest.len() > 0 {
        let short = rest.drop_last();
        let whole = name + seq!['/'] + rest;
        lemma_pieces_behind(name, short);
        lemma_pieces_nonempty(short, '/');
        assert(whole.drop_last() =~= name + seq!['/'] + short);
        assert(whole.last() == rest.last());
        let p = pieces(short, '/');
        let before = seq![name] + p;
        assert(before.drop_last() =~= seq![name] + p.drop_last());
        assert(before.last() == p.last());
        assert(pieces(whole, '/') =~= seq![name] + pieces(rest, '/'));
    } else {
        if name.len() > 0 {
            let short = name.drop_last();
            assert forall|k: int| 0 <= k < short.len() implies short[k] != '/' by {
                assert(name.contains(name[k]));
            }
            lemma_pieces_behind(short, rest);
            assert(name[name.len() - 1] == name.last());
            assert(name.contains(name.last()));
            let before = pieces(short, '/');
            assert(before.drop_last() =~= Seq::<Seq<char>>::empty());
            assert(before.last() == short);
            assert(short.push(name.last()) =~= name);
            assert(pieces(name, '/') =~= seq![name]);
        } else {
            assert(name =~= Seq::<char>::empty());
            assert(pieces(name, '/') =~= seq![name]);
        }
        let whole = name + seq!['/'] + rest;
        assert(whole.drop_last() =~= name);
        assert(whole.last() == '/');
        assert(pieces(rest, '/') =~= seq![Seq::<char>::empty()]);
        assert(pieces(whole, '/') =~= seq![name] + pieces(rest, '/'));
    }
}

/// A path dependency lies under the first name of its path, where that is a name and
/// nothing leads back out behind it.
pub proof fn law_dependency_lies_under_its_first_name(name: Seq<char>, rest: Seq<char>)
    requires
        name.len() > 0,
        !name.contains('/'),
        name != "."@,
        name != ".."@,
        !pieces(rest, '/').contains(".."@),
    ensures
        top_name(name) == Ok::<Seq<char>, Seq<char>>(name),
        top_name(name + seq!['/'] + rest) == Ok::<Seq<char>, Seq<char>>(name),
        top_name("./"@ + name) == Ok::<Seq<char>, Seq<char>>(name),
{
    reveal_strlit("/");
    reveal_strlit("");
    reveal_strlit(".");
    reveal_strlit("..");
    reveal_strlit("./");
    lemma_pieces_behind(name, rest);
    let a = name + seq!['/'] + rest;
    assert(name[0] != '/') by {
        assert(name.contains(name[0]));
    }
    assert(a[0] == name[0]);
    assert(name.subrange(0, 1)[0] == name[0]);
    assert(a.subrange(0, 1)[0] == a[0]);
    assert("/"@[0] == '/');
    let p = pieces(a, '/');
    assert(p[0] == name);
    assert(!p.contains(".."@)) by {
        if p.contains(".."@) {
            let k = choose|k: int| 0 <= k < p.len() && p[k] == ".."@;
            if k > 0 {
                assert(pieces(rest, '/')[k - 1] == ".."@);
            }
        }
    }
    assert(pieces(name, '/')[0] == name);
    assert(first_name(p, 0) == Some(name));
    assert(first_name(pieces(name, '/'), 0) == Some(name));
    let dot = seq!['.'];
    let b = "./"@ + name;
    assert(b =~= dot + seq!['/'] + name);
    assert(dot =~= "."@);
    assert forall|k: int| 0 <= k < dot.len() implies dot[k] != '/' by {}
    lemma_pieces_behind(dot, name);
    let q = pieces(b, '/');
    assert(q =~= seq![dot, name]);
    assert(q[0] == "."@ && q[1] == name);
    assert(first_name(q, 1) == Some(name));
    assert(b.subrange(0, 1)[0] == b[0]);
    assert(b[0] == '.');
    assert(".."@.len() == 2 && "."@.len() == 1);
}

/// A path dependency that is absolute, or that leads out of the workspace anywhere on its
/// way, cannot be copied, and is what is told.
pub proof fn law_outer_dependency_is_refused(raw: Seq<char>)
    ensures
        (raw.len() > 0 && raw[0] == '/') || pieces(raw, '/').contains(".."@) ==> top_name(raw)
            == Err::<Seq<char>, Seq<char>>(
            "retread solve audit: external path dependency `"@ + raw
                + "` cannot be isolated read-only"@,
        ),
        top_name(Seq::empty()) is Err,
        top_name("."@) is Err,
{
    reveal_strlit("/");
    reveal_strlit("");
    reveal_strlit(".");
    reveal_strlit("..");
    if raw.len() > 0 && raw[0] == '/' {
        assert(raw.subrange(0, 1) =~= "/"@);
    }
    let none = Seq::<char>::empty();
    assert(none =~= ""@);
    lemma_pieces_behind(none, none);
    assert forall|k: int| 0 <= k < "."@.len() implies "."@[k] != '/' by {}
    lemma_pieces_behind("."@, none);
    assert(pieces(none, '/')[0] == ""@);
    assert(pieces("."@, '/')[0] == "."@);
    assert(first_name(pieces(none, '/'), 1) is None);
    assert(first_name(pieces("."@, '/'), 1) is None);
}

/// Only directories that hold a path dependency are copied, and each once.
pub proof fn law_only_dependencies_are_copied(paths: Seq<Seq<char>>, dir: Seq<char>)
    requires
        mutable_entries(paths, dir) is Ok,
    ensures
        mutable_entries(paths, dir)->Ok_0.no_duplicates(),
        forall|e: Seq<char>| #[trigger]
            mutable_entries(paths, dir)->Ok_0.contains(e) ==> exists|i: int|
                0 <= i < paths.len() && (top_name(#[trigger] paths[i]) matches Ok(name) && e
                    == path_joined(dir, name)),
    decreases paths.len(),
{
    if paths.len() > 0 {
        let rest = paths.drop_last();
        law_only_dependencies_are_copied(rest, dir);
        let before = mutable_entries(rest, dir)->Ok_0;
        let after = mutable_entries(paths, dir)->Ok_0;
        let n = paths.len() - 1;
        assert(paths[n] == paths.last());
        assert forall|e: Seq<char>| #[trigger] after.contains(e) implies exists|i: int|
            0 <= i < paths.len() && (top_name(#[trigger] paths[i]) matches Ok(name) && e
                == path_joined(dir, name)) by {
            if before.contains(e) {
                let i = choose|i: int|
                    0 <= i < rest.len() && (top_name(#[trigger] rest[i]) matches Ok(name) && e
                        == path_joined(dir, name));
                assert(paths[i] == rest[i]);
            } else {
                assert(top_name(paths[n]) matches Ok(name) && e == path_joined(dir, name));
            }
        }
    }
}

/// A path that cannot be copied is what is told, where none before it is such a path.
pub proof fn law_first_outer_dependency_is_told(paths: Seq<Seq<char>>, dir: Seq<char>, at: int)
    requires
        0 <= at < paths.len(),
        top_name(paths[at]) is Err,
        forall|i: int| 0 <= i < at ==> top_name(#[trigger] paths[i]) is Ok,
    ensures
        mutable_entries(paths, dir) == Err::<Seq<Seq<char>>, Seq<char>>(
            top_name(paths[at])->Err_0,
        ),
    decreases paths.len(),
{
    let rest = paths.drop_last();
    if at < rest.len() {
        assert(rest[at] == paths[at]);
        assert forall|i: int| 0 <= i < at implies top_name(#[trigger] rest[i]) is Ok by {
            assert(rest[i] == paths[i]);
        }
        law_first_outer_dependency_is_told(rest, dir, at);
    } else {
        assert forall|i: int| 0 <= i < rest.len() implies top_name(#[trigger] rest[i]) is Ok by {
            assert(rest[i] == paths[i]);
        }
        lemma_all_inside(rest, dir);
    }
}

proof fn lemma_all_inside(paths: Seq<Seq<char>>, dir: Seq<char>)
    requires
        forall|i: int| 0 <= i < paths.len() ==> top_name(#[trigger] paths[i]) is Ok,
    ensures
        mutable_entries(paths, dir) is Ok,
    decreases paths.len(),
{
    if paths.len() > 0 {
        let rest = paths.drop_last();
        assert forall|i: int| 0 <= i < rest.len() implies top_name(#[trigger] rest[i]) is Ok by {
            assert(rest[i] == paths[i]);
        }
        lemma_all_inside(rest, dir);
        assert(paths[paths.len() - 1] == paths.last());
    }
}

/// The paths of tables are those of each, one table after the other.
pub proof fn law_paths_of_all_tables_count(
    tables: Seq<Seq<(Seq<char>, Seq<char>)>>,
    t: int,
    d: int,
)
    requires
        0 <= t < tables.len(),
        0 <= d < tables[t].len(),
    ensures
        all_paths(tables).contains(tables[t][d].1),
    decreases tables.len(),
{
    let short = tables.drop_last();
    let before = all_paths(short);
    let own = tables.last().map_values(|d: (Seq<char>, Seq<char>)| d.1);
    if t < short.len() {
        assert(short[t] == tables[t]);
        law_paths_of_all_tables_count(short, t, d);
        let j = choose|j: int| 0 <= j < before.len() && before[j] == tables[t][d].1;
        assert((before + own)[j] == tables[t][d].1);
    } else {
        assert(own[d] == tables[t][d].1);
        assert((before + own)[before.len() + d] == tables[t][d].1);
    }
}

/// The manifest, the lock and what the tools keep for themselves never come from the
/// workspace, whatever its manifest is called; nothing else is left out.
pub proof fn law_records_are_not_linked(name: Seq<char>, manifest: Seq<char>)
    ensures
        is_left_out(manifest, Some(manifest)),
        is_left_out("pixi.toml"@, Some(manifest)) && is_left_out("pixi.toml"@, None),
        is_left_out("pixi.lock"@, Some(manifest)) && is_left_out("pixi.lock"@, None),
        is_left_out(".pixi"@, Some(manifest)) && is_left_out(".pixi"@, None),
        is_left_out(".retread"@, Some(manifest)) && is_left_out(".retread"@, None),
        is_left_out(name, Some(manifest)) ==> name == manifest || is_left_out(name, None),
        is_left_out(name, None) ==> name == "pixi.toml"@ || name == "pixi.lock"@ || name == ".pixi"@
            || name == ".retread"@,
{
}

/// The environments of the copy stand as they stood, without those that are not kept; a
/// default one that is put in comes last.
pub proof fn law_kept_environments_keep_their_order(
    nodes: Nodes,
    text: Seq<char>,
    environment: Seq<char>,
    name: Seq<char>,
)
    requires
        nodes.dom().contains(seq!["environments"@, environment]),
    ensures
        ({
            let before = toml_keys(text, seq!["environments"@]);
            let after = kept_order(nodes, text, environment, seq!["environments"@]);
            let inert = environment != "default"@ && !keeps(nodes, environment, "default"@);
            &&& name != "default"@ || !inert ==> (after.contains(name) <==> before.contains(name)
                && keeps(nodes, environment, name))
            &&& inert ==> after.last() == "default"@ && after.contains("default"@)
        }),
{
    let before = toml_keys(text, seq!["environments"@]);
    let f = |n: Seq<char>| keeps(nodes, environment, n);
    let kept = kept_names(nodes, environment, before);
    assert forall|n: Seq<char>| #[trigger] kept.contains(n) <==> before.contains(n) && keeps(
        nodes,
        environment,
        n,
    ) by {
        if kept.contains(n) {
            before.lemma_filter_contains_rev(f, n);
            let i = choose|i: int| 0 <= i < kept.len() && kept[i] == n;
            before.lemma_filter_pred(f, i);
        }
        if before.contains(n) && f(n) {
            let i = choose|i: int| 0 <= i < before.len() && before[i] == n;
            before.lemma_filter_contains(f, i);
        }
    }
    assert(!kept.contains("default"@) || keeps(nodes, environment, "default"@));
}

} // verus!
