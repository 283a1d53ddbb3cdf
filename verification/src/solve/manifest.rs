//! Edits of a workspace manifest: the pins that a repair writes, marked by a
//! sentinel on their line, and how they are taken back.
use crate::solve::document::{
    doc_nodes, doc_orders, doc_text, is_rooted, is_sound, keyed_at, keys_at, node_at,
    orders_with_table, orders_with_value, orders_without, parse_document, put_string, put_table,
    remove_key, render_document, string_node, table_at, table_node, toml_keys, toml_read, with_key,
    without, KeyPath, Nodes, Orders, TomlNode,
};
use crate::solve::ledger::{
    reason_slug, AppliedEdit, EditView, EntrySnapshot, Reason, SnapshotView, Strategy, TableKind,
};
use crate::text::{contains, occurs, occurs_at, push_view, text_eq};
use toml_edit::DocumentMut;
use vstd::prelude::*;

verus! {

broadcast use vstd::seq_lib::group_seq_properties;

/// The mark on the line of a pin.
pub const PIN_SENTINEL: &'static str = "# retread:pin";

/// The mark on the line of a widened pin.
pub const WIDEN_SENTINEL: &'static str = "# retread:widen";

// ---------------------------------------------------------------------------
// Where entries stand
// ---------------------------------------------------------------------------

/// The path of a table below the root or below a feature.
pub open spec fn kind_path(kind: TableKind) -> KeyPath {
    match kind {
        TableKind::Conda => seq!["dependencies"@],
        TableKind::Pypi => seq!["pypi-dependencies"@],
        TableKind::Override => seq!["pypi-options"@, "dependency-overrides"@],
    }
}

/// The path of a feature's table; the tables of the feature `default` stand at
/// the root.
pub open spec fn table_path(feature: Seq<char>, kind: TableKind) -> KeyPath {
    if feature == "default"@ {
        kind_path(kind)
    } else {
        seq!["feature"@, feature] + kind_path(kind)
    }
}

fn path_of(feature: &str, kind: TableKind) -> (r: Vec<String>)
    ensures
        r.deep_view() == table_path(feature@, kind),
{
    let mut path: Vec<String> = Vec::new();
    assert(path.deep_view() =~= Seq::<Seq<char>>::empty());
    if !text_eq(feature, "default") {
        push_view(&mut path, "feature".to_owned());
        push_view(&mut path, feature.to_owned());
        assert(path.deep_view() =~= seq!["feature"@, feature@]);
    }
    let ghost head = path.deep_view();
    match kind {
        TableKind::Conda => {
            push_view(&mut path, "dependencies".to_owned());
        },
        TableKind::Pypi => {
            push_view(&mut path, "pypi-dependencies".to_owned());
        },
        TableKind::Override => {
            push_view(&mut path, "pypi-options".to_owned());
            push_view(&mut path, "dependency-overrides".to_owned());
        },
    }
    assert(path.deep_view() =~= head + kind_path(kind));
    assert(path.deep_view() =~= table_path(feature@, kind));
    path
}

/// Whether every key on the way to `path`, and `path` itself, leads to a table
/// or to nothing.
pub open spec fn can_hold_table(nodes: Nodes, path: KeyPath) -> bool {
    forall|i: int|
        0 <= i <= path.len() && #[trigger] nodes.dom().contains(path.take(i))
            ==> nodes[path.take(i)].is_table
}

/// Whether an entry can be written to a feature's table: no key on the way to it
/// holds anything but a table.
pub open spec fn can_hold(nodes: Nodes, feature: Seq<char>, kind: TableKind) -> bool {
    can_hold_table(nodes, table_path(feature, kind))
}

// ---------------------------------------------------------------------------
// What edits do to the nodes and to the order of the keys
// ---------------------------------------------------------------------------

/// The entry of a table at one moment.
pub open spec fn snapshot(
    nodes: Nodes,
    feature: Seq<char>,
    kind: TableKind,
    package: Seq<char>,
) -> SnapshotView {
    let p = table_path(feature, kind);
    if table_at(nodes, p) && nodes.dom().contains(p.push(package)) {
        SnapshotView { value: nodes[p.push(package)].value, suffix: nodes[p.push(package)].suffix }
    } else {
        SnapshotView { value: None, suffix: None }
    }
}

/// Whether a line carries one of the two marks.
pub open spec fn is_marked(suffix: Seq<char>) -> bool {
    occurs(suffix, PIN_SENTINEL@) || occurs(suffix, WIDEN_SENTINEL@)
}

/// Whether an entry carries one of the two marks.
pub open spec fn has_sentinel(s: SnapshotView) -> bool {
    match s.suffix {
        Some(suffix) => is_marked(suffix),
        None => false,
    }
}

/// Whether a table has an entry of the user's own: a string without a mark.
pub open spec fn user_entry(
    nodes: Nodes,
    feature: Seq<char>,
    kind: TableKind,
    package: Seq<char>,
) -> bool {
    let s = snapshot(nodes, feature, kind, package);
    s.value is Some && !has_sentinel(s)
}

/// The nodes with a table at `path` and at every key on the way to it.
pub open spec fn with_tables(nodes: Nodes, path: KeyPath) -> Nodes
    decreases path.len(),
{
    if path.len() == 0 {
        nodes
    } else {
        let n = with_tables(nodes, path.drop_last());
        if n.dom().contains(path) {
            n
        } else {
            without(n, path).insert(path, table_node())
        }
    }
}

/// The nodes with a string entry in a feature's table; as they are where the table
/// cannot be held.
pub open spec fn with_entry(
    nodes: Nodes,
    feature: Seq<char>,
    kind: TableKind,
    package: Seq<char>,
    value: Seq<char>,
    suffix: Seq<char>,
) -> Nodes {
    let p = table_path(feature, kind);
    if can_hold(nodes, feature, kind) {
        without(with_tables(nodes, p), p.push(package)).insert(
            p.push(package),
            string_node(value, suffix),
        )
    } else {
        nodes
    }
}

/// The order of the keys with a table at `path` and at every key on the way to it: a
/// new table comes last.
pub open spec fn orders_with_tables(nodes: Nodes, orders: Orders, path: KeyPath) -> Orders
    decreases path.len(),
{
    if path.len() == 0 {
        orders
    } else {
        let before = orders_with_tables(nodes, orders, path.drop_last());
        if with_tables(nodes, path.drop_last()).dom().contains(path) {
            before
        } else {
            orders_with_table(before, path.drop_last(), path.last())
        }
    }
}

/// The order of the keys with an entry in a feature's table: an entry that is there
/// keeps its place, and a new one comes last.
pub open spec fn orders_with_entry(
    nodes: Nodes,
    orders: Orders,
    feature: Seq<char>,
    kind: TableKind,
    package: Seq<char>,
) -> Orders {
    let p = table_path(feature, kind);
    if can_hold(nodes, feature, kind) {
        orders_with_value(orders_with_tables(nodes, orders, p), p, package)
    } else {
        orders
    }
}

/// Whether a table has no entry.
pub open spec fn no_entries(nodes: Nodes, path: KeyPath) -> bool {
    forall|k: Seq<char>| !#[trigger] nodes.dom().contains(path.push(k))
}

/// The nodes without a feature's table, where that has no entry.
pub open spec fn without_empty(nodes: Nodes, feature: Seq<char>, kind: TableKind) -> Nodes {
    let p = table_path(feature, kind);
    if table_at(nodes, p) && no_entries(nodes, p) && table_at(nodes, p.drop_last()) {
        without(nodes, p)
    } else {
        nodes
    }
}

/// The nodes without an entry, and without its table where that held no other.
pub open spec fn without_entry(
    nodes: Nodes,
    feature: Seq<char>,
    kind: TableKind,
    package: Seq<char>,
) -> Nodes {
    let p = table_path(feature, kind);
    let n = if table_at(nodes, p) {
        without(nodes, p.push(package))
    } else {
        nodes
    };
    without_empty(n, feature, kind)
}

/// The order of the keys without a feature's table, where that has no entry.
pub open spec fn orders_without_empty(
    nodes: Nodes,
    orders: Orders,
    feature: Seq<char>,
    kind: TableKind,
) -> Orders {
    let p = table_path(feature, kind);
    if table_at(nodes, p) && no_entries(nodes, p) && table_at(nodes, p.drop_last()) {
        orders_without(orders, p.drop_last(), p.last())
    } else {
        orders
    }
}

/// The order of the keys without an entry, and without its table where that held no
/// other: all other keys keep theirs.
pub open spec fn orders_without_entry(
    nodes: Nodes,
    orders: Orders,
    feature: Seq<char>,
    kind: TableKind,
    package: Seq<char>,
) -> Orders {
    let p = table_path(feature, kind);
    if table_at(nodes, p) {
        orders_without_empty(
            without(nodes, p.push(package)),
            orders_without(orders, p, package),
            feature,
            kind,
        )
    } else {
        orders
    }
}

/// The order of the keys with an entry put back.
pub open spec fn orders_restored(
    nodes: Nodes,
    orders: Orders,
    feature: Seq<char>,
    kind: TableKind,
    package: Seq<char>,
    before: SnapshotView,
) -> Orders {
    match before.value {
        Some(_) => orders_with_entry(nodes, orders, feature, kind, package),
        None => orders_without_entry(nodes, orders, feature, kind, package),
    }
}

/// The nodes with an entry put back as it was.
pub open spec fn with_restored(
    nodes: Nodes,
    feature: Seq<char>,
    kind: TableKind,
    package: Seq<char>,
    before: SnapshotView,
) -> Nodes {
    match before.value {
        Some(value) => with_entry(
            nodes,
            feature,
            kind,
            package,
            value,
            match before.suffix {
                Some(s) => s,
                None => ""@,
            },
        ),
        None => without_entry(nodes, feature, kind, package),
    }
}

/// The strategy whose pins stand in a table.
pub open spec fn kind_strategy(kind: TableKind) -> Strategy {
    match kind {
        TableKind::Conda => Strategy::Conda,
        TableKind::Pypi => Strategy::PypiDep,
        TableKind::Override => Strategy::PypiOverride,
    }
}

fn strategy_of(kind: TableKind) -> (r: Strategy)
    ensures
        r == kind_strategy(kind),
{
    match kind {
        TableKind::Conda => Strategy::Conda,
        TableKind::Pypi => Strategy::PypiDep,
        TableKind::Override => Strategy::PypiOverride,
    }
}

/// What follows a pin on its line.
pub open spec fn pin_mark(date: Seq<char>, reason: Reason) -> Seq<char> {
    "  # retread:pin "@ + date + " "@ + reason_slug(reason)
}

/// What follows a widened pin on its line.
pub open spec fn widen_mark(date: Seq<char>) -> Seq<char> {
    "  # retread:widen "@ + date
}

/// What follows a pin on its line, written on `date`.
pub fn pin_suffix(date: &str, reason: Reason) -> (r: String)
    ensures
        r@ == pin_mark(date@, reason),
{
    let mut s: String = "  # retread:pin ".to_owned();
    s.append(date);
    s.append(" ");
    s.append(reason.slug());
    s
}

/// What follows a widened pin on its line, written on `date`.
pub fn widen_suffix(date: &str) -> (r: String)
    ensures
        r@ == widen_mark(date@),
{
    let mut s: String = "  # retread:widen ".to_owned();
    s.append(date);
    s
}

/// Whether an entry carries one of the two marks.
pub fn snapshot_has_retread_sentinel(snapshot: &EntrySnapshot) -> (r: bool)
    ensures
        r == has_sentinel(snapshot.deep_view()),
{
    match &snapshot.suffix {
        Some(s) => contains(s, PIN_SENTINEL) || contains(s, WIDEN_SENTINEL),
        None => false,
    }
}

// ---------------------------------------------------------------------------
// The editor
// ---------------------------------------------------------------------------

/// A manifest open for edits, and whether an edit was refused because a key on the
/// way to its table holds something else.
pub struct ManifestEditor {
    path: String,
    project_dir: String,
    doc: DocumentMut,
    refusal: bool,
}

/// One marked entry: its feature, table, package and what follows it on its
/// line.
pub type MarkedEntry = (Seq<char>, TableKind, Seq<char>, Seq<char>);

/// The marked entry under key `k` of the table at `path`.
pub open spec fn marked_entry(
    nodes: Nodes,
    path: KeyPath,
    feature: Seq<char>,
    kind: TableKind,
    k: Seq<char>,
) -> Option<MarkedEntry> {
    match nodes[path.push(k)].suffix {
        Some(s) => if is_marked(s) {
            Some((feature, kind, k, s))
        } else {
            None
        },
        None => None,
    }
}

/// The nodes with the marked entries taken out, and how many there were.
pub open spec fn cleaned(nodes: Nodes, entries: Seq<MarkedEntry>) -> (Nodes, nat)
    decreases entries.len(),
{
    if entries.len() == 0 {
        (nodes, 0)
    } else {
        let (n, count) = cleaned(nodes, entries.drop_last());
        let (feature, kind, package, _) = entries.last();
        let p = table_path(feature, kind);
        let hit = table_at(n, p) && n.dom().contains(p.push(package));
        (
            without_entry(n, feature, kind, package),
            if hit {
                count + 1
            } else {
                count
            },
        )
    }
}

/// The order of the keys with the marked entries taken out.
pub open spec fn orders_cleaned(nodes: Nodes, orders: Orders, entries: Seq<MarkedEntry>) -> Orders
    decreases entries.len(),
{
    if entries.len() == 0 {
        orders
    } else {
        let (feature, kind, package, _) = entries.last();
        orders_without_entry(
            cleaned(nodes, entries.drop_last()).0,
            orders_cleaned(nodes, orders, entries.drop_last()),
            feature,
            kind,
            package,
        )
    }
}

/// The strategy that a marked entry stands for.
pub open spec fn marked_strategy(e: MarkedEntry) -> (Seq<char>, Strategy) {
    (
        e.2,
        if occurs(e.3, WIDEN_SENTINEL@) {
            Strategy::WidenConda
        } else {
            kind_strategy(e.1)
        },
    )
}

impl ManifestEditor {
    /// The nodes of the manifest.
    pub closed spec fn nodes(&self) -> Nodes {
        doc_nodes(self.doc)
    }

    /// The order of the keys within each table of the manifest.
    pub closed spec fn orders(&self) -> Orders {
        doc_orders(self.doc)
    }

    /// The keys of the table at a path, in order.
    pub open spec fn keys(&self, path: KeyPath) -> Seq<Seq<char>> {
        self.orders()[path]
    }

    /// The text that the manifest is written out as.
    pub closed spec fn text(&self) -> Seq<char> {
        doc_text(self.doc)
    }

    /// The path of the manifest.
    pub closed spec fn file(&self) -> Seq<char> {
        self.path@
    }

    /// The directory of the manifest.
    pub closed spec fn dir(&self) -> Seq<char> {
        self.project_dir@
    }

    /// Whether an edit was refused because a key on the way to its table holds
    /// something else.
    pub closed spec fn refused(&self) -> bool {
        self.refusal
    }

    /// The names of the features: `default`, then the others in order.
    pub open spec fn features(&self) -> Seq<Seq<char>> {
        seq!["default"@] + if table_at(self.nodes(), seq!["feature"@]) {
            self.keys(seq!["feature"@])
        } else {
            Seq::empty()
        }
    }

    /// The marked entries of the table at `path`, in order.
    pub open spec fn marked_at(&self, path: KeyPath, feature: Seq<char>, kind: TableKind) -> Seq<
        MarkedEntry,
    > {
        if table_at(self.nodes(), path) {
            self.keys(path).filter_map(
                |k: Seq<char>| marked_entry(self.nodes(), path, feature, kind, k),
            )
        } else {
            Seq::empty()
        }
    }

    /// The marked entries of the three tables below `base`.
    pub open spec fn marked_below(&self, base: KeyPath, feature: Seq<char>) -> Seq<MarkedEntry> {
        self.marked_at(base + kind_path(TableKind::Conda), feature, TableKind::Conda)
            + self.marked_at(base + kind_path(TableKind::Pypi), feature, TableKind::Pypi)
            + self.marked_at(base + kind_path(TableKind::Override), feature, TableKind::Override)
    }

    /// The marked entries of the manifest: those at the root, then those of each
    /// feature.
    pub open spec fn all_marked(&self) -> Seq<MarkedEntry> {
        self.marked_below(Seq::empty(), "default"@) + if table_at(self.nodes(), seq!["feature"@]) {
            self.keys(seq!["feature"@]).flat_map(
                |f: Seq<char>| self.marked_below(seq!["feature"@, f], f),
            )
        } else {
            Seq::empty()
        }
    }

    /// Whether the keys of every table stand in the order of `text`.
    pub open spec fn has_keys_of(&self, text: Seq<char>) -> bool {
        forall|path: Seq<Seq<char>>|
            keyed_at(self.nodes(), path) ==> #[trigger] self.keys(path) == toml_keys(text, path)
    }

    /// Opens the manifest at `path`, in the directory `project_dir`, whose text is
    /// `text`; an error is what is wrong with the text.
    pub fn open(path: String, project_dir: String, text: &str) -> (r: Result<Self, String>)
        ensures
            match r {
                Ok(editor) => toml_read(text@) == Ok::<Nodes, Seq<char>>(editor.nodes()) && is_sound(
                    editor.nodes(),
                ) && editor.has_keys_of(text@) && editor.file() == path@ && editor.dir()
                    == project_dir@ && !editor.refused(),
                Err(e) => toml_read(text@) == Err::<Nodes, Seq<char>>(e@),
            },
    {
        match parse_document(text) {
            Ok(doc) => Ok(ManifestEditor { path, project_dir, doc, refusal: false }),
            Err(e) => Err(e),
        }
    }

    /// The path of the manifest.
    pub fn manifest_path(&self) -> (r: &str)
        ensures
            r@ == self.file(),
    {
        self.path.as_str()
    }

    /// The directory of the manifest.
    pub fn project_dir(&self) -> (r: &str)
        ensures
            r@ == self.dir(),
    {
        self.project_dir.as_str()
    }

    /// Takes the manifest anew from `text`; where that cannot be read, the editor
    /// stays as it was and the error is returned.
    pub fn reload(&mut self, text: &str) -> (r: Result<(), String>)
        ensures
            final(self).file() == old(self).file(),
            final(self).dir() == old(self).dir(),
            final(self).refused() == old(self).refused(),
            match r {
                Ok(()) => toml_read(text@) == Ok::<Nodes, Seq<char>>(final(self).nodes())
                    && is_sound(final(self).nodes()) && final(self).has_keys_of(text@),
                Err(e) => toml_read(text@) == Err::<Nodes, Seq<char>>(e@) && *final(self) == *old(
                    self,
                ),
            },
    {
        match parse_document(text) {
            Ok(doc) => {
                self.doc = doc;
                Ok(())
            },
            Err(e) => Err(e),
        }
    }

    /// The text of the manifest with its edits.
    pub fn render(&self) -> (r: String)
        ensures
            r@ == self.text(),
    {
        render_document(&self.doc)
    }

    fn node(&self, path: &Vec<String>) -> (r: Option<TomlNode>)
        ensures
            r.deep_view() == if self.nodes().dom().contains(path.deep_view()) {
                Some(self.nodes()[path.deep_view()])
            } else {
                None
            },
    {
        node_at(&self.doc, path)
    }

    fn has_table(&self, path: &Vec<String>) -> (r: bool)
        ensures
            r == table_at(self.nodes(), path.deep_view()),
    {
        match self.node(path) {
            Some(n) => n.is_table,
            None => false,
        }
    }

    /// The value of the entry and what follows it, where the table has one.
    pub fn entry_snapshot(&self, feature: &str, kind: TableKind, package: &str) -> (r:
        EntrySnapshot)
        ensures
            r.deep_view() == snapshot(self.nodes(), feature@, kind, package@),
    {
        let mut path = path_of(feature, kind);
        if !self.has_table(&path) {
            return EntrySnapshot { value: None, suffix: None };
        }
        push_view(&mut path, package.to_owned());
        match self.node(&path) {
            Some(n) => EntrySnapshot { value: n.value, suffix: n.suffix },
            None => EntrySnapshot { value: None, suffix: None },
        }
    }

    /// Whether the table has an entry of the user's own for `package`: a string
    /// without a mark.
    pub fn has_user_entry(&self, feature: &str, kind: TableKind, package: &str) -> (r: bool)
        ensures
            r == user_entry(self.nodes(), feature@, kind, package@),
    {
        let snap = self.entry_snapshot(feature, kind, package);
        snap.value.is_some() && !snapshot_has_retread_sentinel(&snap)
    }

    /// The names of the features: `default`, then the others in order.
    pub fn feature_names(&self) -> (r: Vec<String>)
        ensures
            r.deep_view() == self.features(),
    {
        let mut out: Vec<String> = Vec::new();
        assert(out.deep_view() =~= Seq::<Seq<char>>::empty());
        push_view(&mut out, "default".to_owned());
        assert(out.deep_view() =~= seq!["default"@]);
        let mut path: Vec<String> = Vec::new();
        assert(path.deep_view() =~= Seq::<Seq<char>>::empty());
        push_view(&mut path, "feature".to_owned());
        assert(path.deep_view() =~= seq!["feature"@]);
        if self.has_table(&path) {
            let mut names = keys_at(&self.doc, &path);
            let ghost all = names.deep_view();
            let ghost head = out.deep_view();
            out.append(&mut names);
            assert(out.deep_view() =~= head + all);
        }
        assert(out.deep_view() =~= self.features());
        out
    }

    /// The modules that the manifest asks to be imported after a solve.
    pub fn smoke_modules(&self) -> (r: Vec<String>)
        ensures
            r.deep_view() == ({
                let p = seq!["tool"@, "retread"@, "smoke-test"@];
                let m = p.push("modules"@);
                if table_at(self.nodes(), p) && self.nodes().dom().contains(m)
                    && self.nodes()[m].elements is Some {
                    self.nodes()[m].elements->0.filter_map(|e: Option<Seq<char>>| e)
                } else {
                    Seq::<Seq<char>>::empty()
                }
            }),
    {
        let mut out: Vec<String> = Vec::new();
        assert(out.deep_view() =~= Seq::<Seq<char>>::empty());
        let mut path: Vec<String> = Vec::new();
        assert(path.deep_view() =~= Seq::<Seq<char>>::empty());
        push_view(&mut path, "tool".to_owned());
        push_view(&mut path, "retread".to_owned());
        push_view(&mut path, "smoke-test".to_owned());
        let ghost p = seq!["tool"@, "retread"@, "smoke-test"@];
        assert(path.deep_view() =~= p);
        if !self.has_table(&path) {
            return out;
        }
        push_view(&mut path, "modules".to_owned());
        let node = match self.node(&path) {
            Some(n) => n,
            None => {
                return out;
            },
        };
        let elements = match node.elements {
            Some(e) => e,
            None => {
                return out;
            },
        };
        let ghost all = elements.deep_view();
        let ghost f = |e: Option<Seq<char>>| e;
        let n: usize = elements.len();
        let mut i: usize = 0;
        assert(out.deep_view() =~= all.take(0).filter_map(f));
        while i < n
            invariant
                i <= n,
                n == elements@.len(),
                all == elements.deep_view(),
                f == (|e: Option<Seq<char>>| e),
                out.deep_view() == all.take(i as int).filter_map(f),
            decreases n - i,
        {
            proof {
                all.lemma_filter_map_take_succ(f, i as int);
            }
            assert(all[i as int] == elements@[i as int].deep_view());
            match &elements[i] {
                Some(e) => {
                    push_view(&mut out, e.clone());
                },
                None => {
                    assert(all.take(i + 1).filter_map(f) =~= all.take(i as int).filter_map(f));
                },
            }
            i = i + 1;
        }
        assert(all.take(n as int) =~= all);
        out
    }

    fn can_hold_at(&self, path: &Vec<String>) -> (r: bool)
        ensures
            r == can_hold_table(self.nodes(), path.deep_view()),
    {
        let ghost all = path.deep_view();
        let n: usize = path.len();
        let mut prefix: Vec<String> = Vec::new();
        let mut i: usize = 0;
        assert(prefix.deep_view() =~= all.take(0));
        loop
            invariant
                i <= n,
                n == path@.len(),
                all == path.deep_view(),
                prefix.deep_view() == all.take(i as int),
                forall|j: int|
                    0 <= j < i && #[trigger] self.nodes().dom().contains(all.take(j))
                        ==> self.nodes()[all.take(j)].is_table,
            decreases n - i,
        {
            match self.node(&prefix) {
                Some(node) => {
                    if !node.is_table {
                        assert(self.nodes().dom().contains(all.take(i as int)));
                        return false;
                    }
                },
                None => {},
            }
            if i == n {
                return true;
            }
            push_view(&mut prefix, path[i].clone());
            assert(prefix.deep_view() =~= all.take(i + 1));
            i = i + 1;
        }
    }

    /// Whether an edit was refused because a key on the way to its table holds
    /// something else. An edit that was refused left the manifest as it was.
    pub fn was_refused(&self) -> (r: bool)
        ensures
            r == self.refused(),
    {
        self.refusal
    }

    // -- edits --------------------------------------------------------------

    fn ensure_tables(&mut self, path: &Vec<String>)
        requires
            table_at(old(self).nodes(), Seq::empty()),
            can_hold_table(old(self).nodes(), path.deep_view()),
        ensures
            final(self).nodes() == with_tables(old(self).nodes(), path.deep_view()),
            final(self).orders() == orders_with_tables(
                old(self).nodes(),
                old(self).orders(),
                path.deep_view(),
            ),
            table_at(final(self).nodes(), path.deep_view()),
            final(self).file() == old(self).file(),
            final(self).dir() == old(self).dir(),
            final(self).refused() == old(self).refused(),
    {
        let ghost all = path.deep_view();
        let n: usize = path.len();
        let mut prefix: Vec<String> = Vec::new();
        let mut i: usize = 0;
        assert(prefix.deep_view() =~= all.take(0));
        assert(all.take(0) =~= Seq::<Seq<char>>::empty());
        while i < n
            invariant
                i <= n,
                n == path@.len(),
                all == path.deep_view(),
                prefix.deep_view() == all.take(i as int),
                self.nodes() == with_tables(old(self).nodes(), all.take(i as int)),
                self.orders() == orders_with_tables(
                    old(self).nodes(),
                    old(self).orders(),
                    all.take(i as int),
                ),
                table_at(self.nodes(), all.take(i as int)),
                forall|j: int|
                    i < j <= n && #[trigger] self.nodes().dom().contains(all.take(j))
                        ==> self.nodes()[all.take(j)].is_table,
                self.file() == old(self).file(),
                self.dir() == old(self).dir(),
                self.refused() == old(self).refused(),
            decreases n - i,
        {
            let key: String = path[i].clone();
            let mut next: Vec<String> = crate::text::clone_texts(&prefix);
            push_view(&mut next, key.clone());
            assert(next.deep_view() =~= all.take(i + 1));
            assert(all.take(i + 1).drop_last() =~= all.take(i as int));
            assert(all.take(i as int).push(key@) =~= all.take(i + 1));
            let there: bool = self.node(&next).is_some();
            if !there {
                put_table(&mut self.doc, &prefix, &key);
                assert forall|j: int|
                    i + 1 < j <= n && #[trigger] self.nodes().dom().contains(
                        all.take(j),
                    ) implies self.nodes()[all.take(j)].is_table by {
                    assert(all.take(i + 1).is_prefix_of(all.take(j))) by {
                        assert(all.take(j).take(i + 1) =~= all.take(i + 1));
                    }
                    assert(all.take(j).len() == j);
                    assert(all.take(i + 1).len() == i + 1);
                }
            }
            prefix = next;
            i = i + 1;
        }
        assert(all.take(n as int) =~= all);
    }

    /// Writes a string entry with what follows it on its line, and the tables on
    /// the way to it; refuses where one of them cannot be held.
    fn set_string(
        &mut self,
        feature: &str,
        kind: TableKind,
        package: &str,
        value: &str,
        suffix: &str,
    )
        requires
            is_sound(old(self).nodes()),
        ensures
            final(self).nodes() == with_entry(
                old(self).nodes(),
                feature@,
                kind,
                package@,
                value@,
                suffix@,
            ),
            final(self).orders() == orders_with_entry(
                old(self).nodes(),
                old(self).orders(),
                feature@,
                kind,
                package@,
            ),
            is_sound(final(self).nodes()),
            final(self).file() == old(self).file(),
            final(self).dir() == old(self).dir(),
            final(self).refused() == (old(self).refused() || !can_hold(old(self).nodes(), feature@, kind)),
    {
        proof {
            lemma_with_entry_sound(old(self).nodes(), feature@, kind, package@, value@, suffix@);
        }
        let path = path_of(feature, kind);
        if !self.can_hold_at(&path) {
            self.refusal = true;
            return;
        }
        self.ensure_tables(&path);
        put_string(&mut self.doc, &path, package, value, suffix);
    }

    /// Takes an entry out, and its table where that held no other; says whether
    /// there was an entry.
    fn remove_entry(&mut self, feature: &str, kind: TableKind, package: &str) -> (hit: bool)
        ensures
            final(self).nodes() == without_entry(old(self).nodes(), feature@, kind, package@),
            final(self).orders() == orders_without_entry(
                old(self).nodes(),
                old(self).orders(),
                feature@,
                kind,
                package@,
            ),
            hit == (table_at(old(self).nodes(), table_path(feature@, kind)) && old(
                self,
            ).nodes().dom().contains(table_path(feature@, kind).push(package@))),
            is_sound(old(self).nodes()) ==> is_sound(final(self).nodes()),
            final(self).file() == old(self).file(),
            final(self).dir() == old(self).dir(),
            final(self).refused() == old(self).refused(),
    {
        let path = path_of(feature, kind);
        let ghost p = path.deep_view();
        let mut hit: bool = false;
        if self.has_table(&path) {
            let mut entry = crate::text::clone_texts(&path);
            push_view(&mut entry, package.to_owned());
            hit = self.node(&entry).is_some();
            remove_key(&mut self.doc, &path, package);
            proof {
                lemma_without_sound(old(self).nodes(), p.push(package@));
            }
        }
        self.drop_empty_path(feature, kind);
        hit
    }

    /// Takes a feature's table out where it has no entry.
    fn drop_empty_path(&mut self, feature: &str, kind: TableKind)
        ensures
            final(self).nodes() == without_empty(old(self).nodes(), feature@, kind),
            final(self).orders() == orders_without_empty(
                old(self).nodes(),
                old(self).orders(),
                feature@,
                kind,
            ),
            is_sound(old(self).nodes()) ==> is_sound(final(self).nodes()),
            final(self).file() == old(self).file(),
            final(self).dir() == old(self).dir(),
            final(self).refused() == old(self).refused(),
    {
        let mut path = path_of(feature, kind);
        let ghost p = path.deep_view();
        if !self.has_table(&path) {
            return;
        }
        let keys = keys_at(&self.doc, &path);
        if keys.len() > 0 {
            assert(keys.deep_view().contains(keys.deep_view()[0]));
            assert(!no_entries(self.nodes(), p));
            return;
        }
        assert forall|k: Seq<char>| !#[trigger] self.nodes().dom().contains(p.push(k)) by {
            assert(!keys.deep_view().contains(k));
        }
        assert(path@.len() == p.len());
        let key: String = match path.pop() {
            Some(k) => k,
            None => {
                return;
            },
        };
        assert(path.deep_view() =~= p.drop_last());
        assert(path.deep_view().push(key@) =~= p);
        if self.has_table(&path) {
            remove_key(&mut self.doc, &path, &key);
            proof {
                lemma_without_sound(old(self).nodes(), p);
            }
        }
    }

    /// Puts an entry back as a snapshot says it was.
    pub fn restore_entry(
        &mut self,
        feature: &str,
        kind: TableKind,
        package: &str,
        before: &EntrySnapshot,
    )
        requires
            is_sound(old(self).nodes()),
        ensures
            final(self).nodes() == with_restored(
                old(self).nodes(),
                feature@,
                kind,
                package@,
                before.deep_view(),
            ),
            final(self).orders() == orders_restored(
                old(self).nodes(),
                old(self).orders(),
                feature@,
                kind,
                package@,
                before.deep_view(),
            ),
            is_sound(final(self).nodes()),
            final(self).file() == old(self).file(),
            final(self).dir() == old(self).dir(),
            final(self).refused() == (old(self).refused() || (before.deep_view().value is Some
                && !can_hold(old(self).nodes(), feature@, kind))),
    {
        match &before.value {
            Some(value) => match &before.suffix {
                Some(suffix) => {
                    self.set_string(feature, kind, package, value, suffix);
                },
                None => {
                    self.set_string(feature, kind, package, value, "");
                },
            },
            None => {
                let _ = self.remove_entry(feature, kind, package);
            },
        }
    }

    fn set_pin(
        &mut self,
        feature: &str,
        kind: TableKind,
        package: &str,
        value: &str,
        suffix: &str,
        strategy: Strategy,
    ) -> (edit: AppliedEdit)
        requires
            is_sound(old(self).nodes()),
        ensures
            edit.deep_view() == (EditView {
                feature: feature@,
                package: package@,
                strategy,
                table: kind,
                before: snapshot(old(self).nodes(), feature@, kind, package@),
            }),
            final(self).nodes() == with_entry(
                old(self).nodes(),
                feature@,
                kind,
                package@,
                value@,
                suffix@,
            ),
            final(self).orders() == orders_with_entry(
                old(self).nodes(),
                old(self).orders(),
                feature@,
                kind,
                package@,
            ),
            is_sound(final(self).nodes()),
            final(self).file() == old(self).file(),
            final(self).dir() == old(self).dir(),
            final(self).refused() == (old(self).refused() || !can_hold(old(self).nodes(), feature@, kind)),
    {
        let before = self.entry_snapshot(feature, kind, package);
        self.set_string(feature, kind, package, value, suffix);
        AppliedEdit {
            feature: feature.to_owned(),
            package: package.to_owned(),
            strategy,
            table: kind,
            before,
        }
    }

    /// Pins a package in the feature's conda table.
    pub fn set_conda_pin(
        &mut self,
        feature: &str,
        package: &str,
        version: &str,
        reason: Reason,
        date: &str,
    ) -> (edit: AppliedEdit)
        requires
            is_sound(old(self).nodes()),
        ensures
            edit.deep_view() == pin_edit(old(self).nodes(), feature@, TableKind::Conda, package@),
            final(self).nodes() == with_entry(
                old(self).nodes(),
                feature@,
                TableKind::Conda,
                package@,
                "=="@ + version@,
                pin_mark(date@, reason),
            ),
            final(self).orders() == orders_with_entry(
                old(self).nodes(),
                old(self).orders(),
                feature@,
                TableKind::Conda,
                package@,
            ),
            is_sound(final(self).nodes()),
            final(self).file() == old(self).file(),
            final(self).dir() == old(self).dir(),
            final(self).refused() == (old(self).refused() || !can_hold(old(self).nodes(), feature@, TableKind::Conda)),
    {
        let value: String = "==".to_owned().concat(version);
        let suffix = pin_suffix(date, reason);
        self.set_pin(feature, TableKind::Conda, package, &value, &suffix, Strategy::Conda)
    }

    /// Pins a package in the feature's table of wheels.
    pub fn set_pypi_pin(
        &mut self,
        feature: &str,
        package: &str,
        version: &str,
        reason: Reason,
        date: &str,
    ) -> (edit: AppliedEdit)
        requires
            is_sound(old(self).nodes()),
        ensures
            edit.deep_view() == pin_edit(old(self).nodes(), feature@, TableKind::Pypi, package@),
            final(self).nodes() == with_entry(
                old(self).nodes(),
                feature@,
                TableKind::Pypi,
                package@,
                "=="@ + version@,
                pin_mark(date@, reason),
            ),
            final(self).orders() == orders_with_entry(
                old(self).nodes(),
                old(self).orders(),
                feature@,
                TableKind::Pypi,
                package@,
            ),
            is_sound(final(self).nodes()),
            final(self).file() == old(self).file(),
            final(self).dir() == old(self).dir(),
            final(self).refused() == (old(self).refused() || !can_hold(old(self).nodes(), feature@, TableKind::Pypi)),
    {
        let value: String = "==".to_owned().concat(version);
        let suffix = pin_suffix(date, reason);
        self.set_pin(feature, TableKind::Pypi, package, &value, &suffix, Strategy::PypiDep)
    }

    /// Overrides the version of a wheel in the feature's table of overrides.
    pub fn set_pypi_override(
        &mut self,
        feature: &str,
        package: &str,
        version: &str,
        reason: Reason,
        date: &str,
    ) -> (edit: AppliedEdit)
        requires
            is_sound(old(self).nodes()),
        ensures
            edit.deep_view() == pin_edit(old(self).nodes(), feature@, TableKind::Override, package@),
            final(self).nodes() == with_entry(
                old(self).nodes(),
                feature@,
                TableKind::Override,
                package@,
                "=="@ + version@,
                pin_mark(date@, reason),
            ),
            final(self).orders() == orders_with_entry(
                old(self).nodes(),
                old(self).orders(),
                feature@,
                TableKind::Override,
                package@,
            ),
            is_sound(final(self).nodes()),
            final(self).file() == old(self).file(),
            final(self).dir() == old(self).dir(),
            final(self).refused() == (old(self).refused() || !can_hold(old(self).nodes(), feature@, TableKind::Override)),
    {
        let value: String = "==".to_owned().concat(version);
        let suffix = pin_suffix(date, reason);
        self.set_pin(feature, TableKind::Override, package, &value, &suffix, Strategy::PypiOverride)
    }

    /// Overrides the version of a wheel with the one that a conda pin provides.
    pub fn set_pypi_override_from_conda(
        &mut self,
        feature: &str,
        package: &str,
        version: &str,
    ) -> (edit: AppliedEdit)
        requires
            is_sound(old(self).nodes()),
        ensures
            edit.deep_view() == pin_edit(old(self).nodes(), feature@, TableKind::Override, package@),
            final(self).nodes() == with_entry(
                old(self).nodes(),
                feature@,
                TableKind::Override,
                package@,
                "=="@ + version@,
                "  # retread:override"@,
            ),
            final(self).orders() == orders_with_entry(
                old(self).nodes(),
                old(self).orders(),
                feature@,
                TableKind::Override,
                package@,
            ),
            is_sound(final(self).nodes()),
            final(self).file() == old(self).file(),
            final(self).dir() == old(self).dir(),
            final(self).refused() == (old(self).refused() || !can_hold(old(self).nodes(), feature@, TableKind::Override)),
    {
        let value: String = "==".to_owned().concat(version);
        self.set_pin(
            feature,
            TableKind::Override,
            package,
            &value,
            "  # retread:override",
            Strategy::PypiOverride,
        )
    }

    /// Widens a package's pin in the feature's conda table.
    pub fn set_conda_widen(
        &mut self,
        feature: &str,
        package: &str,
        spec: &str,
        date: &str,
    ) -> (edit: AppliedEdit)
        requires
            is_sound(old(self).nodes()),
        ensures
            edit.deep_view() == (EditView {
                strategy: Strategy::WidenConda,
                ..pin_edit(old(self).nodes(), feature@, TableKind::Conda, package@)
            }),
            final(self).nodes() == with_entry(
                old(self).nodes(),
                feature@,
                TableKind::Conda,
                package@,
                spec@,
                widen_mark(date@),
            ),
            final(self).orders() == orders_with_entry(
                old(self).nodes(),
                old(self).orders(),
                feature@,
                TableKind::Conda,
                package@,
            ),
            is_sound(final(self).nodes()),
            final(self).file() == old(self).file(),
            final(self).dir() == old(self).dir(),
            final(self).refused() == (old(self).refused() || !can_hold(old(self).nodes(), feature@, TableKind::Conda)),
    {
        let suffix = widen_suffix(date);
        self.set_pin(feature, TableKind::Conda, package, spec, &suffix, Strategy::WidenConda)
    }

    /// Takes out an entry that carries a mark; an entry of the user's own stays.
    pub fn remove_retread_entry(&mut self, feature: &str, kind: TableKind, package: &str) -> (r:
        Option<AppliedEdit>)
        ensures
            match r {
                Some(edit) => marked_pin(old(self).nodes(), feature@, kind, package@)
                    && edit.deep_view() == pin_edit(old(self).nodes(), feature@, kind, package@)
                    && final(self).nodes() == without_entry(
                    old(self).nodes(),
                    feature@,
                    kind,
                    package@,
                ) && final(self).orders() == orders_without_entry(
                    old(self).nodes(),
                    old(self).orders(),
                    feature@,
                    kind,
                    package@,
                ),
                None => !marked_pin(old(self).nodes(), feature@, kind, package@) && *final(self)
                    == *old(self),
            },
            is_sound(old(self).nodes()) ==> is_sound(final(self).nodes()),
            final(self).file() == old(self).file(),
            final(self).dir() == old(self).dir(),
            final(self).refused() == old(self).refused(),
    {
        let before = self.entry_snapshot(feature, kind, package);
        if before.value.is_none() || !snapshot_has_retread_sentinel(&before) {
            return None;
        }
        let _ = self.remove_entry(feature, kind, package);
        Some(
            AppliedEdit {
                feature: feature.to_owned(),
                package: package.to_owned(),
                strategy: strategy_of(kind),
                table: kind,
                before,
            },
        )
    }

    fn collect_sentinel_entries(
        &self,
        out: &mut Vec<(String, TableKind, String, String)>,
        path: &Vec<String>,
        feature: &str,
        kind: TableKind,
    )
        ensures
            final(out).deep_view() == old(out).deep_view() + self.marked_at(
                path.deep_view(),
                feature@,
                kind,
            ),
    {
        let ghost p = path.deep_view();
        if !self.has_table(path) {
            assert(out.deep_view() =~= old(out).deep_view() + self.marked_at(p, feature@, kind));
            return;
        }
        let keys = keys_at(&self.doc, path);
        let ghost all = keys.deep_view();
        let ghost base = out.deep_view();
        let ghost f = |k: Seq<char>| marked_entry(self.nodes(), p, feature@, kind, k);
        let n: usize = keys.len();
        let mut i: usize = 0;
        assert(all.take(0).filter_map(f) =~= Seq::<MarkedEntry>::empty());
        assert(out.deep_view() =~= base + all.take(0).filter_map(f));
        while i < n
            invariant
                i <= n,
                n == keys@.len(),
                all == keys.deep_view(),
                p == path.deep_view(),
                forall|k: Seq<char>| #[trigger]
                    all.contains(k) <==> self.nodes().dom().contains(p.push(k)),
                f == (|k: Seq<char>| marked_entry(self.nodes(), p, feature@, kind, k)),
                out.deep_view() == base + all.take(i as int).filter_map(f),
            decreases n - i,
        {
            proof {
                all.lemma_filter_map_take_succ(f, i as int);
            }
            assert(all[i as int] == keys@[i as int]@);
            assert(all.contains(all[i as int]));
            let mut entry = crate::text::clone_texts(path);
            push_view(&mut entry, keys[i].clone());
            match self.node(&entry) {
                Some(node) => match node.suffix {
                    Some(s) => {
                        if contains(&s, PIN_SENTINEL) || contains(&s, WIDEN_SENTINEL) {
                            push_view(out, (feature.to_owned(), kind, keys[i].clone(), s));
                        }
                    },
                    None => {},
                },
                None => {},
            }
            assert(out.deep_view() =~= base + all.take(i + 1).filter_map(f));
            i = i + 1;
        }
        assert(all.take(n as int) =~= all);
    }

    fn collect_below(
        &self,
        out: &mut Vec<(String, TableKind, String, String)>,
        base: &Vec<String>,
        feature: &str,
    )
        ensures
            final(out).deep_view() == old(out).deep_view() + self.marked_below(
                base.deep_view(),
                feature@,
            ),
    {
        let ghost b = base.deep_view();
        let ghost start = out.deep_view();
        let mut conda = crate::text::clone_texts(base);
        push_view(&mut conda, "dependencies".to_owned());
        assert(conda.deep_view() =~= b + kind_path(TableKind::Conda));
        self.collect_sentinel_entries(out, &conda, feature, TableKind::Conda);
        let mut pypi = crate::text::clone_texts(base);
        push_view(&mut pypi, "pypi-dependencies".to_owned());
        assert(pypi.deep_view() =~= b + kind_path(TableKind::Pypi));
        self.collect_sentinel_entries(out, &pypi, feature, TableKind::Pypi);
        let mut over = crate::text::clone_texts(base);
        push_view(&mut over, "pypi-options".to_owned());
        push_view(&mut over, "dependency-overrides".to_owned());
        assert(over.deep_view() =~= b + kind_path(TableKind::Override));
        self.collect_sentinel_entries(out, &over, feature, TableKind::Override);
        assert(out.deep_view() =~= start + self.marked_below(b, feature@));
    }

    /// The marked entries of the manifest: those at the root, then those of each
    /// feature.
    fn sentinel_entries(&self) -> (r: Vec<(String, TableKind, String, String)>)
        ensures
            r.deep_view() == self.all_marked(),
    {
        let mut out: Vec<(String, TableKind, String, String)> = Vec::new();
        assert(out.deep_view() =~= Seq::<MarkedEntry>::empty());
        let root: Vec<String> = Vec::new();
        assert(root.deep_view() =~= Seq::<Seq<char>>::empty());
        self.collect_below(&mut out, &root, "default");
        let ghost first = self.marked_below(Seq::empty(), "default"@);
        assert(out.deep_view() =~= first);
        let mut path: Vec<String> = Vec::new();
        assert(path.deep_view() =~= Seq::<Seq<char>>::empty());
        push_view(&mut path, "feature".to_owned());
        assert(path.deep_view() =~= seq!["feature"@]);
        if self.has_table(&path) {
            let names = keys_at(&self.doc, &path);
            let ghost all = names.deep_view();
            let ghost f = |f: Seq<char>| self.marked_below(seq!["feature"@, f], f);
            let n: usize = names.len();
            let mut i: usize = 0;
            assert(all.take(0).flat_map(f) =~= Seq::<MarkedEntry>::empty());
            assert(out.deep_view() =~= first + all.take(0).flat_map(f));
            while i < n
                invariant
                    i <= n,
                    n == names@.len(),
                    all == names.deep_view(),
                    f == (|f: Seq<char>| self.marked_below(seq!["feature"@, f], f)),
                    out.deep_view() == first + all.take(i as int).flat_map(f),
                decreases n - i,
            {
                proof {
                    all.lemma_flat_map_take_append(f, i as int);
                }
                assert(all[i as int] == names@[i as int]@);
                let mut base: Vec<String> = Vec::new();
                assert(base.deep_view() =~= Seq::<Seq<char>>::empty());
                push_view(&mut base, "feature".to_owned());
                push_view(&mut base, names[i].clone());
                assert(base.deep_view() =~= seq!["feature"@, all[i as int]]);
                self.collect_below(&mut out, &base, &names[i]);
                assert(out.deep_view() =~= first + all.take(i + 1).flat_map(f));
                i = i + 1;
            }
            assert(all.take(n as int) =~= all);
        }
        assert(out.deep_view() =~= self.all_marked());
        out
    }

    /// The strategies that the marked entries stand for.
    pub fn sentinel_strategies(&self) -> (r: Vec<(String, Strategy)>)
        ensures
            r.deep_view() == self.all_marked().map_values(|e: MarkedEntry| marked_strategy(e)),
    {
        let entries = self.sentinel_entries();
        let ghost all = entries.deep_view();
        let ghost f = |e: MarkedEntry| marked_strategy(e);
        let n: usize = entries.len();
        let mut out: Vec<(String, Strategy)> = Vec::new();
        let mut i: usize = 0;
        assert(out.deep_view() =~= all.take(0).map_values(f));
        while i < n
            invariant
                i <= n,
                n == entries@.len(),
                all == entries.deep_view(),
                f == (|e: MarkedEntry| marked_strategy(e)),
                out.deep_view() == all.take(i as int).map_values(f),
            decreases n - i,
        {
            assert(all[i as int] == entries@[i as int].deep_view());
            let strategy: Strategy = if contains(&entries[i].3, WIDEN_SENTINEL) {
                Strategy::WidenConda
            } else {
                strategy_of(entries[i].1)
            };
            push_view(&mut out, (entries[i].2.clone(), strategy));
            assert(all.take(i + 1).map_values(f) =~= all.take(i as int).map_values(f).push(
                f(all[i as int]),
            ));
            i = i + 1;
        }
        assert(all.take(n as int) =~= all);
        out
    }

    /// Takes out every marked entry, and the tables that are left without one;
    /// returns how many were taken out.
    pub fn clean_pins(&mut self) -> (removed: usize)
        ensures
            (final(self).nodes(), removed as nat) == cleaned(
                old(self).nodes(),
                old(self).all_marked(),
            ),
            final(self).orders() == orders_cleaned(
                old(self).nodes(),
                old(self).orders(),
                old(self).all_marked(),
            ),
            is_sound(old(self).nodes()) ==> is_sound(final(self).nodes()),
            final(self).file() == old(self).file(),
            final(self).dir() == old(self).dir(),
            final(self).refused() == old(self).refused(),
    {
        let entries = self.sentinel_entries();
        let ghost all = entries.deep_view();
        let n: usize = entries.len();
        let mut removed: usize = 0;
        let mut i: usize = 0;
        while i < n
            invariant
                i <= n,
                n == entries@.len(),
                all == entries.deep_view(),
                removed <= i,
                (self.nodes(), removed as nat) == cleaned(old(self).nodes(), all.take(i as int)),
                self.orders() == orders_cleaned(
                    old(self).nodes(),
                    old(self).orders(),
                    all.take(i as int),
                ),
                is_sound(old(self).nodes()) ==> is_sound(self.nodes()),
                self.file() == old(self).file(),
                self.dir() == old(self).dir(),
                self.refused() == old(self).refused(),
            decreases n - i,
        {
            assert(all[i as int] == entries@[i as int].deep_view());
            assert(all.take(i + 1).drop_last() =~= all.take(i as int));
            let hit = self.remove_entry(&entries[i].0, entries[i].1, &entries[i].2);
            if hit {
                removed = removed + 1;
            }
            i = i + 1;
        }
        assert(all.take(n as int) =~= all);
        removed
    }
}

/// An edit of the pins of a table.
pub open spec fn pin_edit(
    nodes: Nodes,
    feature: Seq<char>,
    kind: TableKind,
    package: Seq<char>,
) -> EditView {
    EditView {
        feature,
        package,
        strategy: kind_strategy(kind),
        table: kind,
        before: snapshot(nodes, feature, kind, package),
    }
}

/// Whether a table has a string entry with a mark for `package`.
pub open spec fn marked_pin(
    nodes: Nodes,
    feature: Seq<char>,
    kind: TableKind,
    package: Seq<char>,
) -> bool {
    let s = snapshot(nodes, feature, kind, package);
    s.value is Some && has_sentinel(s)
}

// ---------------------------------------------------------------------------
// What edits keep
// ---------------------------------------------------------------------------

proof fn lemma_keys_differ()
    ensures
        "dependencies"@ != "pypi-options"@,
        "dependencies"@ != "pypi-dependencies"@,
        "dependencies"@ != "feature"@,
        "pypi-dependencies"@ != "pypi-options"@,
        "pypi-dependencies"@ != "feature"@,
        "pypi-options"@ != "feature"@,
{
    reveal_strlit("dependencies");
    reveal_strlit("pypi-dependencies");
    reveal_strlit("pypi-options");
    reveal_strlit("feature");
    assert("dependencies"@[0] == 'd');
    assert("pypi-options"@[0] == 'p');
    assert("feature"@[0] == 'f');
    assert("pypi-dependencies"@[0] == 'p');
    assert("pypi-dependencies"@.len() == 17);
    assert("pypi-options"@.len() == 12);
}

/// An entry never stands where the way to a table leads.
proof fn lemma_entry_off_the_way(
    feature: Seq<char>,
    kind: TableKind,
    package: Seq<char>,
    other: Seq<char>,
    other_kind: TableKind,
    i: int,
)
    requires
        0 <= i <= table_path(other, other_kind).len(),
    ensures
        table_path(other, other_kind).take(i) != table_path(feature, kind).push(package),
{
    lemma_keys_differ();
    let p = table_path(feature, kind);
    let e = p.push(package);
    let q = table_path(other, other_kind).take(i);
    if q == e {
        assert(q.len() == p.len() + 1);
        assert(q[0] == e[0] && e[0] == p[0]);
        if p.len() >= 3 {
            assert(q[2] == e[2] && e[2] == p[2]);
        }
    }
}

proof fn lemma_with_tables_sound(nodes: Nodes, path: KeyPath)
    requires
        is_sound(nodes),
        can_hold_table(nodes, path),
    ensures
        is_sound(with_tables(nodes, path)),
        table_at(with_tables(nodes, path), path),
    decreases path.len(),
{
    lemma_with_tables_keeps(nodes, path, path);
    lemma_with_tables_keeps(nodes, path, Seq::empty());
    if path.len() == 0 {
        assert(path =~= Seq::<Seq<char>>::empty());
    } else {
        let short = path.drop_last();
        assert forall|i: int|
            0 <= i <= short.len() && #[trigger] nodes.dom().contains(
                short.take(i),
            ) implies nodes[short.take(i)].is_table by {
            assert(short.take(i) =~= path.take(i));
        }
        lemma_with_tables_sound(nodes, short);
        assert(path.take(path.len() as int) =~= path);
        let n = with_tables(nodes, short);
        let after = with_tables(nodes, path);
        lemma_with_tables_keeps(nodes, short, path);
        if !n.dom().contains(path) {
            assert forall|t: KeyPath, i: int|
                table_at(after, t) && 0 <= i <= t.len() implies #[trigger] table_at(
                after,
                t.take(i),
            ) by {
                if t == path {
                    if i < t.len() {
                        assert(t.take(i) =~= short.take(i));
                        assert(table_at(n, short.take(i)));
                        assert(!path.is_prefix_of(t.take(i)));
                    } else {
                        assert(t.take(i) =~= t);
                    }
                } else {
                    assert(table_at(n, t.take(i)));
                    if path.is_prefix_of(t.take(i)) {
                        assert(t.take(path.len() as int) =~= t.take(i).take(path.len() as int));
                    }
                }
            }
        }
    }
}

/// Nodes stay those of a document when an entry is written.
pub proof fn lemma_with_entry_sound(
    nodes: Nodes,
    feature: Seq<char>,
    kind: TableKind,
    package: Seq<char>,
    value: Seq<char>,
    suffix: Seq<char>,
)
    requires
        is_sound(nodes),
    ensures
        is_sound(with_entry(nodes, feature, kind, package, value, suffix)),
{
    let p = table_path(feature, kind);
    let e = p.push(package);
    let after = with_entry(nodes, feature, kind, package, value, suffix);
    if can_hold(nodes, feature, kind) {
        let n = with_tables(nodes, p);
        lemma_with_tables_sound(nodes, p);
        lemma_with_entry_rooted(nodes, feature, kind, package, value, suffix);
        assert(!e.is_prefix_of(Seq::<Seq<char>>::empty()));
        assert forall|t: KeyPath, i: int|
            table_at(after, t) && 0 <= i <= t.len() implies #[trigger] table_at(
            after,
            t.take(i),
        ) by {
            assert(t != e);
            assert(table_at(n, t.take(i)));
            if e.is_prefix_of(t.take(i)) {
                assert(t.take(e.len() as int) =~= t.take(i).take(e.len() as int));
            }
        }
    }
}

/// Writing an entry neither blocks nor clears the way to a table.
pub proof fn lemma_write_keeps_the_way(
    nodes: Nodes,
    feature: Seq<char>,
    kind: TableKind,
    package: Seq<char>,
    value: Seq<char>,
    suffix: Seq<char>,
    other: Seq<char>,
    other_kind: TableKind,
)
    requires
        is_sound(nodes),
    ensures
        can_hold(with_entry(nodes, feature, kind, package, value, suffix), other, other_kind)
            == can_hold(nodes, other, other_kind),
{
    let p = table_path(feature, kind);
    let q = table_path(other, other_kind);
    let after = with_entry(nodes, feature, kind, package, value, suffix);
    if can_hold(nodes, feature, kind) {
        assert forall|i: int| 0 <= i <= q.len() implies ({
            &&& nodes.dom().contains(#[trigger] q.take(i)) ==> after.dom().contains(q.take(i))
                && after[q.take(i)] == nodes[q.take(i)]
            &&& after.dom().contains(q.take(i)) && !nodes.dom().contains(q.take(i))
                ==> after[q.take(i)].is_table
        }) by {
            lemma_with_tables_keeps(nodes, p, q.take(i));
            lemma_entry_off_the_way(feature, kind, package, other, other_kind, i);
            if p.push(package).is_prefix_of(q.take(i)) {
                let m = p.push(package).len() as int;
                assert(q.take(i).take(m) =~= q.take(m));
                lemma_entry_off_the_way(feature, kind, package, other, other_kind, m);
            }
        }
        if can_hold(nodes, other, other_kind) {
            assert forall|i: int|
                0 <= i <= q.len() && #[trigger] after.dom().contains(
                    q.take(i),
                ) implies after[q.take(i)].is_table by {
                assert(nodes.dom().contains(q.take(i)) || !nodes.dom().contains(q.take(i)));
            }
        } else {
            let i = choose|i: int|
                0 <= i <= q.len() && #[trigger] nodes.dom().contains(q.take(i))
                    && !nodes[q.take(i)].is_table;
            assert(after.dom().contains(q.take(i)));
        }
    }
}

/// Taking an entry out neither blocks nor clears the way to a table.
pub proof fn lemma_removal_keeps_the_way(
    nodes: Nodes,
    feature: Seq<char>,
    kind: TableKind,
    package: Seq<char>,
    other: Seq<char>,
    other_kind: TableKind,
)
    ensures
        can_hold(without_entry(nodes, feature, kind, package), other, other_kind) == can_hold(
            nodes,
            other,
            other_kind,
        ),
{
    let p = table_path(feature, kind);
    let e = p.push(package);
    let q = table_path(other, other_kind);
    let after = without_entry(nodes, feature, kind, package);
    if can_hold(nodes, other, other_kind) {
        assert forall|i: int|
            0 <= i <= q.len() && #[trigger] after.dom().contains(
                q.take(i),
            ) implies after[q.take(i)].is_table by {
            assert(nodes.dom().contains(q.take(i)));
        }
    } else {
        let i = choose|i: int|
            0 <= i <= q.len() && #[trigger] nodes.dom().contains(q.take(i))
                && !nodes[q.take(i)].is_table;
        lemma_paths_apart(feature, kind, package, other, other_kind, package);
        if e.is_prefix_of(q.take(i)) {
            assert(q.take(i).take(e.len() as int) =~= q.take(e.len() as int));
        }
        if p.is_prefix_of(q.take(i)) {
            assert(q.take(i).take(p.len() as int) =~= q.take(p.len() as int));
            assert(q.take(i) =~= p);
        }
        assert(after.dom().contains(q.take(i)));
    }
}

/// A table that is there can be held.
pub proof fn lemma_table_is_held(nodes: Nodes, feature: Seq<char>, kind: TableKind)
    requires
        is_sound(nodes),
        table_at(nodes, table_path(feature, kind)),
    ensures
        can_hold(nodes, feature, kind),
{
    let p = table_path(feature, kind);
    assert forall|i: int|
        0 <= i <= p.len() && #[trigger] nodes.dom().contains(
            p.take(i),
        ) implies nodes[p.take(i)].is_table by {
        assert(table_at(nodes, p.take(i)));
    }
}

proof fn lemma_without_sound(nodes: Nodes, path: KeyPath)
    requires
        path.len() > 0,
    ensures
        is_sound(nodes) ==> is_sound(without(nodes, path)),
{
    if is_sound(nodes) {
        let after = without(nodes, path);
        assert forall|t: KeyPath, i: int|
            after.dom().contains(t) && 0 <= i <= t.len() implies #[trigger] after.dom().contains(
            t.take(i),
        ) by {
            assert(nodes.dom().contains(t.take(i)));
            if path.is_prefix_of(t.take(i)) {
                assert(t.take(path.len() as int) =~= t.take(i).take(path.len() as int));
            }
        }
        assert(!path.is_prefix_of(Seq::<Seq<char>>::empty()));
        assert forall|t: KeyPath, i: int|
            table_at(after, t) && 0 <= i <= t.len() implies #[trigger] table_at(
            after,
            t.take(i),
        ) by {
            assert(table_at(nodes, t.take(i)));
            if path.is_prefix_of(t.take(i)) {
                assert(t.take(path.len() as int) =~= t.take(i).take(path.len() as int));
            }
        }
    }
}

/// Nodes stay those of a document when an entry is taken out.
pub proof fn lemma_without_entry_sound(
    nodes: Nodes,
    feature: Seq<char>,
    kind: TableKind,
    package: Seq<char>,
)
    requires
        is_sound(nodes),
    ensures
        is_sound(without_entry(nodes, feature, kind, package)),
{
    let p = table_path(feature, kind);
    lemma_without_sound(nodes, p.push(package));
    let n = if table_at(nodes, p) {
        without(nodes, p.push(package))
    } else {
        nodes
    };
    lemma_without_sound(n, p);
}

// ---------------------------------------------------------------------------
// Laws
// ---------------------------------------------------------------------------

/// No table stands below another, and no entry's path leads to another entry.
proof fn lemma_paths_apart(
    feature: Seq<char>,
    kind: TableKind,
    package: Seq<char>,
    other: Seq<char>,
    other_kind: TableKind,
    other_package: Seq<char>,
)
    ensures
        table_path(feature, kind).is_prefix_of(table_path(other, other_kind)) ==> feature == other
            && kind == other_kind,
        table_path(feature, kind).is_prefix_of(table_path(other, other_kind).push(other_package))
            ==> feature == other && kind == other_kind,
        !table_path(feature, kind).push(package).is_prefix_of(table_path(other, other_kind)),
        table_path(feature, kind).push(package).is_prefix_of(
            table_path(other, other_kind).push(other_package),
        ) ==> feature == other && kind == other_kind && package == other_package,
{
    lemma_keys_differ();
    let p = table_path(feature, kind);
    let e = p.push(package);
    let q = table_path(other, other_kind);
    let d = q.push(other_package);
    if p.is_prefix_of(d) {
        assert(p[0] == d[0] && d[0] == q[0]);
        if p.len() >= 2 {
            assert(p[1] == d[1]);
        }
        if p.len() >= 3 {
            assert(p[2] == d[2]);
        }
        if p.len() >= 4 {
            assert(p[3] == d[3]);
        }
        if q.len() >= 3 {
            assert(q[2] == d[2]);
        }
        if q.len() >= 2 {
            assert(q[1] == d[1]);
        }
    }
    if p.is_prefix_of(q) {
        assert(p.is_prefix_of(d)) by {
            assert(d.take(p.len() as int) =~= q.take(p.len() as int));
        }
    }
    if e.is_prefix_of(q) {
        lemma_entry_off_the_way(feature, kind, package, other, other_kind, e.len() as int);
        assert(q.take(e.len() as int) =~= e);
    }
    if e.is_prefix_of(d) {
        assert(p.is_prefix_of(d)) by {
            assert(d.take(p.len() as int) =~= e.take(p.len() as int));
        }
        assert(d[p.len() as int] == e[p.len() as int]);
    }
}

/// Tables on the way to a path take nothing from a node that the path does not
/// lead through.
proof fn lemma_with_tables_keeps(nodes: Nodes, path: KeyPath, q: KeyPath)
    requires
        is_rooted(nodes),
        nodes.dom().contains(Seq::empty()),
    ensures
        with_tables(nodes, path).dom().contains(Seq::empty()),
        nodes.dom().contains(q) ==> with_tables(nodes, path).dom().contains(q) && with_tables(
            nodes,
            path,
        )[q] == nodes[q],
        !nodes.dom().contains(q) && with_tables(nodes, path).dom().contains(q)
            ==> q.is_prefix_of(path) && with_tables(nodes, path)[q] == table_node(),
        is_rooted(with_tables(nodes, path)),
    decreases path.len(),
{
    if path.len() > 0 {
        let short = path.drop_last();
        lemma_with_tables_keeps(nodes, short, q);
        let n = with_tables(nodes, short);
        if q.is_prefix_of(short) {
            assert(path.take(q.len() as int) =~= short.take(q.len() as int));
        }
        if !n.dom().contains(path) {
            if n.dom().contains(q) && path.is_prefix_of(q) {
                assert(q.take(path.len() as int) =~= path);
            }
            lemma_with_tables_has(nodes, short);
            assert(!path.is_prefix_of(Seq::<Seq<char>>::empty()));
            let after = without(n, path).insert(path, table_node());
            assert forall|t: KeyPath, i: int|
                after.dom().contains(t) && 0 <= i <= t.len() implies #[trigger] after.dom().contains(
                t.take(i),
            ) by {
                if t == path {
                    if i < t.len() {
                        assert(short.len() > 0 || i == 0);
                        assert(t.take(i) =~= short.take(i));
                        if short.len() > 0 {
                            assert(n.dom().contains(short));
                            assert(n.dom().contains(short.take(i)));
                        } else {
                            assert(t.take(0) =~= Seq::<Seq<char>>::empty());
                        }
                        assert(!path.is_prefix_of(t.take(i)));
                    } else {
                        assert(t.take(i) =~= t);
                    }
                } else {
                    assert(n.dom().contains(t.take(i)));
                    if path.is_prefix_of(t.take(i)) {
                        assert(t.take(path.len() as int) =~= t.take(i).take(path.len() as int));
                    }
                }
            }
        }
    }
}

proof fn lemma_with_tables_has(nodes: Nodes, path: KeyPath)
    ensures
        path.len() > 0 ==> with_tables(nodes, path).dom().contains(path),
{
}

/// Writing an entry writes that entry, where its table can be held, and leaves every
/// other as it was.
pub proof fn law_write_touches_one_entry(
    nodes: Nodes,
    feature: Seq<char>,
    kind: TableKind,
    package: Seq<char>,
    value: Seq<char>,
    suffix: Seq<char>,
    other: Seq<char>,
    other_kind: TableKind,
    other_package: Seq<char>,
)
    requires
        is_sound(nodes),
    ensures
        ({
            let after = with_entry(nodes, feature, kind, package, value, suffix);
            &&& snapshot(after, feature, kind, package) == if can_hold(nodes, feature, kind) {
                SnapshotView { value: Some(value), suffix: Some(suffix) }
            } else {
                snapshot(nodes, feature, kind, package)
            }
            &&& (other, other_kind, other_package) != (feature, kind, package) ==> snapshot(
                after,
                other,
                other_kind,
                other_package,
            ) == snapshot(nodes, other, other_kind, other_package)
        }),
{
    let after = with_entry(nodes, feature, kind, package, value, suffix);
    let p = table_path(feature, kind);
    let q = table_path(other, other_kind);
    lemma_with_tables_keeps(nodes, p, p);
    lemma_with_tables_has(nodes, p);
    lemma_paths_apart(feature, kind, package, feature, kind, package);
    assert(!p.push(package).is_prefix_of(p));
    if can_hold(nodes, feature, kind) {
        lemma_with_tables_sound(nodes, p);
        assert(table_at(after, p));
    }
    lemma_paths_apart(feature, kind, package, other, other_kind, other_package);
    lemma_paths_apart(other, other_kind, other_package, feature, kind, package);
    lemma_with_tables_keeps(nodes, p, q);
    lemma_with_tables_keeps(nodes, p, q.push(other_package));
    if nodes.dom().contains(q.push(other_package)) {
        assert(q.push(other_package).take(q.len() as int) =~= q);
        assert(nodes.dom().contains(q));
    }
}

proof fn lemma_tables_keep_the_order(nodes: Nodes, orders: Orders, path: KeyPath)
    requires
        is_sound(nodes),
        can_hold_table(nodes, path),
        orders.dom().subset_of(nodes.dom()),
    ensures
        orders_with_tables(nodes, orders, path).dom().subset_of(with_tables(nodes, path).dom()),
        forall|p: Seq<Seq<char>>| #[trigger]
            orders.dom().contains(p) ==> orders_with_tables(nodes, orders, path).dom().contains(p)
                && orders[p].is_prefix_of(orders_with_tables(nodes, orders, path)[p]),
    decreases path.len(),
{
    if path.len() > 0 {
        let up = path.drop_last();
        assert forall|i: int| 0 <= i <= up.len() && #[trigger] nodes.dom().contains(
            up.take(i),
        ) implies nodes[up.take(i)].is_table by {
            assert(up.take(i) =~= path.take(i));
        }
        lemma_tables_keep_the_order(nodes, orders, up);
        lemma_with_tables_sound(nodes, up);
        let n = with_tables(nodes, up);
        let before = orders_with_tables(nodes, orders, up);
        let after = orders_with_tables(nodes, orders, path);
        assert(up.push(path.last()) =~= path);
        if !n.dom().contains(path) {
            assert forall|p: Seq<Seq<char>>| before.dom().contains(p) implies !path.is_prefix_of(
                p,
            ) by {
                if path.is_prefix_of(p) {
                    assert(p.take(path.len() as int) =~= path);
                    assert(n.dom().contains(p.take(path.len() as int)));
                }
            }
            lemma_with_tables_has(nodes, up);
            assert(!path.is_prefix_of(up));
            assert forall|p: Seq<Seq<char>>| #[trigger] orders.dom().contains(p) implies {
                &&& after.dom().contains(p)
                &&& orders[p].is_prefix_of(after[p])
            } by {
                assert(before.dom().contains(p));
                if p == up {
                    assert(before[p].is_prefix_of(with_key(before[p], path.last())));
                }
            }
            assert(after.dom().subset_of(with_tables(nodes, path).dom()));
        }
    }
}

/// Writing an entry keeps the order of the keys in every table: what was there keeps
/// its place, and what is new comes behind it.
pub proof fn law_write_keeps_the_order(
    nodes: Nodes,
    orders: Orders,
    feature: Seq<char>,
    kind: TableKind,
    package: Seq<char>,
    path: KeyPath,
)
    requires
        is_sound(nodes),
        orders.dom().subset_of(nodes.dom()),
        orders.dom().contains(path),
        !table_path(feature, kind).push(package).is_prefix_of(path),
    ensures
        ({
            let after = orders_with_entry(nodes, orders, feature, kind, package);
            after.dom().contains(path) && orders[path].is_prefix_of(after[path])
        }),
{
    if can_hold(nodes, feature, kind) {
        let p = table_path(feature, kind);
        lemma_tables_keep_the_order(nodes, orders, p);
        let before = orders_with_tables(nodes, orders, p);
        assert(before[p].is_prefix_of(with_key(before[p], package)));
    }
}

/// Taking an entry out takes out that entry, and leaves every other as it was.
pub proof fn law_removal_touches_one_entry(
    nodes: Nodes,
    feature: Seq<char>,
    kind: TableKind,
    package: Seq<char>,
    other: Seq<char>,
    other_kind: TableKind,
    other_package: Seq<char>,
)
    ensures
        ({
            let after = without_entry(nodes, feature, kind, package);
            &&& snapshot(after, feature, kind, package) == (SnapshotView {
                value: None,
                suffix: None,
            })
            &&& (other, other_kind, other_package) != (feature, kind, package) ==> snapshot(
                after,
                other,
                other_kind,
                other_package,
            ) == snapshot(nodes, other, other_kind, other_package)
        }),
{
    lemma_paths_apart(feature, kind, package, feature, kind, package);
    lemma_paths_apart(feature, kind, package, other, other_kind, other_package);
    let p = table_path(feature, kind);
    let e = p.push(package);
    assert(e.is_prefix_of(e)) by {
        assert(e.take(e.len() as int) =~= e);
    }
    assert(!e.is_prefix_of(p));
    assert(p.is_prefix_of(e)) by {
        assert(e.take(p.len() as int) =~= p);
    }
    assert(p.is_prefix_of(p)) by {
        assert(p.take(p.len() as int) =~= p);
    }
    let n = if table_at(nodes, p) {
        without(nodes, e)
    } else {
        nodes
    };
    assert(snapshot(n, feature, kind, package) == (SnapshotView { value: None, suffix: None }));
    if (other, other_kind, other_package) != (feature, kind, package) {
        assert(snapshot(n, other, other_kind, other_package) == snapshot(
            nodes,
            other,
            other_kind,
            other_package,
        ));
        if other == feature && other_kind == kind {
            assert(n.dom().contains(p.push(other_package)) || !n.dom().contains(
                p.push(other_package),
            ));
        }
    }
}

/// An entry that is written and then restored is as it was before, and so is
/// every other: where there was none there is none, and a string has its value
/// and what followed it.
pub proof fn law_restore_undoes_write(
    nodes: Nodes,
    feature: Seq<char>,
    kind: TableKind,
    package: Seq<char>,
    value: Seq<char>,
    suffix: Seq<char>,
    other: Seq<char>,
    other_kind: TableKind,
    other_package: Seq<char>,
)
    requires
        is_sound(nodes),
        ({
            let before = snapshot(nodes, feature, kind, package);
            (before.value is Some && before.suffix is Some) || (before.value is None
                && before.suffix is None)
        }),
    ensures
        ({
            let before = snapshot(nodes, feature, kind, package);
            let written = with_entry(nodes, feature, kind, package, value, suffix);
            let restored = with_restored(written, feature, kind, package, before);
            snapshot(restored, other, other_kind, other_package) == snapshot(
                nodes,
                other,
                other_kind,
                other_package,
            )
        }),
{
    let before = snapshot(nodes, feature, kind, package);
    let written = with_entry(nodes, feature, kind, package, value, suffix);
    law_write_touches_one_entry(
        nodes,
        feature,
        kind,
        package,
        value,
        suffix,
        other,
        other_kind,
        other_package,
    );
    lemma_with_entry_sound(nodes, feature, kind, package, value, suffix);
    lemma_with_entry_rooted(nodes, feature, kind, package, value, suffix);
    match before.value {
        Some(v) => {
            lemma_table_is_held(nodes, feature, kind);
            lemma_write_keeps_the_way(
                nodes,
                feature,
                kind,
                package,
                value,
                suffix,
                feature,
                kind,
            );
            law_write_touches_one_entry(
                written,
                feature,
                kind,
                package,
                v,
                before.suffix->0,
                other,
                other_kind,
                other_package,
            );
        },
        None => {
            law_removal_touches_one_entry(
                written,
                feature,
                kind,
                package,
                other,
                other_kind,
                other_package,
            );
        },
    }
}

proof fn lemma_with_entry_rooted(
    nodes: Nodes,
    feature: Seq<char>,
    kind: TableKind,
    package: Seq<char>,
    value: Seq<char>,
    suffix: Seq<char>,
)
    requires
        is_rooted(nodes),
        nodes.dom().contains(Seq::empty()),
    ensures
        is_rooted(with_entry(nodes, feature, kind, package, value, suffix)),
{
    let p = table_path(feature, kind);
    let e = p.push(package);
    let n = with_tables(nodes, p);
    lemma_with_tables_keeps(nodes, p, p);
    lemma_with_tables_has(nodes, p);
    let after = with_entry(nodes, feature, kind, package, value, suffix);
    assert forall|t: KeyPath, i: int|
        after.dom().contains(t) && 0 <= i <= t.len() implies #[trigger] after.dom().contains(
        t.take(i),
    ) by {
        if !can_hold(nodes, feature, kind) {
        } else if t == e {
            if i < t.len() {
                assert(t.take(i) =~= p.take(i));
                assert(n.dom().contains(p.take(i)));
                assert(!e.is_prefix_of(t.take(i)));
            } else {
                assert(t.take(i) =~= t);
            }
        } else {
            assert(n.dom().contains(t.take(i)));
            if e.is_prefix_of(t.take(i)) {
                assert(t.take(e.len() as int) =~= t.take(i).take(e.len() as int));
            }
        }
    }
}

/// Cleaning takes out the entries that it is given, and leaves every other as it
/// was: the pins of the user among them.
pub proof fn law_cleaning_takes_marked_entries_only(
    nodes: Nodes,
    entries: Seq<MarkedEntry>,
    feature: Seq<char>,
    kind: TableKind,
    package: Seq<char>,
)
    ensures
        ({
            let listed = exists|i: int|
                0 <= i < entries.len() && (#[trigger] entries[i]).0 == feature && entries[i].1
                    == kind && entries[i].2 == package;
            snapshot(cleaned(nodes, entries).0, feature, kind, package) == if listed {
                SnapshotView { value: None, suffix: None }
            } else {
                snapshot(nodes, feature, kind, package)
            }
        }),
    decreases entries.len(),
{
    if entries.len() > 0 {
        let short = entries.drop_last();
        let last = entries.last();
        law_cleaning_takes_marked_entries_only(nodes, short, feature, kind, package);
        law_removal_touches_one_entry(
            cleaned(nodes, short).0,
            last.0,
            last.1,
            last.2,
            feature,
            kind,
            package,
        );
        if exists|i: int|
            0 <= i < short.len() && (#[trigger] short[i]).0 == feature && short[i].1 == kind
                && short[i].2 == package {
            let i = choose|i: int|
                0 <= i < short.len() && (#[trigger] short[i]).0 == feature && short[i].1 == kind
                    && short[i].2 == package;
            assert(entries[i] == short[i]);
        }
        assert(entries[entries.len() - 1] == last);
        assert forall|i: int| 0 <= i < entries.len() - 1 implies #[trigger] entries[i] == short[i] by {}
    }
}

/// Whether a text has another in it.
pub open spec fn says(text: Seq<char>, part: Seq<char>) -> bool {
    exists|before: Seq<char>, after: Seq<char>| text == #[trigger] (before + part + after)
}

proof fn lemma_says(text: Seq<char>, part: Seq<char>)
    ensures
        occurs(text, part) <==> says(text, part),
{
    if occurs(text, part) {
        let i = choose|i: int| occurs_at(text, part, i);
        let before = text.take(i);
        let after = text.skip(i + part.len());
        assert(text =~= before + part + after);
    }
    if says(text, part) {
        let (before, after) = choose|before: Seq<char>, after: Seq<char>|
            text == #[trigger] (before + part + after);
        let at: int = before.len() as int;
        assert(text.subrange(at, at + part.len()) =~= part);
        assert(occurs_at(text, part, at));
    }
}

/// An entry is the user's own unless its remark says that a repair pinned or widened it.
pub proof fn law_marks_tell_repairs_from_the_user(
    nodes: Nodes,
    feature: Seq<char>,
    kind: TableKind,
    package: Seq<char>,
    remark: Seq<char>,
)
    requires
        snapshot(nodes, feature, kind, package).value is Some,
    ensures
        snapshot(nodes, feature, kind, package).suffix == Some(remark) ==> (user_entry(
            nodes,
            feature,
            kind,
            package,
        ) <==> !says(remark, "# retread:pin"@) && !says(remark, "# retread:widen"@)),
        snapshot(nodes, feature, kind, package).suffix is None ==> user_entry(
            nodes,
            feature,
            kind,
            package,
        ),
{
    lemma_says(remark, "# retread:pin"@);
    lemma_says(remark, "# retread:widen"@);
}

proof fn lemma_one_hash(date: Seq<char>, slug: Seq<char>)
    requires
        !date.contains('#'),
        !slug.contains('#'),
    ensures
        !occurs("  # retread:pin "@ + date + " "@ + slug, "# retread:widen"@),
        occurs("  # retread:pin "@ + date + " "@ + slug, "# retread:pin"@),
        occurs("  # retread:widen "@ + date, "# retread:widen"@),
{
    reveal_strlit("  # retread:pin ");
    reveal_strlit("  # retread:widen ");
    reveal_strlit("# retread:widen");
    reveal_strlit("# retread:pin");
    reveal_strlit(" ");
    let text = "  # retread:pin "@ + date + " "@ + slug;
    let head = "  # retread:pin "@;
    if occurs(text, "# retread:widen"@) {
        let i = choose|i: int| occurs_at(text, "# retread:widen"@, i);
        let cut = text.subrange(i, i + "# retread:widen"@.len());
        assert(cut[0] == '#' && cut[10] == 'w');
        assert(text[i] == cut[0] && text[i + 10] == cut[10]);
        if i < head.len() {
            assert(text[i] == head[i]);
            assert(i == 2);
            assert(text[12] == head[12]);
        } else if i < head.len() + date.len() {
            assert(date.contains(date[i - head.len()]));
        } else if i > head.len() + date.len() {
            assert(slug.contains(slug[i - head.len() - date.len() - 1]));
        }
    }
    assert(text.subrange(2, 15) =~= "# retread:pin"@);
    assert(occurs_at(text, "# retread:pin"@, 2));
    let other = "  # retread:widen "@ + date;
    assert(other.subrange(2, 17) =~= "# retread:widen"@);
    assert(occurs_at(other, "# retread:widen"@, 2));
}

/// A repair finds again what it wrote: a pin, by the strategy of the table that it stands
/// in, and a widening as such.
pub proof fn law_written_marks_are_read(
    feature: Seq<char>,
    kind: TableKind,
    package: Seq<char>,
    date: Seq<char>,
    reason: Reason,
)
    requires
        !date.contains('#'),
    ensures
        is_marked("  # retread:pin "@ + date + " "@ + reason_slug(reason)),
        is_marked("  # retread:widen "@ + date),
        pin_mark(date, reason) == "  # retread:pin "@ + date + " "@ + reason_slug(reason),
        widen_mark(date) == "  # retread:widen "@ + date,
        marked_strategy((feature, kind, package, widen_mark(date))) == (
            package,
            Strategy::WidenConda,
        ),
        marked_strategy((feature, TableKind::Conda, package, pin_mark(date, reason))) == (
            package,
            Strategy::Conda,
        ),
        marked_strategy((feature, TableKind::Pypi, package, pin_mark(date, reason))) == (
            package,
            Strategy::PypiDep,
        ),
        marked_strategy((feature, TableKind::Override, package, pin_mark(date, reason))) == (
            package,
            Strategy::PypiOverride,
        ),
{
    reveal_strlit("conda-boundary");
    reveal_strlit("pypi-internal");
    reveal_strlit("no-candidates-escalation");
    let slug = reason_slug(reason);
    assert(!slug.contains('#'));
    lemma_one_hash(date, slug);
}

/// A feature's tables stand below its own, the default feature's at the root; overrides
/// stand below the options of the wheels.
pub proof fn law_tables_stand_where_they_belong(feature: Seq<char>)
    requires
        feature != "default"@,
    ensures
        table_path("default"@, TableKind::Conda) == seq!["dependencies"@],
        table_path("default"@, TableKind::Pypi) == seq!["pypi-dependencies"@],
        table_path("default"@, TableKind::Override) == seq![
            "pypi-options"@,
            "dependency-overrides"@,
        ],
        table_path(feature, TableKind::Conda) == seq!["feature"@, feature, "dependencies"@],
        table_path(feature, TableKind::Pypi) == seq!["feature"@, feature, "pypi-dependencies"@],
        table_path(feature, TableKind::Override) == seq![
            "feature"@,
            feature,
            "pypi-options"@,
            "dependency-overrides"@,
        ],
{
    assert(seq!["feature"@, feature] + seq!["dependencies"@] =~= seq![
        "feature"@,
        feature,
        "dependencies"@,
    ]);
    assert(seq!["feature"@, feature] + seq!["pypi-dependencies"@] =~= seq![
        "feature"@,
        feature,
        "pypi-dependencies"@,
    ]);
    assert(seq!["feature"@, feature] + seq!["pypi-options"@, "dependency-overrides"@] =~= seq![
        "feature"@,
        feature,
        "pypi-options"@,
        "dependency-overrides"@,
    ]);
}

proof fn lemma_filter_map_has<A, B>(s: Seq<A>, f: spec_fn(A) -> Option<B>, y: B)
    ensures
        s.filter_map(f).contains(y) <==> exists|i: int|
            0 <= i < s.len() && f(#[trigger] s[i]) == Some(y),
    decreases s.len(),
{
    reveal(Seq::filter_map);
    if s.len() > 0 {
        let short = s.drop_last();
        lemma_filter_map_has(short, f, y);
        let last = s.len() - 1;
        assert(s[last] == s.last());
        if exists|i: int| 0 <= i < short.len() && f(#[trigger] short[i]) == Some(y) {
            let i = choose|i: int| 0 <= i < short.len() && f(#[trigger] short[i]) == Some(y);
            assert(s[i] == short[i]);
        }
        if exists|i: int| 0 <= i < s.len() && f(#[trigger] s[i]) == Some(y) {
            let i = choose|i: int| 0 <= i < s.len() && f(#[trigger] s[i]) == Some(y);
            if i < short.len() {
                assert(short[i] == s[i]);
            }
        }
    }
}

/// In a table, what repairs wrote is every entry with a mark, and nothing else.
pub proof fn law_every_mark_of_a_table_is_found(
    e: ManifestEditor,
    path: KeyPath,
    feature: Seq<char>,
    kind: TableKind,
    package: Seq<char>,
    remark: Seq<char>,
)
    requires
        table_at(e.nodes(), path),
    ensures
        e.marked_at(path, feature, kind).contains((feature, kind, package, remark)) <==> {
            &&& e.keys(path).contains(package)
            &&& e.nodes()[path.push(package)].suffix == Some(remark)
            &&& says(remark, "# retread:pin"@) || says(remark, "# retread:widen"@)
        },
{
    let f = |k: Seq<char>| marked_entry(e.nodes(), path, feature, kind, k);
    let y = (feature, kind, package, remark);
    lemma_filter_map_has(e.keys(path), f, y);
    lemma_says(remark, "# retread:pin"@);
    lemma_says(remark, "# retread:widen"@);
    let keys = e.keys(path);
    if keys.contains(package) {
        let i = choose|i: int| 0 <= i < keys.len() && keys[i] == package;
        assert(f(keys[i]) == f(package));
    }
    if e.marked_at(path, feature, kind).contains(y) {
        let i = choose|i: int| 0 <= i < keys.len() && f(#[trigger] keys[i]) == Some(y);
        assert(keys[i] == package);
    }
}

} // verus!
