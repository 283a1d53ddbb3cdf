//! What the conda solver says of a set of specs, and why it finds no solution.
use crate::text::{
    after_prefix, chars_of, contains, find_from, first_at, holds_text, is_space, line_pieces, lines,
    lemma_pieces_nonempty, occurs, occurs_at, pieces, push_view, skip_chars, space_char, split, split_whitespace, strip_prefix,
    take_chars, text_eq, text_from, trim, trim_start, trimmed, trimmed_end, trimmed_start, word_scan, words,
};
use vstd::prelude::*;

verus! {

broadcast use vstd::seq_lib::group_seq_properties;

// ---------------------------------------------------------------------------
// Outcomes
// ---------------------------------------------------------------------------

/// What a check came to.
#[derive(Debug)]
pub struct SolveOutcome {
    /// Whether there is a solution.
    pub satisfiable: bool,
    /// Why there is none, in the solver's words.
    pub unsat_explanations: Vec<String>,
    /// The channels that were read.
    pub channels_consulted: Vec<String>,
    /// How many specs were to be met.
    pub specs_count: usize,
    /// How many packages there were to choose from.
    pub records_count: usize,
    /// What was relaxed before this outcome.
    pub refinement_steps: Vec<String>,
    /// What could be changed in the workspace.
    pub workspace_edit_suggestions: Vec<String>,
    /// The name of what kind of conflict it is.
    pub terminal_classification: Option<String>,
    /// Whether the check could not be made. That is no verdict.
    pub skipped: bool,
}

/// What a `SolveOutcome` says.
#[verifier::ext_equal]
pub struct CheckView {
    pub satisfiable: bool,
    pub unsat_explanations: Seq<Seq<char>>,
    pub channels_consulted: Seq<Seq<char>>,
    pub specs_count: usize,
    pub records_count: usize,
    pub refinement_steps: Seq<Seq<char>>,
    pub workspace_edit_suggestions: Seq<Seq<char>>,
    pub terminal_classification: Option<Seq<char>>,
    pub skipped: bool,
}

impl DeepView for SolveOutcome {
    type V = CheckView;

    open spec fn deep_view(&self) -> CheckView {
        CheckView {
            satisfiable: self.satisfiable,
            unsat_explanations: self.unsat_explanations.deep_view(),
            channels_consulted: self.channels_consulted.deep_view(),
            specs_count: self.specs_count,
            records_count: self.records_count,
            refinement_steps: self.refinement_steps.deep_view(),
            workspace_edit_suggestions: self.workspace_edit_suggestions.deep_view(),
            terminal_classification: self.terminal_classification.deep_view(),
            skipped: self.skipped,
        }
    }
}

/// An outcome without suggestions.
pub open spec fn plain_outcome(
    satisfiable: bool,
    unsat_explanations: Seq<Seq<char>>,
    channels_consulted: Seq<Seq<char>>,
    specs_count: usize,
    records_count: usize,
    skipped: bool,
) -> CheckView {
    CheckView {
        satisfiable,
        unsat_explanations,
        channels_consulted,
        specs_count,
        records_count,
        refinement_steps: Seq::empty(),
        workspace_edit_suggestions: Seq::empty(),
        terminal_classification: None,
        skipped,
    }
}

/// The outcome of a check of `specs_count` specs against `records_count` packages:
/// without packages it was not made, and else the verdict decides, with the reasons
/// against a solution where there are any.
pub open spec fn outcome_of(
    channels: Seq<Seq<char>>,
    specs_count: usize,
    records_count: usize,
    reasons: Option<Seq<Seq<char>>>,
) -> CheckView {
    if records_count == 0 {
        plain_outcome(
            false,
            seq!["solve-check skipped: no repodata available from disk cache"@],
            channels,
            specs_count,
            0,
            true,
        )
    } else {
        match reasons {
            None => plain_outcome(
                true,
                Seq::empty(),
                channels,
                specs_count,
                records_count,
                false,
            ),
            Some(r) => plain_outcome(false, r, channels, specs_count, records_count, false),
        }
    }
}

fn one_text(text: &str) -> (r: Vec<String>)
    ensures
        r.deep_view() == seq![text@],
{
    let v: Vec<String> = vec![text.to_owned()];
    assert(v.deep_view() =~= seq![text@]);
    v
}

fn no_texts() -> (r: Vec<String>)
    ensures
        r.deep_view() == Seq::<Seq<char>>::empty(),
{
    let v: Vec<String> = Vec::new();
    assert(v.deep_view() =~= Seq::<Seq<char>>::empty());
    v
}

impl SolveOutcome {
    /// The outcome where nothing could be read that a check could be made against.
    pub fn unreachable() -> (r: Self)
        ensures
            r.deep_view() == plain_outcome(
                false,
                seq!["solve-check skipped: no repodata could be loaded"@],
                Seq::empty(),
                0,
                0,
                true,
            ),
    {
        SolveOutcome {
            satisfiable: false,
            unsat_explanations: one_text("solve-check skipped: no repodata could be loaded"),
            channels_consulted: no_texts(),
            specs_count: 0,
            records_count: 0,
            refinement_steps: no_texts(),
            workspace_edit_suggestions: no_texts(),
            terminal_classification: None,
            skipped: true,
        }
    }

    /// The outcome of a check.
    pub fn of_check(
        channels: Vec<String>,
        specs_count: usize,
        records_count: usize,
        reasons: Option<Vec<String>>,
    ) -> (r: Self)
        ensures
            r.deep_view() == outcome_of(
                channels.deep_view(),
                specs_count,
                records_count,
                reasons.deep_view(),
            ),
    {
        let (satisfiable, unsat_explanations, skipped) = if records_count == 0 {
            (
                false,
                one_text("solve-check skipped: no repodata available from disk cache"),
                true,
            )
        } else {
            match reasons {
                None => (true, no_texts(), false),
                Some(r) => (false, r, false),
            }
        };
        SolveOutcome {
            satisfiable,
            unsat_explanations,
            channels_consulted: channels,
            specs_count,
            records_count,
            refinement_steps: no_texts(),
            workspace_edit_suggestions: no_texts(),
            terminal_classification: None,
            skipped,
        }
    }
}

/// A check that was not made claims no solution and makes no suggestion.
pub proof fn law_skipped_check_is_no_verdict(
    channels: Seq<Seq<char>>,
    specs_count: usize,
    records_count: usize,
    reasons: Option<Seq<Seq<char>>>,
)
    ensures
        ({
            let o = outcome_of(channels, specs_count, records_count, reasons);
            &&& o.skipped <==> records_count == 0
            &&& o.skipped ==> !o.satisfiable && o.terminal_classification is None
            &&& o.satisfiable <==> records_count != 0 && reasons is None
        }),
{
}

// ---------------------------------------------------------------------------
// Explanations
// ---------------------------------------------------------------------------

/// A package at the top of an explanation.
#[derive(Debug)]
pub struct BlockingChain {
    pub name: String,
    /// The spec that was to be met; empty where the line does not say.
    pub current_spec: String,
    /// The versions that were tried, each once, in the order in which they are
    /// named.
    pub rejected_versions: Vec<String>,
    /// The first requirement below it; empty where none is named.
    pub transitive_requirement: String,
    /// Whether the package could be installed on its own.
    pub installable: bool,
}

/// What a `BlockingChain` says.
#[verifier::ext_equal]
pub struct ChainView {
    pub name: Seq<char>,
    pub current_spec: Seq<char>,
    pub rejected_versions: Seq<Seq<char>>,
    pub transitive_requirement: Seq<char>,
    pub installable: bool,
}

impl DeepView for BlockingChain {
    type V = ChainView;

    open spec fn deep_view(&self) -> ChainView {
        ChainView {
            name: self.name@,
            current_spec: self.current_spec@,
            rejected_versions: self.rejected_versions.deep_view(),
            transitive_requirement: self.transitive_requirement@,
            installable: self.installable,
        }
    }
}

/// What follows the branch at the start of a line of the tree's first level.
pub open spec fn branch_text(line: Seq<char>) -> Option<Seq<char>> {
    match after_prefix(line, "├─ "@) {
        Some(rest) => Some(rest),
        None => after_prefix(line, "└─ "@),
    }
}

/// The first word of a text; empty where it has none.
pub open spec fn first_word(s: Seq<char>) -> Seq<char> {
    if words(s).len() > 0 {
        words(s)[0]
    } else {
        Seq::empty()
    }
}

/// Whether a character belongs to a version spec.
pub open spec fn is_spec_char(c: char) -> bool {
    c == '<' || c == '>' || c == '=' || c == ',' || c == '!' || c == '~' || c == '*'
}

/// Whether a text has a character of a version spec.
pub open spec fn has_spec_char(s: Seq<char>) -> bool {
    exists|i: int| 0 <= i < s.len() && is_spec_char(#[trigger] s[i])
}

/// Whether a line goes on below the tree's first level.
pub open spec fn in_tree(line: Seq<char>) -> bool {
    line.len() == 0 || line[0] == '│' || line[0] == ' ' || line[0] == '\t'
}

/// Whether a character draws a tree.
pub open spec fn is_tree_char(c: char) -> bool {
    c == '│' || c == '├' || c == '└' || c == '─' || c == ' ' || c == '\t'
}

/// A line without the tree at its start.
pub open spec fn without_tree(line: Seq<char>) -> Seq<char>
    decreases line.len(),
{
    if line.len() > 0 && is_tree_char(line[0]) {
        without_tree(line.drop_first())
    } else {
        line
    }
}

/// What follows the first white space of a text.
pub open spec fn after_space(s: Seq<char>) -> Option<Seq<char>>
    decreases s.len(),
{
    if s.len() == 0 {
        None
    } else if is_space(s[0]) {
        Some(s.drop_first())
    } else {
        after_space(s.drop_first())
    }
}

/// The versions with those of `parts` that are new and not blank.
pub open spec fn with_versions(seen: Seq<Seq<char>>, parts: Seq<Seq<char>>) -> Seq<Seq<char>>
    decreases parts.len(),
{
    if parts.len() == 0 {
        seen
    } else {
        let before = with_versions(seen, parts.drop_last());
        let v = trimmed(parts.last());
        if v.len() == 0 || before.contains(v) {
            before
        } else {
            before.push(v)
        }
    }
}

/// The part of a line that states a requirement, without what is said of it.
pub open spec fn stated_requirement(line: Seq<char>) -> Seq<char> {
    let s = without_tree(line);
    let end = match first_at(s, ", which"@, 0) {
        Some(i) => i,
        None => match first_at(s, ", for which"@, 0) {
            Some(i) => i,
            None => s.len() as int,
        },
    };
    trimmed(s.take(end))
}

/// Whether a text reads as a requirement: it begins like a name, and lists no
/// versions.
pub open spec fn is_requirement(s: Seq<char>) -> bool {
    !occurs(s, " | "@) && s.len() > 0 && ('a' <= s[0] <= 'z' || 'A' <= s[0] <= 'Z' || s[0] == '_')
}

/// What the lines below a package say.
#[verifier::ext_equal]
pub struct DescentView {
    pub rejected: Seq<Seq<char>>,
    pub transitive: Seq<char>,
}

/// What is known with one more line: the versions that it lists, or the first
/// requirement.
pub open spec fn with_line(st: DescentView, line: Seq<char>) -> DescentView {
    match first_at(line, " would require"@, 0) {
        Some(i) => match after_space(without_tree(line.take(i))) {
            Some(list) => DescentView {
                rejected: with_versions(st.rejected, pieces(list, '|')),
                ..st
            },
            None => st,
        },
        None => if st.transitive.len() == 0 && is_requirement(stated_requirement(line)) {
            DescentView { transitive: stated_requirement(line), ..st }
        } else {
            st
        },
    }
}

/// What the lines from `from` on say, up to the first that is not below the tree's
/// first level.
pub open spec fn descent(all: Seq<Seq<char>>, from: int, st: DescentView) -> DescentView
    decreases all.len() - from,
{
    if from < 0 || from >= all.len() || !in_tree(all[from]) {
        st
    } else {
        descent(all, from + 1, with_line(st, all[from]))
    }
}

/// The spec that a line says was to be met, and whether it could be.
pub open spec fn stated_spec(after_name: Seq<char>) -> (Seq<char>, bool) {
    match first_at(after_name, " cannot be installed"@, 0) {
        Some(i) => (trimmed(after_name.take(i)), false),
        None => match first_at(after_name, " can be installed"@, 0) {
            Some(i) => (trimmed(after_name.take(i)), true),
            None => (Seq::empty(), false),
        },
    }
}

/// The name of the package that a line of the first level is about.
pub open spec fn branch_name(line: Seq<char>) -> Option<Seq<char>> {
    match branch_text(line) {
        None => None,
        Some(rest) => {
            let name = pieces(first_word(rest), '[')[0];
            if first_word(rest).len() == 0 || has_spec_char(name) {
                None
            } else {
                Some(name)
            }
        },
    }
}

/// Whether one of the chains is about a package.
pub open spec fn names_package(chains: Seq<ChainView>, name: Seq<char>) -> bool {
    exists|i: int| 0 <= i < chains.len() && (#[trigger] chains[i]).name == name
}

/// The chain of the package that line `at` is about.
pub open spec fn chain_at(all: Seq<Seq<char>>, at: int) -> ChainView {
    let rest = branch_text(all[at])->0;
    let after_name = trimmed_start(rest).skip(first_word(rest).len() as int);
    let below = descent(
        all,
        at + 1,
        DescentView { rejected: Seq::empty(), transitive: Seq::empty() },
    );
    ChainView {
        name: branch_name(all[at])->0,
        current_spec: stated_spec(after_name).0,
        rejected_versions: below.rejected,
        transitive_requirement: below.transitive,
        installable: stated_spec(after_name).1,
    }
}

/// The chains with those that the first `count` lines add.
pub open spec fn with_lines(out: Seq<ChainView>, all: Seq<Seq<char>>, count: int) -> Seq<ChainView>
    decreases count,
{
    if count <= 0 {
        out
    } else {
        let before = with_lines(out, all, count - 1);
        match branch_name(all[count - 1]) {
            Some(name) => if names_package(before, name) {
                before
            } else {
                before.push(chain_at(all, count - 1))
            },
            None => before,
        }
    }
}

/// The packages at the top of the explanations, each once.
pub open spec fn chains_of(texts: Seq<Seq<char>>) -> Seq<ChainView>
    decreases texts.len(),
{
    if texts.len() == 0 {
        Seq::empty()
    } else {
        let all = line_pieces(texts.last());
        with_lines(chains_of(texts.drop_last()), all, all.len() as int)
    }
}

/// The packages at the top of the explanations, by name.
pub open spec fn blocking_names(texts: Seq<Seq<char>>) -> Seq<Seq<char>> {
    chains_of(texts).map_values(|c: ChainView| c.name)
}

/// No package is named twice.
pub proof fn law_blocking_names_are_distinct(texts: Seq<Seq<char>>)
    ensures
        blocking_names(texts).no_duplicates(),
{
    lemma_chains_distinct(texts);
}

spec fn distinct_names(chains: Seq<ChainView>) -> bool {
    forall|i: int, j: int| 0 <= i < j < chains.len() ==> chains[i].name != chains[j].name
}

proof fn lemma_chains_distinct(texts: Seq<Seq<char>>)
    ensures
        distinct_names(chains_of(texts)),
    decreases texts.len(),
{
    if texts.len() > 0 {
        lemma_chains_distinct(texts.drop_last());
        let all = line_pieces(texts.last());
        lemma_lines_distinct(chains_of(texts.drop_last()), all, all.len() as int);
    }
}

proof fn lemma_lines_distinct(out: Seq<ChainView>, all: Seq<Seq<char>>, count: int)
    requires
        distinct_names(out),
    ensures
        distinct_names(with_lines(out, all, count)),
    decreases count,
{
    if count > 0 {
        lemma_lines_distinct(out, all, count - 1);
    }
}

proof fn lemma_trimmed_longer(s: Seq<char>, c: char)
    ensures
        trimmed_start(s.push(c)) == (if trimmed_start(s).len() > 0 || !is_space(c) {
            trimmed_start(s).push(c)
        } else {
            Seq::empty()
        }),
    decreases s.len(),
{
    if s.len() > 0 && is_space(s[0]) {
        assert(s.push(c).drop_first() =~= s.drop_first().push(c));
        lemma_trimmed_longer(s.drop_first(), c);
    } else if s.len() == 0 {
        assert(s.push(c).drop_first() =~= Seq::empty());
    }
}

proof fn lemma_words_lead(s: Seq<char>)
    ensures
        ({
            let (done, cur) = word_scan(s);
            let t = trimmed_start(s);
            if done.len() > 0 {
                done[0].len() <= t.len()
            } else {
                cur.len() == t.len()
            }
        }),
    decreases s.len(),
{
    if s.len() > 0 {
        let d = s.drop_last();
        lemma_words_lead(d);
        lemma_trimmed_longer(d, s.last());
        assert(d.push(s.last()) =~= s);
    }
}

fn branch(line: &str) -> (r: Option<String>)
    ensures
        r.deep_view() == branch_text(line@),
{
    match strip_prefix(line, "├─ ") {
        Some(rest) => Some(rest),
        None => strip_prefix(line, "└─ "),
    }
}

fn head_word(s: &str) -> (r: String)
    ensures
        r@ == first_word(s@),
{
    let w = split_whitespace(s);
    assert(w.deep_view().len() == w@.len());
    if w.len() > 0 {
        assert(w.deep_view()[0] == w@[0].deep_view());
        w[0].clone()
    } else {
        String::new()
    }
}

fn spec_char_in(s: &str) -> (r: bool)
    ensures
        r == has_spec_char(s@),
{
    let v = chars_of(s);
    let n: usize = v.len();
    let mut i: usize = 0;
    while i < n
        invariant
            i <= n,
            n == v@.len(),
            v@ == s@,
            forall|k: int| 0 <= k < i ==> !is_spec_char(#[trigger] v@[k]),
        decreases n - i,
    {
        let c: char = v[i];
        if c == '<' || c == '>' || c == '=' || c == ',' || c == '!' || c == '~' || c == '*' {
            assert(is_spec_char(s@[i as int]));
            return true;
        }
        i = i + 1;
    }
    false
}

fn goes_on(line: &str) -> (r: bool)
    ensures
        r == in_tree(line@),
{
    let v = chars_of(line);
    if v.len() == 0 {
        return true;
    }
    let c: char = v[0];
    c == '│' || c == ' ' || c == '\t'
}

fn strip_tree(line: &str) -> (r: String)
    ensures
        r@ == without_tree(line@),
{
    let v = chars_of(line);
    let n: usize = v.len();
    let mut i: usize = 0;
    assert(v@.subrange(0, n as int) =~= line@);
    while i < n && (v[i] == '│' || v[i] == '├' || v[i] == '└' || v[i] == '─' || v[i] == ' ' || v[i]
        == '\t')
        invariant
            i <= n,
            n == v@.len(),
            without_tree(line@) == without_tree(v@.subrange(i as int, n as int)),
        decreases n - i,
    {
        assert(v@.subrange(i as int, n as int).drop_first() =~= v@.subrange(i + 1, n as int));
        i = i + 1;
    }
    text_from(&v, i, n)
}

fn behind_space(s: &str) -> (r: Option<String>)
    ensures
        r.deep_view() == after_space(s@),
{
    let v = chars_of(s);
    let n: usize = v.len();
    let mut i: usize = 0;
    assert(v@.subrange(0, n as int) =~= s@);
    while i < n
        invariant
            i <= n,
            n == v@.len(),
            after_space(s@) == after_space(v@.subrange(i as int, n as int)),
        decreases n - i,
    {
        assert(v@.subrange(i as int, n as int).drop_first() =~= v@.subrange(i + 1, n as int));
        if space_char(v[i]) {
            return Some(text_from(&v, i + 1, n));
        }
        i = i + 1;
    }
    None
}

fn add_versions(seen: &mut Vec<String>, list: &str)
    ensures
        final(seen).deep_view() == with_versions(old(seen).deep_view(), pieces(list@, '|')),
{
    let parts = split(list, '|');
    let ghost all = parts.deep_view();
    let ghost before = seen.deep_view();
    let n: usize = parts.len();
    let mut i: usize = 0;
    assert(with_versions(before, all.take(0)) =~= before);
    while i < n
        invariant
            i <= n,
            n == parts@.len(),
            all == parts.deep_view(),
            seen.deep_view() == with_versions(before, all.take(i as int)),
        decreases n - i,
    {
        assert(all[i as int] == parts@[i as int].deep_view());
        assert(all.take(i + 1).drop_last() =~= all.take(i as int));
        let v = trim(&parts[i]);
        if !v.as_str().is_empty() && !holds_text(seen, &v) {
            push_view(seen, v);
        }
        i = i + 1;
    }
    assert(all.take(n as int) =~= all);
}

fn requirement_in(line: &str) -> (r: String)
    ensures
        r@ == stated_requirement(line@),
{
    let s = strip_tree(line);
    match find_from(&s, ", which", 0) {
        Some(i) => trim(&take_chars(&s, i)),
        None => match find_from(&s, ", for which", 0) {
            Some(i) => trim(&take_chars(&s, i)),
            None => {
                assert(s@.take(s@.len() as int) =~= s@);
                trim(&s)
            },
        },
    }
}

fn reads_as_requirement(s: &str) -> (r: bool)
    ensures
        r == is_requirement(s@),
{
    if contains(s, " | ") {
        return false;
    }
    let v = chars_of(s);
    if v.len() == 0 {
        return false;
    }
    let c: char = v[0];
    ('a' <= c && c <= 'z') || ('A' <= c && c <= 'Z') || c == '_'
}

fn spec_of_line(after_name: &str) -> (r: (String, bool))
    ensures
        (r.0@, r.1) == stated_spec(after_name@),
{
    match find_from(after_name, " cannot be installed", 0) {
        Some(i) => (trim(&take_chars(after_name, i)), false),
        None => match find_from(after_name, " can be installed", 0) {
            Some(i) => (trim(&take_chars(after_name, i)), true),
            None => (String::new(), false),
        },
    }
}

fn name_of_branch(line: &str) -> (r: Option<String>)
    ensures
        r.deep_view() == branch_name(line@),
{
    let rest = match branch(line) {
        Some(r) => r,
        None => {
            return None;
        },
    };
    let token = head_word(&rest);
    let parts = split(&token, '[');
    assert(parts.deep_view()[0] == parts@[0].deep_view());
    if token.as_str().is_empty() || spec_char_in(&parts[0]) {
        return None;
    }
    Some(parts[0].clone())
}

fn chain_from(all: &Vec<String>, at: usize, name: String) -> (r: BlockingChain)
    requires
        at < all@.len(),
        branch_name(all.deep_view()[at as int]) == Some(name@),
    ensures
        r.deep_view() == chain_at(all.deep_view(), at as int),
{
    let ghost s = all.deep_view();
    assert(s[at as int] == all@[at as int].deep_view());
    let rest = match branch(&all[at]) {
        Some(r) => r,
        None => String::new(),
    };
    let token = head_word(&rest);
    let skipped: usize = chars_of(&token).len();
    proof {
        lemma_words_lead(rest@);
    }
    let after_name = skip_chars(&trim_start(&rest), skipped);
    let (current_spec, installable) = spec_of_line(&after_name);
    let mut rejected_versions: Vec<String> = Vec::new();
    let mut transitive_requirement: String = String::new();
    let n: usize = all.len();
    let mut i: usize = at + 1;
    let ghost start = DescentView { rejected: Seq::empty(), transitive: Seq::empty() };
    let ghost mut st = start;
    assert(rejected_versions.deep_view() =~= start.rejected);
    assert(transitive_requirement@ =~= start.transitive);
    let mut more: bool = true;
    while more && i < n
        invariant
            at < i <= n,
            n == all@.len(),
            s == all.deep_view(),
            st.rejected == rejected_versions.deep_view(),
            st.transitive == transitive_requirement@,
            more ==> descent(s, at + 1, start) == descent(s, i as int, st),
            !more ==> descent(s, at + 1, start) == st,
        decreases n - i, more as int,
    {
        assert(s[i as int] == all@[i as int].deep_view());
        let line = &all[i];
        if !goes_on(line) {
            more = false;
        } else {
            let ghost next = with_line(st, line@);
            match find_from(line, " would require", 0) {
                Some(k) => match behind_space(&strip_tree(&take_chars(line, k))) {
                    Some(list) => {
                        add_versions(&mut rejected_versions, &list);
                    },
                    None => {},
                },
                None => {
                    if transitive_requirement.as_str().is_empty() {
                        let candidate = requirement_in(line);
                        if reads_as_requirement(&candidate) {
                            transitive_requirement = candidate;
                        }
                    }
                },
            }
            proof {
                st = next;
            }
            i = i + 1;
        }
    }
    BlockingChain {
        name,
        current_spec,
        rejected_versions,
        transitive_requirement,
        installable,
    }
}

fn is_named(chains: &Vec<BlockingChain>, name: &str) -> (r: bool)
    ensures
        r == names_package(chains.deep_view(), name@),
{
    let ghost all = chains.deep_view();
    let n: usize = chains.len();
    let mut i: usize = 0;
    while i < n
        invariant
            i <= n,
            n == chains@.len(),
            all == chains.deep_view(),
            forall|k: int| 0 <= k < i ==> (#[trigger] all[k]).name != name@,
        decreases n - i,
    {
        assert(all[i as int] == chains@[i as int].deep_view());
        if text_eq(&chains[i].name, name) {
            return true;
        }
        i = i + 1;
    }
    false
}

/// The packages at the top of the solver's explanations, each once, with what the
/// lines below them say.
pub fn extract_blocking_chains(unsat_strs: &Vec<String>) -> (r: Vec<BlockingChain>)
    ensures
        r.deep_view() == chains_of(unsat_strs.deep_view()),
{
    let ghost texts = unsat_strs.deep_view();
    let mut out: Vec<BlockingChain> = Vec::new();
    let n: usize = unsat_strs.len();
    let mut i: usize = 0;
    assert(out.deep_view() =~= chains_of(texts.take(0)));
    while i < n
        invariant
            i <= n,
            n == unsat_strs@.len(),
            texts == unsat_strs.deep_view(),
            out.deep_view() == chains_of(texts.take(i as int)),
        decreases n - i,
    {
        assert(texts[i as int] == unsat_strs@[i as int].deep_view());
        assert(texts.take(i + 1).drop_last() =~= texts.take(i as int));
        let all = lines(&unsat_strs[i]);
        let ghost s = all.deep_view();
        let ghost before = out.deep_view();
        let m: usize = all.len();
        let mut k: usize = 0;
        while k < m
            invariant
                k <= m,
                m == all@.len(),
                s == all.deep_view(),
                out.deep_view() == with_lines(before, s, k as int),
            decreases m - k,
        {
            assert(s[k as int] == all@[k as int].deep_view());
            match name_of_branch(&all[k]) {
                Some(name) => {
                    if !is_named(&out, &name) {
                        push_view(&mut out, chain_from(&all, k, name));
                    }
                },
                None => {},
            }
            k = k + 1;
        }
        i = i + 1;
    }
    assert(texts.take(n as int) =~= texts);
    out
}

/// The packages at the top of the solver's explanations, by name.
pub fn extract_blocking_dep_names(unsat_strs: &Vec<String>) -> (r: Vec<String>)
    ensures
        r.deep_view() == blocking_names(unsat_strs.deep_view()),
{
    let chains = extract_blocking_chains(unsat_strs);
    let ghost all = chains.deep_view();
    let ghost f = |c: ChainView| c.name;
    let mut out: Vec<String> = Vec::new();
    let n: usize = chains.len();
    let mut i: usize = 0;
    assert(out.deep_view() =~= all.take(0).map_values(f));
    while i < n
        invariant
            i <= n,
            n == chains@.len(),
            all == chains.deep_view(),
            f == (|c: ChainView| c.name),
            out.deep_view() == all.take(i as int).map_values(f),
        decreases n - i,
    {
        assert(all[i as int] == chains@[i as int].deep_view());
        push_view(&mut out, chains[i].name.clone());
        assert(out.deep_view() =~= all.take(i + 1).map_values(f));
        i = i + 1;
    }
    assert(all.take(n as int) =~= all);
    out
}

// ---------------------------------------------------------------------------
// What chains say
// ---------------------------------------------------------------------------

proof fn lemma_first_at(s: Seq<char>, part: Seq<char>, from: int)
    requires
        0 <= from,
    ensures
        match first_at(s, part, from) {
            Some(i) => from <= i && occurs_at(s, part, i) && forall|k: int|
                from <= k < i ==> !occurs_at(s, part, k),
            None => forall|k: int| from <= k ==> !occurs_at(s, part, k),
        },
    decreases s.len() + 1 - from,
{
    if from <= s.len() {
        lemma_first_at(s, part, from + 1);
    }
}

proof fn lemma_first_is(s: Seq<char>, part: Seq<char>, at: int)
    requires
        occurs_at(s, part, at),
        forall|k: int| 0 <= k < at ==> !occurs_at(s, part, k),
    ensures
        first_at(s, part, 0) == Some(at),
{
    lemma_first_at(s, part, 0);
}

proof fn lemma_never(s: Seq<char>, part: Seq<char>)
    requires
        forall|k: int| !occurs_at(s, part, k),
    ensures
        first_at(s, part, 0) is None,
{
    lemma_first_at(s, part, 0);
}

proof fn lemma_tree_goes(tree: Seq<char>, s: Seq<char>)
    requires
        forall|k: int| 0 <= k < tree.len() ==> is_tree_char(#[trigger] tree[k]),
        s.len() == 0 || !is_tree_char(s[0]),
    ensures
        without_tree(tree + s) == s,
    decreases tree.len(),
{
    if tree.len() > 0 {
        assert((tree + s).drop_first() =~= tree.drop_first() + s);
        assert forall|k: int| 0 <= k < tree.drop_first().len() implies is_tree_char(
            #[trigger] tree.drop_first()[k],
        ) by {
            assert(tree.drop_first()[k] == tree[k + 1]);
        }
        lemma_tree_goes(tree.drop_first(), s);
    } else {
        assert(tree + s =~= s);
    }
}

/// Whether a line is drawn below the first level of a tree: it begins with white space or
/// with a line of the tree.
pub open spec fn is_below(line: Seq<char>) -> bool {
    line.len() > 0 && (line[0] == '│' || line[0] == ' ' || line[0] == '\t')
}

/// Whether a text has this somewhere.
pub open spec fn has_text(s: Seq<char>, part: Seq<char>) -> bool {
    exists|i: int| occurs_at(s, part, i)
}

/// Whether a text could be a requirement: it begins with a letter or an underscore, ends
/// in no white space, and lists no versions.
pub open spec fn could_be_required(s: Seq<char>) -> bool {
    &&& s.len() > 0
    &&& 'a' <= s[0] <= 'z' || 'A' <= s[0] <= 'Z' || s[0] == '_'
    &&& !is_space(s.last())
    &&& !has_text(s, " | "@)
}

/// Whether a line states a requirement below a tree: behind the tree it reads up to what
/// is said of it, `, which` or else `, for which`, or it reads so to its end.
pub open spec fn states_requirement(line: Seq<char>, requirement: Seq<char>) -> bool {
    &&& is_below(line)
    &&& !has_text(line, " would require"@)
    &&& could_be_required(requirement)
    &&& exists|tree: Seq<char>, rest: Seq<char>|
        {
            let s = requirement + rest;
            &&& line == #[trigger] (tree + (requirement + rest))
            &&& forall|k: int|
                0 <= k < tree.len() ==> ({
                    ||| #[trigger] tree[k] == '│'
                    ||| tree[k] == '├'
                    ||| tree[k] == '└'
                    ||| tree[k] == '─'
                    ||| tree[k] == ' '
                    ||| tree[k] == '\t'
                })
            &&& {
                ||| ", which"@.is_prefix_of(rest) && forall|k: int|
                    0 <= k < requirement.len() ==> !occurs_at(s, ", which"@, k)
                ||| ", for which"@.is_prefix_of(rest) && !has_text(s, ", which"@) && forall|k: int|
                    0 <= k < requirement.len() ==> !occurs_at(s, ", for which"@, k)
                ||| rest.len() == 0 && !has_text(s, ", which"@) && !has_text(s, ", for which"@)
            }
        }
}

proof fn lemma_trimmed_is(s: Seq<char>)
    requires
        s.len() > 0,
        !is_space(s[0]),
        !is_space(s.last()),
    ensures
        trimmed(s) == s,
{
}

proof fn lemma_stated(line: Seq<char>, requirement: Seq<char>)
    requires
        states_requirement(line, requirement),
    ensures
        in_tree(line),
        first_at(line, " would require"@, 0) is None,
        stated_requirement(line) == requirement,
        is_requirement(requirement),
{
    lemma_never(line, " would require"@);
    let (tree, rest) = choose|tree: Seq<char>, rest: Seq<char>|
        {
            let s = requirement + rest;
            &&& line == #[trigger] (tree + (requirement + rest))
            &&& forall|k: int|
                0 <= k < tree.len() ==> ({
                    ||| #[trigger] tree[k] == '│'
                    ||| tree[k] == '├'
                    ||| tree[k] == '└'
                    ||| tree[k] == '─'
                    ||| tree[k] == ' '
                    ||| tree[k] == '\t'
                })
            &&& {
                ||| ", which"@.is_prefix_of(rest) && forall|k: int|
                    0 <= k < requirement.len() ==> !occurs_at(s, ", which"@, k)
                ||| ", for which"@.is_prefix_of(rest) && !has_text(s, ", which"@) && forall|k: int|
                    0 <= k < requirement.len() ==> !occurs_at(s, ", for which"@, k)
                ||| rest.len() == 0 && !has_text(s, ", which"@) && !has_text(s, ", for which"@)
            }
        };
    let s = requirement + rest;
    assert(s[0] == requirement[0]);
    lemma_tree_goes(tree, s);
    lemma_trimmed_is(requirement);
    let n = requirement.len() as int;
    assert(s.take(n) =~= requirement);
    if ", which"@.is_prefix_of(rest) && forall|k: int|
        0 <= k < requirement.len() ==> !occurs_at(s, ", which"@, k) {
        let cut = ", which"@;
        assert(s.subrange(n, n + cut.len()) =~= rest.subrange(0, cut.len() as int));
        lemma_first_is(s, cut, n);
    } else if ", for which"@.is_prefix_of(rest) && !has_text(s, ", which"@) && forall|k: int|
        0 <= k < requirement.len() ==> !occurs_at(s, ", for which"@, k) {
        let cut = ", for which"@;
        lemma_never(s, ", which"@);
        assert(s.subrange(n, n + cut.len()) =~= rest.subrange(0, cut.len() as int));
        lemma_first_is(s, cut, n);
    } else {
        lemma_never(s, ", which"@);
        lemma_never(s, ", for which"@);
        assert(s =~= requirement);
    }
}

/// Whether a line tells what versions of a package would require.
pub open spec fn tells_versions(line: Seq<char>) -> bool {
    is_below(line) && has_text(line, " would require"@)
}

proof fn lemma_versions_pass(all: Seq<Seq<char>>, from: int, end: int, st: DescentView)
    requires
        0 <= from <= end <= all.len(),
        forall|k: int| from <= k < end ==> tells_versions(#[trigger] all[k]),
    ensures
        ({
            exists|after: DescentView|
                after.transitive == st.transitive && #[trigger] descent(all, end, after) == descent(
                    all,
                    from,
                    st,
                )
        }),
    decreases end - from,
{
    if from < end {
        lemma_first_at(all[from], " would require"@, 0);
        let next = with_line(st, all[from]);
        lemma_versions_pass(all, from + 1, end, next);
    } else {
        assert(descent(all, end, st) == descent(all, from, st));
    }
}

proof fn lemma_transitive_stays(all: Seq<Seq<char>>, from: int, st: DescentView)
    requires
        st.transitive.len() > 0,
    ensures
        descent(all, from, st).transitive == st.transitive,
    decreases all.len() - from,
{
    if 0 <= from < all.len() && in_tree(all[from]) {
        lemma_transitive_stays(all, from + 1, with_line(st, all[from]));
    }
}

/// The requirement of a chain is the first that a line below its package states, behind
/// lines that tell what versions would require: all of it up to what is said of it.
pub proof fn law_first_requirement_is_named(
    all: Seq<Seq<char>>,
    at: int,
    line: int,
    requirement: Seq<char>,
)
    requires
        0 <= at < line < all.len(),
        forall|k: int| at < k < line ==> tells_versions(#[trigger] all[k]),
        states_requirement(all[line], requirement),
    ensures
        chain_at(all, at).transitive_requirement == requirement,
{
    let start = DescentView { rejected: Seq::empty(), transitive: Seq::empty() };
    lemma_versions_pass(all, at + 1, line, start);
    let st = choose|after: DescentView|
        after.transitive == start.transitive && #[trigger] descent(all, line, after) == descent(
            all,
            at + 1,
            start,
        );
    lemma_stated(all[line], requirement);
    let next = with_line(st, all[line]);
    assert(next.transitive == requirement);
    lemma_transitive_stays(all, line + 1, next);
}

/// Whether a list with bars has an item, but for white space around it.
pub open spec fn listed(list: Seq<char>, item: Seq<char>) -> bool {
    exists|j: int|
        0 <= j < pieces(list, '|').len() && trimmed(#[trigger] pieces(list, '|')[j]) == item
}

/// Whether a line goes on below the first level of a tree, or is empty.
pub open spec fn stays_below(line: Seq<char>) -> bool {
    line.len() == 0 || is_below(line)
}

proof fn lemma_versions_stay(all: Seq<Seq<char>>, from: int, st: DescentView, v: Seq<char>)
    requires
        st.rejected.contains(v),
    ensures
        descent(all, from, st).rejected.contains(v),
    decreases all.len() - from,
{
    if 0 <= from < all.len() && in_tree(all[from]) {
        lemma_with_line_keeps(st, all[from], v);
        lemma_versions_stay(all, from + 1, with_line(st, all[from]), v);
    }
}

proof fn lemma_with_line_keeps(st: DescentView, line: Seq<char>, v: Seq<char>)
    requires
        st.rejected.contains(v),
    ensures
        with_line(st, line).rejected.contains(v),
{
    match first_at(line, " would require"@, 0) {
        Some(i) => match after_space(without_tree(line.take(i))) {
            Some(list) => {
                lemma_with_versions(st.rejected, pieces(list, '|'), v);
            },
            None => {},
        },
        None => {},
    }
}

proof fn lemma_with_versions(seen: Seq<Seq<char>>, parts: Seq<Seq<char>>, v: Seq<char>)
    ensures
        with_versions(seen, parts).contains(v) <==> seen.contains(v) || v.len() > 0 && exists|j: int|
            0 <= j < parts.len() && trimmed(#[trigger] parts[j]) == v,
        seen.no_duplicates() ==> with_versions(seen, parts).no_duplicates(),
    decreases parts.len(),
{
    if parts.len() > 0 {
        let rest = parts.drop_last();
        lemma_with_versions(seen, rest, v);
        let before = with_versions(seen, rest);
        let last = trimmed(parts.last());
        let after = with_versions(seen, parts);
        assert(parts[parts.len() - 1] == parts.last());
        if exists|j: int| 0 <= j < parts.len() && trimmed(#[trigger] parts[j]) == v {
            let j = choose|j: int| 0 <= j < parts.len() && trimmed(#[trigger] parts[j]) == v;
            if j < rest.len() {
                assert(trimmed(rest[j]) == v);
            }
        }
        if exists|j: int| 0 <= j < rest.len() && trimmed(#[trigger] rest[j]) == v {
            let j = choose|j: int| 0 <= j < rest.len() && trimmed(#[trigger] rest[j]) == v;
            assert(trimmed(parts[j]) == v);
        }
        if after != before {
            assert(after == before.push(last));
            if before.contains(v) {
                let k = choose|k: int| 0 <= k < before.len() && before[k] == v;
                assert(after[k] == v);
            }
            if after.contains(v) && !before.contains(v) {
                let k = choose|k: int| 0 <= k < after.len() && after[k] == v;
                if k < before.len() {
                    assert(before[k] == v);
                }
            }
            if v == last {
                assert(after[before.len() as int] == v);
            }
        }
    }
}

proof fn lemma_after_space(name: Seq<char>, sep: char, list: Seq<char>)
    requires
        forall|k: int| 0 <= k < name.len() ==> !is_space(#[trigger] name[k]),
        is_space(sep),
    ensures
        after_space(name + seq![sep] + list) == Some(list),
    decreases name.len(),
{
    let s = name + seq![sep] + list;
    if name.len() > 0 {
        let rest = name.drop_first();
        assert forall|k: int| 0 <= k < rest.len() implies !is_space(#[trigger] rest[k]) by {
            assert(rest[k] == name[k + 1]);
        }
        lemma_after_space(rest, sep, list);
        assert(s.drop_first() =~= rest + seq![sep] + list);
        assert(s[0] == name[0]);
    } else {
        assert(s[0] == sep);
        assert(s.drop_first() =~= list);
    }
}

proof fn lemma_reaches(all: Seq<Seq<char>>, from: int, end: int, st: DescentView)
    requires
        0 <= from <= end <= all.len(),
        forall|k: int| from <= k < end ==> stays_below(#[trigger] all[k]),
    ensures
        exists|after: DescentView| #[trigger]
            descent(all, end, after) == descent(all, from, st),
    decreases end - from,
{
    if from < end {
        lemma_reaches(all, from + 1, end, with_line(st, all[from]));
    } else {
        assert(descent(all, end, st) == descent(all, from, st));
    }
}

/// Every version that a line below a package lists is one of its rejected versions: where
/// the line has behind the tree a name, behind white space versions with bars between
/// them, and then ` would require`.
pub proof fn law_listed_versions_are_rejected(
    all: Seq<Seq<char>>,
    at: int,
    line: int,
    tree: Seq<char>,
    name: Seq<char>,
    sep: char,
    list: Seq<char>,
    rest: Seq<char>,
    version: Seq<char>,
)
    requires
        0 <= at < line < all.len(),
        forall|k: int| at < k <= line ==> stays_below(#[trigger] all[k]),
        all[line] == tree + (name + seq![sep] + list) + " would require"@ + rest,
        forall|k: int|
            0 <= k < tree.len() ==> ({
                ||| #[trigger] tree[k] == '│'
                ||| tree[k] == '├'
                ||| tree[k] == '└'
                ||| tree[k] == '─'
                ||| tree[k] == ' '
                ||| tree[k] == '\t'
            }),
        name.len() > 0,
        'a' <= name[0] <= 'z' || 'A' <= name[0] <= 'Z' || name[0] == '_',
        forall|k: int| 0 <= k < name.len() ==> !is_space(#[trigger] name[k]),
        is_space(sep),
        forall|k: int|
            0 <= k < (tree + (name + seq![sep] + list)).len() ==> !occurs_at(
                all[line],
                " would require"@,
                k,
            ),
        listed(list, version),
        version.len() > 0,
    ensures
        chain_at(all, at).rejected_versions.contains(version),
{
    let start = DescentView { rejected: Seq::empty(), transitive: Seq::empty() };
    lemma_reaches(all, at + 1, line, start);
    let st = choose|after: DescentView| #[trigger]
        descent(all, line, after) == descent(all, at + 1, start);
    let head = tree + (name + seq![sep] + list);
    let n = head.len() as int;
    let cut = " would require"@;
    assert(all[line].subrange(n, n + cut.len()) =~= cut);
    lemma_first_is(all[line], cut, n);
    assert(all[line].take(n) =~= head);
    assert((name + seq![sep] + list)[0] == name[0]);
    lemma_tree_goes(tree, name + seq![sep] + list);
    lemma_after_space(name, sep, list);
    let next = with_line(st, all[line]);
    lemma_with_versions(st.rejected, pieces(list, '|'), version);
    assert(next.rejected.contains(version));
    lemma_versions_stay(all, line + 1, next, version);
}

proof fn lemma_part_of_longer(s: Seq<char>, c: char, part: Seq<char>)
    requires
        has_text(s, part),
    ensures
        has_text(s.push(c), part),
{
    let i = choose|i: int| occurs_at(s, part, i);
    assert(s.push(c).subrange(i, i + part.len()) =~= s.subrange(i, i + part.len()));
    assert(occurs_at(s.push(c), part, i));
}

proof fn lemma_pieces_are_parts(s: Seq<char>, c: char, j: int)
    requires
        0 <= j < pieces(s, c).len(),
    ensures
        has_text(s, pieces(s, c)[j]),
        pieces(s, c).last().is_suffix_of(s),
    decreases s.len(),
{
    let p = pieces(s, c);
    if s.len() == 0 {
        assert(p[0].len() == 0);
        assert(s.subrange(0, 0) =~= p[0]);
        assert(occurs_at(s, p[0], 0));
        assert(s.subrange(0, 0) =~= p.last());
    } else {
        let d = s.drop_last();
        let before = pieces(d, c);
        lemma_pieces_nonempty(d, c);
        assert(d.push(s.last()) =~= s);
        lemma_pieces_are_parts(d, c, before.len() - 1);
        assert(p.last().is_suffix_of(s)) by {
            let n = s.len() as int;
            if s.last() == c {
                assert(s.subrange(n, n) =~= p.last());
            } else {
                let l = before.last();
                assert(d.subrange(d.len() - l.len(), d.len() as int) == l);
                assert(p.last() == l.push(s.last()));
                assert(s.subrange(n - p.last().len(), n) =~= p.last());
            }
        }
        if j == p.len() - 1 {
            let n = s.len() as int;
            assert(s.subrange(n - p.last().len(), n) == p.last());
            assert(occurs_at(s, p[j], n - p[j].len()));
        } else {
            assert(p[j] == before[j]);
            lemma_pieces_are_parts(d, c, j);
            lemma_part_of_longer(d, s.last(), p[j]);
        }
    }
}

proof fn lemma_part_of_part(s: Seq<char>, t: Seq<char>, u: Seq<char>)
    requires
        has_text(s, t),
        has_text(t, u),
    ensures
        has_text(s, u),
{
    let i = choose|i: int| occurs_at(s, t, i);
    let k = choose|k: int| occurs_at(t, u, k);
    assert(s.subrange(i, i + t.len()).subrange(k, k + u.len()) =~= s.subrange(i + k, i + k + u.len()));
    assert(occurs_at(s, u, i + k));
}

proof fn lemma_trimmed_is_part(s: Seq<char>)
    ensures
        has_text(s, trimmed(s)),
{
    lemma_start_is_part(s);
    lemma_end_is_part(trimmed_start(s));
    lemma_part_of_part(s, trimmed_start(s), trimmed(s));
}

proof fn lemma_whole_is_part(s: Seq<char>)
    ensures
        has_text(s, s),
{
    assert(s.subrange(0, s.len() as int) =~= s);
    assert(occurs_at(s, s, 0));
}

proof fn lemma_start_is_part(s: Seq<char>)
    ensures
        has_text(s, trimmed_start(s)),
    decreases s.len(),
{
    lemma_whole_is_part(s);
    if s.len() > 0 && is_space(s[0]) {
        let rest = s.drop_first();
        lemma_start_is_part(rest);
        assert(s.subrange(1, s.len() as int) =~= rest);
        assert(occurs_at(s, rest, 1));
        lemma_part_of_part(s, rest, trimmed_start(rest));
    }
}

proof fn lemma_end_is_part(s: Seq<char>)
    ensures
        has_text(s, trimmed_end(s)),
    decreases s.len(),
{
    lemma_whole_is_part(s);
    if s.len() > 0 && is_space(s.last()) {
        let rest = s.drop_last();
        lemma_end_is_part(rest);
        assert(s.subrange(0, rest.len() as int) =~= rest);
        assert(occurs_at(s, rest, 0));
        lemma_part_of_part(s, rest, trimmed_end(rest));
    }
}

proof fn lemma_tree_is_part(s: Seq<char>)
    ensures
        has_text(s, without_tree(s)),
    decreases s.len(),
{
    lemma_whole_is_part(s);
    if s.len() > 0 && is_tree_char(s[0]) {
        let rest = s.drop_first();
        lemma_tree_is_part(rest);
        assert(s.subrange(1, s.len() as int) =~= rest);
        assert(occurs_at(s, rest, 1));
        lemma_part_of_part(s, rest, without_tree(rest));
    }
}

proof fn lemma_after_space_is_part(s: Seq<char>)
    ensures
        after_space(s) matches Some(list) ==> has_text(s, list),
    decreases s.len(),
{
    if s.len() > 0 {
        let rest = s.drop_first();
        assert(s.subrange(1, s.len() as int) =~= rest);
        assert(occurs_at(s, rest, 1));
        if !is_space(s[0]) {
            lemma_after_space_is_part(rest);
            match after_space(rest) {
                Some(list) => {
                    lemma_part_of_part(s, rest, list);
                },
                None => {},
            }
        }
    }
}

proof fn lemma_new_version_is_listed(st: DescentView, line: Seq<char>, v: Seq<char>)
    requires
        with_line(st, line).rejected.contains(v),
        !st.rejected.contains(v),
    ensures
        v.len() > 0,
        has_text(line, " would require"@),
        has_text(line, v),
{
    lemma_first_at(line, " would require"@, 0);
    let i = first_at(line, " would require"@, 0)->0;
    let head = line.take(i);
    let s = without_tree(head);
    let list = after_space(s)->0;
    lemma_with_versions(st.rejected, pieces(list, '|'), v);
    let j = choose|j: int|
        0 <= j < pieces(list, '|').len() && trimmed(#[trigger] pieces(list, '|')[j]) == v;
    let piece = pieces(list, '|')[j];
    lemma_pieces_are_parts(list, '|', j);
    lemma_trimmed_is_part(piece);
    lemma_part_of_part(list, piece, v);
    lemma_after_space_is_part(s);
    lemma_part_of_part(s, list, v);
    lemma_tree_is_part(head);
    lemma_part_of_part(head, s, v);
    assert(line.subrange(0, i) =~= head);
    assert(occurs_at(line, head, 0));
    lemma_part_of_part(line, head, v);
}

proof fn lemma_descent_lists(
    all: Seq<Seq<char>>,
    at: int,
    from: int,
    st: DescentView,
    v: Seq<char>,
)
    requires
        0 <= at < from,
        forall|k: int| at < k < from ==> stays_below(#[trigger] all[k]),
        descent(all, from, st).rejected.contains(v),
        !st.rejected.contains(v),
    ensures
        v.len() > 0,
        exists|line: int|
            at < line < all.len() && tells_versions(#[trigger] all[line]) && has_text(all[line], v)
                && forall|k: int| at < k < line ==> stays_below(#[trigger] all[k]),
    decreases all.len() - from,
{
    if from < all.len() && in_tree(all[from]) {
        let next = with_line(st, all[from]);
        if next.rejected.contains(v) {
            lemma_new_version_is_listed(st, all[from], v);
            if all[from].len() == 0 {
                let i = choose|i: int| occurs_at(all[from], v, i);
            }
            assert(tells_versions(all[from]));
        } else {
            assert(stays_below(all[from]));
            lemma_descent_lists(all, at, from + 1, next, v);
        }
    }
}

proof fn lemma_descent_distinct(all: Seq<Seq<char>>, from: int, st: DescentView)
    requires
        st.rejected.no_duplicates(),
    ensures
        descent(all, from, st).rejected.no_duplicates(),
    decreases all.len() - from,
{
    if 0 <= from < all.len() && in_tree(all[from]) {
        let next = with_line(st, all[from]);
        match first_at(all[from], " would require"@, 0) {
            Some(i) => match after_space(without_tree(all[from].take(i))) {
                Some(list) => {
                    lemma_with_versions(st.rejected, pieces(list, '|'), Seq::empty());
                },
                None => {},
            },
            None => {},
        }
        lemma_descent_distinct(all, from + 1, next);
    }
}

/// The rejected versions of a package are named each once, none is blank, and each
/// stands in a line below the package that tells what versions would require.
pub proof fn law_rejected_versions_are_told(all: Seq<Seq<char>>, at: int)
    requires
        0 <= at < all.len(),
    ensures
        chain_at(all, at).rejected_versions.no_duplicates(),
        forall|v: Seq<char>| #[trigger]
            chain_at(all, at).rejected_versions.contains(v) ==> v.len() > 0 && exists|line: int|
                at < line < all.len() && tells_versions(#[trigger] all[line]) && has_text(
                    all[line],
                    v,
                ) && forall|k: int| at < k < line ==> stays_below(#[trigger] all[k]),
{
    let start = DescentView { rejected: Seq::empty(), transitive: Seq::empty() };
    lemma_descent_distinct(all, at + 1, start);
    assert forall|v: Seq<char>| #[trigger]
        chain_at(all, at).rejected_versions.contains(v) implies v.len() > 0 && exists|line: int|
        at < line < all.len() && tells_versions(#[trigger] all[line]) && has_text(all[line], v)
            && forall|k: int| at < k < line ==> stays_below(#[trigger] all[k]) by {
        lemma_descent_lists(all, at, at + 1, start, v);
    }
}

proof fn lemma_scan_of_word(token: Seq<char>)
    requires
        forall|k: int| 0 <= k < token.len() ==> !is_space(#[trigger] token[k]),
    ensures
        word_scan(token) == (Seq::<Seq<char>>::empty(), token),
    decreases token.len(),
{
    if token.len() > 0 {
        lemma_scan_of_word(token.drop_last());
        assert(token.drop_last().push(token.last()) =~= token);
    } else {
        assert(token =~= Seq::empty());
    }
}

proof fn lemma_first_word(token: Seq<char>, after: Seq<char>)
    requires
        token.len() > 0,
        forall|k: int| 0 <= k < token.len() ==> !is_space(#[trigger] token[k]),
        after.len() > 0 ==> is_space(after[0]),
    ensures
        ({
            let (done, cur) = word_scan(token + after);
            if after.len() == 0 {
                (done, cur) == (Seq::<Seq<char>>::empty(), token)
            } else {
                done.len() > 0 && done[0] == token
            }
        }),
        first_word(token + after) == token,
    decreases after.len(),
{
    let s = token + after;
    if after.len() == 0 {
        lemma_scan_of_word(token);
        assert(s =~= token);
    } else {
        let rest = after.drop_last();
        lemma_first_word(token, rest);
        assert(s.drop_last() =~= token + rest);
        assert(s.last() == after.last());
    }
}

proof fn lemma_first_piece(name: Seq<char>, c: char, more: Seq<char>)
    requires
        forall|k: int| 0 <= k < name.len() ==> #[trigger] name[k] != c,
        more.len() == 0 || more[0] == c,
    ensures
        pieces(name + more, c)[0] == name,
        more.len() == 0 ==> pieces(name + more, c).len() == 1,
        more.len() > 0 ==> pieces(name + more, c).len() > 1,
    decreases name.len() + more.len(),
{
    let s = name + more;
    if more.len() > 0 {
        let rest = more.drop_last();
        lemma_first_piece(name, c, rest);
        assert(s.drop_last() =~= name + rest);
        assert(s.last() == more.last());
    } else if name.len() > 0 {
        let rest = name.drop_last();
        lemma_first_piece(rest, c, more);
        assert(rest + more =~= rest);
        assert(s =~= name);
        assert(s.drop_last() =~= rest);
        assert(rest.push(name.last()) =~= name);
    } else {
        assert(s =~= Seq::empty());
    }
}

/// Whether a line at the first level of a tree is about a package: behind the branch
/// stands its name, with what is in brackets behind it, and then `after`.
pub open spec fn is_about(line: Seq<char>, name: Seq<char>, extras: Seq<char>, after: Seq<char>) -> bool {
    &&& line == "├─ "@ + (name + extras + after) || line == "└─ "@ + (name + extras + after)
    &&& name.len() > 0
    &&& forall|k: int|
        0 <= k < name.len() ==> !is_space(#[trigger] name[k]) && name[k] != '[' && !(name[k] == '<'
            || name[k] == '>' || name[k] == '=' || name[k] == ',' || name[k] == '!' || name[k]
            == '~' || name[k] == '*')
    &&& extras.len() == 0 || extras[0] == '['
    &&& forall|k: int| 0 <= k < extras.len() ==> !is_space(#[trigger] extras[k])
    &&& after.len() > 0 ==> is_space(after[0])
}

proof fn lemma_about(line: Seq<char>, name: Seq<char>, extras: Seq<char>, after: Seq<char>)
    requires
        is_about(line, name, extras, after),
    ensures
        branch_text(line) == Some(name + extras + after),
        first_word(name + extras + after) == name + extras,
        branch_name(line) == Some(name),
        trimmed_start(name + extras + after).skip((name + extras).len() as int) == after,
{
    let rest = name + extras + after;
    let token = name + extras;
    reveal_strlit("├─ ");
    reveal_strlit("└─ ");
    assert("├─ "@[0] == '├');
    assert("└─ "@[0] == '└');
    if line == "├─ "@ + rest {
        assert(line.subrange(0, 3) =~= "├─ "@);
        assert(line.skip(3) =~= rest);
    } else {
        assert(line.subrange(0, 3) =~= "└─ "@);
        assert(line.skip(3) =~= rest);
        assert(line[0] == '└');
        if "├─ "@.is_prefix_of(line) {
            assert(line.subrange(0, 3)[0] == '├');
        }
    }
    assert forall|k: int| 0 <= k < token.len() implies !is_space(#[trigger] token[k]) by {
        if k < name.len() {
            assert(token[k] == name[k]);
        } else {
            assert(token[k] == extras[k - name.len()]);
        }
    }
    lemma_first_word(token, after);
    lemma_first_piece(name, '[', extras);
    assert(!has_spec_char(name));
    assert(rest[0] == name[0]);
    assert(rest.skip(token.len() as int) =~= after);
}

/// A chain is about the package that its line names, and its spec is what stands between
/// the name and what is said of it: that it cannot be installed, or that it can.
#[verifier::rlimit(50)]
pub proof fn law_chain_says_what_its_line_says(
    all: Seq<Seq<char>>,
    at: int,
    name: Seq<char>,
    extras: Seq<char>,
    spec: Seq<char>,
    rest: Seq<char>,
)
    requires
        0 <= at < all.len(),
    ensures
        ({
            let after = spec + " cannot be installed"@ + rest;
            is_about(all[at], name, extras, after) && (forall|k: int|
                0 <= k < spec.len() ==> !occurs_at(after, " cannot be installed"@, k)) ==> {
                let c = chain_at(all, at);
                c.name == name && c.current_spec == trimmed(spec) && !c.installable
            }
        }),
        ({
            let after = spec + " can be installed"@ + rest;
            is_about(all[at], name, extras, after) && !has_text(after, " cannot be installed"@) && (
            forall|k: int| 0 <= k < spec.len() ==> !occurs_at(after, " can be installed"@, k)) ==> {
                let c = chain_at(all, at);
                c.name == name && c.current_spec == trimmed(spec) && c.installable
            }
        }),
        ({
            is_about(all[at], name, extras, rest) && !has_text(rest, " cannot be installed"@)
                && !has_text(rest, " can be installed"@) ==> {
                let c = chain_at(all, at);
                c.name == name && c.current_spec.len() == 0 && !c.installable
            }
        }),
{
    let n = spec.len() as int;
    let bad = " cannot be installed"@;
    let good = " can be installed"@;
    let dead = spec + bad + rest;
    if is_about(all[at], name, extras, dead) && (forall|k: int|
        0 <= k < spec.len() ==> !occurs_at(dead, bad, k)) {
        lemma_about(all[at], name, extras, dead);
        assert(dead.subrange(n, n + bad.len()) =~= bad);
        lemma_first_is(dead, bad, n);
        assert(dead.take(n) =~= spec);
    }
    let live = spec + good + rest;
    if is_about(all[at], name, extras, live) && !has_text(live, bad) && (forall|k: int|
        0 <= k < spec.len() ==> !occurs_at(live, good, k)) {
        lemma_about(all[at], name, extras, live);
        lemma_never(live, bad);
        assert(live.subrange(n, n + good.len()) =~= good);
        lemma_first_is(live, good, n);
        assert(live.take(n) =~= spec);
    }
    if is_about(all[at], name, extras, rest) && !has_text(rest, bad) && !has_text(rest, good) {
        lemma_about(all[at], name, extras, rest);
        lemma_never(rest, bad);
        lemma_never(rest, good);
    }
}

proof fn lemma_lines_named(out: Seq<ChainView>, all: Seq<Seq<char>>, count: int, name: Seq<char>)
    requires
        0 <= count <= all.len(),
    ensures
        names_package(with_lines(out, all, count), name) <==> names_package(out, name) || exists|
            k: int,
        |
            0 <= k < count && branch_name(#[trigger] all[k]) == Some(name),
        out.is_prefix_of(with_lines(out, all, count)),
    decreases count,
{
    let after = with_lines(out, all, count);
    if count > 0 {
        lemma_lines_named(out, all, count - 1, name);
        let before = with_lines(out, all, count - 1);
        let here = branch_name(all[count - 1]);
        if exists|k: int| 0 <= k < count - 1 && branch_name(#[trigger] all[k]) == Some(name) {
            let k = choose|k: int|
                0 <= k < count - 1 && branch_name(#[trigger] all[k]) == Some(name);
            assert(branch_name(all[k]) == Some(name));
        }
        if after != before {
            let c = chain_at(all, count - 1);
            assert(after == before.push(c));
            assert(after[before.len() as int] == c);
            if names_package(before, name) {
                let i = choose|i: int| 0 <= i < before.len() && (#[trigger] before[i]).name == name;
                assert(after[i].name == name);
            }
            if names_package(after, name) && !names_package(before, name) {
                let i = choose|i: int| 0 <= i < after.len() && (#[trigger] after[i]).name == name;
                if i < before.len() {
                    assert(before[i].name == name);
                }
                assert(here == Some(name));
            }
            assert(after.subrange(0, out.len() as int) =~= before.subrange(0, out.len() as int));
        } else if here == Some(name) {
            assert(names_package(before, name));
        }
        if exists|k: int| 0 <= k < count && branch_name(#[trigger] all[k]) == Some(name) {
            let k = choose|k: int| 0 <= k < count && branch_name(#[trigger] all[k]) == Some(name);
            if k < count - 1 {
                assert(branch_name(all[k]) == Some(name));
            }
        }
    } else {
        assert(out.subrange(0, out.len() as int) =~= out);
    }
}

proof fn lemma_lines_from(out: Seq<ChainView>, all: Seq<Seq<char>>, count: int, i: int)
    requires
        0 <= count <= all.len(),
        out.len() <= i < with_lines(out, all, count).len(),
    ensures
        exists|k: int|
            {
                let c = with_lines(out, all, count)[i];
                &&& 0 <= k < count
                &&& branch_name(#[trigger] all[k]) == Some(c.name)
                &&& c == chain_at(all, k)
                &&& !names_package(out, c.name)
                &&& forall|j: int| 0 <= j < k ==> branch_name(#[trigger] all[j]) != Some(c.name)
            },
    decreases count,
{
    if count > 0 {
        let before = with_lines(out, all, count - 1);
        let after = with_lines(out, all, count);
        let c = after[i];
        if i < before.len() {
            assert(before[i] == c);
            lemma_lines_from(out, all, count - 1, i);
        } else {
            lemma_lines_named(out, all, count - 1, c.name);
            assert(c == chain_at(all, count - 1));
            assert(branch_name(all[count - 1]) == Some(c.name));
        }
    }
}

/// Every package that a line at the first level of an explanation is about has a chain,
/// and every chain is that of the first line that is about its package.
pub proof fn law_chains_are_of_the_lines(texts: Seq<Seq<char>>)
    ensures
        forall|t: int, k: int, name: Seq<char>, extras: Seq<char>, after: Seq<char>|
            0 <= t < texts.len() && 0 <= k < line_pieces(texts[t]).len() && #[trigger] is_about(
                line_pieces(texts[t])[k],
                name,
                extras,
                after,
            ) ==> names_package(chains_of(texts), name),
        forall|i: int|
            0 <= i < chains_of(texts).len() ==> is_first_of(texts, #[trigger] chains_of(texts)[i]),
{
    lemma_chains_named(texts, texts.len() as int);
    assert(texts.take(texts.len() as int) =~= texts);
    assert forall|t: int, k: int, name: Seq<char>, extras: Seq<char>, after: Seq<char>|
        0 <= t < texts.len() && 0 <= k < line_pieces(texts[t]).len() && #[trigger] is_about(
            line_pieces(texts[t])[k],
            name,
            extras,
            after,
        ) implies names_package(chains_of(texts), name) by {
        lemma_about(line_pieces(texts[t])[k], name, extras, after);
    }
}

/// Whether a chain is that of the first line of the texts that is about its package.
pub open spec fn is_first_of(texts: Seq<Seq<char>>, c: ChainView) -> bool {
    exists|t: int, k: int|
        {
            let all = line_pieces(texts[t]);
            &&& 0 <= t < texts.len()
            &&& 0 <= k < all.len()
            &&& c == #[trigger] chain_at(line_pieces(texts[t]), k)
            &&& forall|j: int, extras: Seq<char>, after: Seq<char>|
                0 <= j < k ==> !#[trigger] is_about(all[j], c.name, extras, after)
            &&& forall|u: int, j: int, extras: Seq<char>, after: Seq<char>|
                0 <= u < t && 0 <= j < line_pieces(texts[u]).len() ==> !#[trigger] is_about(
                    line_pieces(texts[u])[j],
                    c.name,
                    extras,
                    after,
                )
        }
}

proof fn lemma_chains_named(texts: Seq<Seq<char>>, n: int)
    requires
        0 <= n <= texts.len(),
    ensures
        forall|t: int, k: int, name: Seq<char>|
            0 <= t < n && 0 <= k < line_pieces(texts[t]).len() && #[trigger] branch_name(
                line_pieces(texts[t])[k],
            ) == Some(name) ==> #[trigger] names_package(chains_of(texts.take(n)), name),
        forall|i: int|
            0 <= i < chains_of(texts.take(n)).len() ==> is_first_of(
                texts,
                #[trigger] chains_of(texts.take(n))[i],
            ),
    decreases n,
{
    if n > 0 {
        lemma_chains_named(texts, n - 1);
        let now = texts.take(n);
        assert(now.drop_last() =~= texts.take(n - 1));
        assert(now.last() == texts[n - 1]);
        let before = chains_of(texts.take(n - 1));
        let all = line_pieces(texts[n - 1]);
        let count = all.len() as int;
        let chains = chains_of(now);
        assert(chains == with_lines(before, all, count));
        assert forall|t: int, k: int, name: Seq<char>|
            0 <= t < n && 0 <= k < line_pieces(texts[t]).len() && #[trigger] branch_name(
                line_pieces(texts[t])[k],
            ) == Some(name) implies #[trigger] names_package(chains, name) by {
            lemma_lines_named(before, all, count, name);
            if t < n - 1 {
                assert(names_package(before, name));
            } else {
                assert(branch_name(all[k]) == Some(name));
            }
        }
        assert forall|i: int| 0 <= i < chains.len() implies is_first_of(
            texts,
            #[trigger] chains[i],
        ) by {
            lemma_lines_named(before, all, count, Seq::empty());
            if i < before.len() {
                assert(chains.subrange(0, before.len() as int)[i] == chains[i]);
                assert(before[i] == chains[i]);
            } else {
                lemma_lines_from(before, all, count, i);
                let c = chains[i];
                let k = choose|k: int|
                    {
                        &&& 0 <= k < count
                        &&& branch_name(#[trigger] all[k]) == Some(c.name)
                        &&& c == chain_at(all, k)
                        &&& !names_package(before, c.name)
                        &&& forall|j: int|
                            0 <= j < k ==> branch_name(#[trigger] all[j]) != Some(c.name)
                    };
                assert forall|j: int, extras: Seq<char>, after: Seq<char>|
                    0 <= j < k implies !#[trigger] is_about(all[j], c.name, extras, after) by {
                    if is_about(all[j], c.name, extras, after) {
                        lemma_about(all[j], c.name, extras, after);
                    }
                }
                assert forall|u: int, j: int, extras: Seq<char>, after: Seq<char>|
                    0 <= u < n - 1 && 0 <= j < line_pieces(texts[u]).len() implies !#[trigger] is_about(
                    line_pieces(texts[u])[j],
                    c.name,
                    extras,
                    after,
                ) by {
                    if is_about(line_pieces(texts[u])[j], c.name, extras, after) {
                        lemma_about(line_pieces(texts[u])[j], c.name, extras, after);
                        assert(names_package(before, c.name));
                    }
                }
                assert(c == chain_at(line_pieces(texts[n - 1]), k));
            }
        }
    }
}

} // verus!
