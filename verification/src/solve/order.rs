//! Lists of texts, and lists of such lists, in the order of their parts.
use crate::text::{
    comes_before, in_order, lemma_before_total, lemma_before_transitive, text_before, text_eq,
};
use vstd::prelude::*;

verus! {

broadcast use vstd::seq_lib::group_seq_properties;

/// Whether a list of texts comes before another: by the first text in which they
/// differ, and a list before those that go on after it.
pub open spec fn texts_before(a: Seq<Seq<char>>, b: Seq<Seq<char>>) -> bool
    decreases a.len(),
{
    if b.len() == 0 {
        false
    } else if a.len() == 0 {
        true
    } else if a[0] == b[0] {
        texts_before(a.drop_first(), b.drop_first())
    } else {
        text_before(a[0], b[0])
    }
}

/// Whether a list of lists comes before another, in the same way.
pub open spec fn lists_before(a: Seq<Seq<Seq<char>>>, b: Seq<Seq<Seq<char>>>) -> bool
    decreases a.len(),
{
    if b.len() == 0 {
        false
    } else if a.len() == 0 {
        true
    } else if a[0] == b[0] {
        lists_before(a.drop_first(), b.drop_first())
    } else {
        texts_before(a[0], b[0])
    }
}

/// Of two lists of texts one comes before the other, and only one, unless they are
/// the same.
pub proof fn lemma_texts_total(a: Seq<Seq<char>>, b: Seq<Seq<char>>)
    ensures
        texts_before(a, b) || texts_before(b, a) || a == b,
        texts_before(a, b) ==> !texts_before(b, a) && a != b,
    decreases a.len(),
{
    if a.len() > 0 && b.len() > 0 {
        lemma_before_total(a[0], b[0]);
        if a[0] == b[0] {
            lemma_texts_total(a.drop_first(), b.drop_first());
            if a.drop_first() == b.drop_first() {
                assert(a =~= seq![a[0]] + a.drop_first());
                assert(b =~= seq![b[0]] + b.drop_first());
            }
        }
    } else if a.len() == 0 && b.len() == 0 {
        assert(a =~= b);
    }
}

pub proof fn lemma_texts_transitive(a: Seq<Seq<char>>, b: Seq<Seq<char>>, c: Seq<Seq<char>>)
    requires
        texts_before(a, b),
        texts_before(b, c),
    ensures
        texts_before(a, c),
    decreases a.len(),
{
    if a.len() > 0 && b.len() > 0 && c.len() > 0 {
        lemma_before_total(a[0], b[0]);
        lemma_before_total(b[0], c[0]);
        lemma_before_total(a[0], c[0]);
        if a[0] == b[0] && b[0] == c[0] {
            lemma_texts_transitive(a.drop_first(), b.drop_first(), c.drop_first());
        } else if a[0] != b[0] && b[0] != c[0] {
            lemma_before_transitive(a[0], b[0], c[0]);
        }
    }
}

/// Of two lists of lists one comes before the other, and only one, unless they are
/// the same.
pub proof fn lemma_lists_total(a: Seq<Seq<Seq<char>>>, b: Seq<Seq<Seq<char>>>)
    ensures
        lists_before(a, b) || lists_before(b, a) || a == b,
        lists_before(a, b) ==> !lists_before(b, a) && a != b,
    decreases a.len(),
{
    if a.len() > 0 && b.len() > 0 {
        lemma_texts_total(a[0], b[0]);
        if a[0] == b[0] {
            lemma_lists_total(a.drop_first(), b.drop_first());
            if a.drop_first() == b.drop_first() {
                assert(a =~= seq![a[0]] + a.drop_first());
                assert(b =~= seq![b[0]] + b.drop_first());
            }
        }
    } else if a.len() == 0 && b.len() == 0 {
        assert(a =~= b);
    }
}

pub proof fn lemma_lists_transitive(
    a: Seq<Seq<Seq<char>>>,
    b: Seq<Seq<Seq<char>>>,
    c: Seq<Seq<Seq<char>>>,
)
    requires
        lists_before(a, b),
        lists_before(b, c),
    ensures
        lists_before(a, c),
    decreases a.len(),
{
    if a.len() > 0 && b.len() > 0 && c.len() > 0 {
        lemma_texts_total(a[0], b[0]);
        lemma_texts_total(b[0], c[0]);
        lemma_texts_total(a[0], c[0]);
        if a[0] == b[0] && b[0] == c[0] {
            lemma_lists_transitive(a.drop_first(), b.drop_first(), c.drop_first());
        } else if a[0] != b[0] && b[0] != c[0] {
            lemma_texts_transitive(a[0], b[0], c[0]);
        }
    }
}

/// Whether two lists of texts are the same.
pub fn same_texts(a: &Vec<String>, b: &Vec<String>) -> (r: bool)
    ensures
        r == (a.deep_view() == b.deep_view()),
{
    let ghost x = a.deep_view();
    let ghost y = b.deep_view();
    if a.len() != b.len() {
        assert(x.len() != y.len());
        return false;
    }
    let n: usize = a.len();
    let mut i: usize = 0;
    while i < n
        invariant
            i <= n,
            n == a@.len(),
            n == b@.len(),
            x == a.deep_view(),
            y == b.deep_view(),
            forall|k: int| 0 <= k < i ==> x[k] == y[k],
        decreases n - i,
    {
        assert(x[i as int] == a@[i as int].deep_view());
        assert(y[i as int] == b@[i as int].deep_view());
        if !text_eq(&a[i], &b[i]) {
            return false;
        }
        i = i + 1;
    }
    assert(x =~= y);
    true
}

/// Whether a list of texts comes before another.
pub fn texts_come_before(a: &Vec<String>, b: &Vec<String>) -> (r: bool)
    ensures
        r == texts_before(a.deep_view(), b.deep_view()),
{
    let ghost x = a.deep_view();
    let ghost y = b.deep_view();
    let mut i: usize = 0;
    assert(x.skip(0) =~= x);
    assert(y.skip(0) =~= y);
    while i < a.len() && i < b.len()
        invariant
            i <= a@.len(),
            i <= b@.len(),
            x == a.deep_view(),
            y == b.deep_view(),
            texts_before(x, y) == texts_before(x.skip(i as int), y.skip(i as int)),
        decreases a@.len() - i,
    {
        assert(x.skip(i as int)[0] == a@[i as int].deep_view());
        assert(y.skip(i as int)[0] == b@[i as int].deep_view());
        assert(x.skip(i as int).drop_first() =~= x.skip(i + 1));
        assert(y.skip(i as int).drop_first() =~= y.skip(i + 1));
        if !text_eq(&a[i], &b[i]) {
            return comes_before(&a[i], &b[i]);
        }
        i = i + 1;
    }
    i < b.len()
}

/// Whether two lists of lists are the same.
pub fn same_lists(a: &Vec<Vec<String>>, b: &Vec<Vec<String>>) -> (r: bool)
    ensures
        r == (a.deep_view() == b.deep_view()),
{
    let ghost x = a.deep_view();
    let ghost y = b.deep_view();
    if a.len() != b.len() {
        assert(x.len() != y.len());
        return false;
    }
    let n: usize = a.len();
    let mut i: usize = 0;
    while i < n
        invariant
            i <= n,
            n == a@.len(),
            n == b@.len(),
            x == a.deep_view(),
            y == b.deep_view(),
            forall|k: int| 0 <= k < i ==> x[k] == y[k],
        decreases n - i,
    {
        assert(x[i as int] == a@[i as int].deep_view());
        assert(y[i as int] == b@[i as int].deep_view());
        if !same_texts(&a[i], &b[i]) {
            return false;
        }
        i = i + 1;
    }
    assert(x =~= y);
    true
}

/// Whether a list of lists comes before another.
pub fn lists_come_before(a: &Vec<Vec<String>>, b: &Vec<Vec<String>>) -> (r: bool)
    ensures
        r == lists_before(a.deep_view(), b.deep_view()),
{
    let ghost x = a.deep_view();
    let ghost y = b.deep_view();
    let mut i: usize = 0;
    assert(x.skip(0) =~= x);
    assert(y.skip(0) =~= y);
    while i < a.len() && i < b.len()
        invariant
            i <= a@.len(),
            i <= b@.len(),
            x == a.deep_view(),
            y == b.deep_view(),
            lists_before(x, y) == lists_before(x.skip(i as int), y.skip(i as int)),
        decreases a@.len() - i,
    {
        assert(x.skip(i as int)[0] == a@[i as int].deep_view());
        assert(y.skip(i as int)[0] == b@[i as int].deep_view());
        assert(x.skip(i as int).drop_first() =~= x.skip(i + 1));
        assert(y.skip(i as int).drop_first() =~= y.skip(i + 1));
        if !same_texts(&a[i], &b[i]) {
            return texts_come_before(&a[i], &b[i]);
        }
        i = i + 1;
    }
    i < b.len()
}

/// Texts in order with one more, unless it is there already.
pub open spec fn text_placed(texts: Seq<Seq<char>>, x: Seq<char>) -> Seq<Seq<char>>
    decreases texts.len(),
{
    if texts.len() == 0 {
        seq![x]
    } else if texts.last() == x {
        texts
    } else if text_before(texts.last(), x) {
        texts.push(x)
    } else {
        text_placed(texts.drop_last(), x).push(texts.last())
    }
}

/// Texts in order, each once.
pub open spec fn all_placed(texts: Seq<Seq<char>>) -> Seq<Seq<char>>
    decreases texts.len(),
{
    if texts.len() == 0 {
        texts
    } else {
        text_placed(all_placed(texts.drop_last()), texts.last())
    }
}

/// Puts a text in its place among texts in order, unless it is there already.
pub fn place_text(texts: &mut Vec<String>, x: String)
    ensures
        final(texts).deep_view() == text_placed(old(texts).deep_view(), x@),
{
    let ghost all = texts.deep_view();
    let ghost t = x@;
    let n: usize = texts.len();
    let mut i: usize = n;
    assert(all.take(n as int) =~= all);
    assert(text_placed(all, t) =~= text_placed(all.take(n as int), t) + all.skip(n as int));
    while i > 0
        invariant
            i <= n,
            n == texts@.len(),
            all == texts.deep_view(),
            *texts == *old(texts),
            t == x@,
            text_placed(all, t) == text_placed(all.take(i as int), t) + all.skip(i as int),
        decreases i,
    {
        let ghost head = all.take(i as int);
        assert(head.last() == all[i - 1]);
        assert(head.drop_last() =~= all.take(i - 1));
        assert(all[i - 1] == texts@[i - 1].deep_view());
        if text_eq(&texts[i - 1], &x) {
            assert(head + all.skip(i as int) =~= all);
            return;
        }
        if comes_before(&texts[i - 1], &x) {
            texts.insert(i, x);
            assert(texts.deep_view() =~= all.insert(i as int, t));
            assert(all.insert(i as int, t) =~= head.push(t) + all.skip(i as int));
            return;
        }
        assert(text_placed(head, t) + all.skip(i as int) =~= text_placed(all.take(i - 1), t)
            + all.skip(i - 1));
        i = i - 1;
    }
    texts.insert(0, x);
    assert(texts.deep_view() =~= all.insert(0, t));
    assert(all.insert(0, t) =~= text_placed(all.take(0), t) + all.skip(0));
}

/// Texts in order, each once.
pub fn in_their_order(texts: &Vec<String>) -> (r: Vec<String>)
    ensures
        r.deep_view() == all_placed(texts.deep_view()),
{
    let ghost all = texts.deep_view();
    let mut out: Vec<String> = Vec::new();
    assert(out.deep_view() =~= Seq::<Seq<char>>::empty());
    let n: usize = texts.len();
    let mut i: usize = 0;
    assert(all_placed(all.take(0)) =~= Seq::<Seq<char>>::empty());
    while i < n
        invariant
            i <= n,
            n == texts@.len(),
            all == texts.deep_view(),
            out.deep_view() == all_placed(all.take(i as int)),
        decreases n - i,
    {
        assert(all.take(i + 1).drop_last() =~= all.take(i as int));
        assert(all.take(i + 1).last() == all[i as int]);
        assert(all[i as int] == texts@[i as int].deep_view());
        place_text(&mut out, texts[i].clone());
        i = i + 1;
    }
    assert(all.take(n as int) =~= all);
    out
}

/// Texts that are put in order stand in order without repeats, and are the same.
pub proof fn law_placed_texts_are_in_order(texts: Seq<Seq<char>>, x: Seq<char>)
    requires
        in_order(texts),
    ensures
        in_order(text_placed(texts, x)),
        forall|t: Seq<char>| #[trigger]
            text_placed(texts, x).contains(t) <==> texts.contains(t) || t == x,
    decreases texts.len(),
{
    let after = text_placed(texts, x);
    if texts.len() == 0 {
        assert(after[0] == x);
    } else {
        let last = texts.last();
        let rest = texts.drop_last();
        assert(texts[texts.len() - 1] == last);
        assert(texts =~= rest.push(last));
        if last == x {
        } else if text_before(last, x) {
            assert forall|i: int, j: int| 0 <= i < j < after.len() implies text_before(
                after[i],
                after[j],
            ) by {
                if j == texts.len() && i < texts.len() - 1 {
                    lemma_before_transitive(after[i], last, x);
                }
            }
            assert forall|t: Seq<char>| #[trigger] after.contains(t) <==> texts.contains(t) || t
                == x by {
                if texts.contains(t) {
                    let k = choose|k: int| 0 <= k < texts.len() && texts[k] == t;
                    assert(after[k] == t);
                }
                assert(after[after.len() - 1] == x);
            }
        } else {
            law_placed_texts_are_in_order(rest, x);
            lemma_before_total(last, x);
            let inner = text_placed(rest, x);
            assert forall|i: int, j: int| 0 <= i < j < after.len() implies text_before(
                after[i],
                after[j],
            ) by {
                assert(after[i] == inner[i]);
                if j == inner.len() {
                    assert(inner.contains(inner[i]));
                    if inner[i] != x {
                        let k = choose|k: int| 0 <= k < rest.len() && rest[k] == inner[i];
                        assert(texts[k] == inner[i]);
                    }
                } else {
                    assert(after[j] == inner[j]);
                }
            }
            assert forall|t: Seq<char>| #[trigger] after.contains(t) <==> texts.contains(t) || t
                == x by {
                assert(after =~= inner.push(last));
                assert(inner.contains(t) <==> rest.contains(t) || t == x);
            }
        }
    }
}

} // verus!
