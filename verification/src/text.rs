//! Text as sequences of characters: the operations on names, version specs
//! and solver messages that the rest of the crate is written with.
use vstd::prelude::*;

verus! {

broadcast use vstd::seq_lib::group_seq_properties;

/// `String::push` appends the given character to the end of the string.
pub assume_specification[ String::push ](s: &mut String, c: char)
    ensures
        final(s)@ == old(s)@.push(c),
;

/// The characters of `s`, in order.
pub fn chars_of(s: &str) -> (v: Vec<char>)
    ensures
        v@ == s@,
{
    let mut v: Vec<char> = Vec::new();
    for c in it: s.chars()
        invariant
            v@ == it.seq().take(it.index() as int),
            it.seq() == s@,
    {
        v.push(c);
    }
    v
}

/// The text of `v` from position `i` up to `j`.
pub fn text_from(v: &Vec<char>, i: usize, j: usize) -> (s: String)
    requires
        i <= j <= v@.len(),
    ensures
        s@ == v@.subrange(i as int, j as int),
{
    let mut s: String = String::new();
    let mut k: usize = i;
    while k < j
        invariant
            i <= k <= j <= v@.len(),
            s@ == v@.subrange(i as int, k as int),
        decreases j - k,
    {
        s.push(v[k]);
        assert(v@.subrange(i as int, k + 1) =~= v@.subrange(i as int, k as int).push(v@[k as int]));
        k = k + 1;
    }
    s
}

/// Whether two texts are the same.
pub fn text_eq(a: &str, b: &str) -> (r: bool)
    ensures
        r == (a@ == b@),
{
    let x: String = a.to_owned();
    let y: String = b.to_owned();
    x == y
}

/// A copy of an optional text.
pub fn clone_option(a: &Option<String>) -> (r: Option<String>)
    ensures
        r.deep_view() == a.deep_view(),
{
    match a {
        Some(x) => Some(x.clone()),
        None => None,
    }
}

/// Adds `x` at the end of `out`.
pub fn push_view<T: DeepView>(out: &mut Vec<T>, x: T)
    ensures
        final(out)@ == old(out)@.push(x),
        final(out).deep_view() == old(out).deep_view().push(x.deep_view()),
{
    let ghost before = out.deep_view();
    out.push(x);
    assert(out.deep_view() =~= before.push(x.deep_view()));
}

/// A copy of a list of texts.
pub fn clone_texts(v: &Vec<String>) -> (r: Vec<String>)
    ensures
        r.deep_view() == v.deep_view(),
{
    let mut r: Vec<String> = Vec::new();
    let mut i: usize = 0;
    while i < v.len()
        invariant
            i <= v@.len(),
            r.deep_view() == v.deep_view().take(i as int),
        decreases v@.len() - i,
    {
        push_view(&mut r, v[i].clone());
        assert(v.deep_view().take(i + 1) =~= v.deep_view().take(i as int).push(v.deep_view()[i as int]));
        i = i + 1;
    }
    assert(v.deep_view().take(i as int) =~= v.deep_view());
    r
}

/// Whether a list of texts holds `x`.
pub fn holds_text(v: &Vec<String>, x: &str) -> (r: bool)
    ensures
        r == v.deep_view().contains(x@),
{
    let mut i: usize = 0;
    while i < v.len()
        invariant
            i <= v@.len(),
            forall|k: int| 0 <= k < i ==> v.deep_view()[k] != x@,
        decreases v@.len() - i,
    {
        if text_eq(&v[i], x) {
            assert(v.deep_view()[i as int] == x@);
            return true;
        }
        i = i + 1;
    }
    false
}

// ---------------------------------------------------------------------------
// Prefixes, suffixes and occurrences
// ---------------------------------------------------------------------------

/// Whether `part` occurs in `v` at position `i`.
pub open spec fn occurs_at(v: Seq<char>, part: Seq<char>, i: int) -> bool {
    0 <= i && i + part.len() <= v.len() && v.subrange(i, i + part.len()) == part
}

/// Whether `part` occurs somewhere in `s`.
pub open spec fn occurs(s: Seq<char>, part: Seq<char>) -> bool {
    exists|i: int| occurs_at(s, part, i)
}

fn chars_occur_at(v: &Vec<char>, part: &Vec<char>, i: usize) -> (r: bool)
    requires
        i <= v@.len(),
    ensures
        r == occurs_at(v@, part@, i as int),
{
    let n: usize = v.len();
    if part.len() > n - i {
        return false;
    }
    let mut k: usize = 0;
    while k < part.len()
        invariant
            k <= part@.len(),
            i + part@.len() <= n,
            n == v@.len(),
            forall|j: int| 0 <= j < k ==> v@[i + j] == part@[j],
        decreases part@.len() - k,
    {
        if v[i + k] != part[k] {
            assert(v@.subrange(i as int, i + part@.len())[k as int] != part@[k as int]);
            return false;
        }
        k = k + 1;
    }
    assert(v@.subrange(i as int, i + part@.len()) =~= part@);
    true
}

/// Whether `s` begins with `part`.
pub fn starts_with(s: &str, part: &str) -> (r: bool)
    ensures
        r == part@.is_prefix_of(s@),
{
    let v = chars_of(s);
    let p = chars_of(part);
    let r = chars_occur_at(&v, &p, 0);
    assert(p@.len() <= v@.len() ==> v@.subrange(0, p@.len() as int) == v@.take(p@.len() as int));
    r
}

/// Whether `s` ends with `part`.
pub fn ends_with(s: &str, part: &str) -> (r: bool)
    ensures
        r == part@.is_suffix_of(s@),
{
    let v = chars_of(s);
    let p = chars_of(part);
    if p.len() > v.len() {
        return false;
    }
    let at: usize = v.len() - p.len();
    let r = chars_occur_at(&v, &p, at);
    assert(at + p@.len() == v@.len());
    r
}

/// What follows `part` in `s`, where `s` begins with it.
pub open spec fn after_prefix(s: Seq<char>, part: Seq<char>) -> Option<Seq<char>> {
    if part.is_prefix_of(s) {
        Some(s.skip(part.len() as int))
    } else {
        None
    }
}

/// What follows `part` in `s`, where `s` begins with it.
pub fn strip_prefix(s: &str, part: &str) -> (r: Option<String>)
    ensures
        r.deep_view() == after_prefix(s@, part@),
{
    if starts_with(s, part) {
        let v = chars_of(s);
        let n: usize = chars_of(part).len();
        assert(v@.subrange(n as int, v@.len() as int) =~= s@.skip(n as int));
        Some(text_from(&v, n, v.len()))
    } else {
        None
    }
}

/// The first position at or after `from` where `part` occurs in `s`.
pub open spec fn first_at(s: Seq<char>, part: Seq<char>, from: int) -> Option<int>
    decreases s.len() + 1 - from,
{
    if from > s.len() || from < 0 {
        None
    } else if occurs_at(s, part, from) {
        Some(from)
    } else {
        first_at(s, part, from + 1)
    }
}

/// The last position before `end` where `part` occurs in `s`.
pub open spec fn last_before(s: Seq<char>, part: Seq<char>, end: int) -> Option<int>
    decreases end,
{
    if end <= 0 {
        None
    } else if occurs_at(s, part, end - 1) {
        Some(end - 1)
    } else {
        last_before(s, part, end - 1)
    }
}

/// The last position where `part` occurs in `s`.
pub open spec fn last_at(s: Seq<char>, part: Seq<char>) -> Option<int> {
    last_before(s, part, s.len() as int + 1)
}

/// The first position at or after `from` where `part` occurs.
pub fn find_from(s: &str, part: &str, from: usize) -> (r: Option<usize>)
    ensures
        match r {
            Some(i) => first_at(s@, part@, from as int) == Some(i as int) && from <= i && i
                + part@.len() <= s@.len(),
            None => first_at(s@, part@, from as int) is None,
        },
{
    let v = chars_of(s);
    let p = chars_of(part);
    let n: usize = v.len();
    let mut i: usize = from;
    while i <= n
        invariant
            from <= i,
            n == v@.len(),
            v@ == s@,
            p@ == part@,
            i <= n + 1 || i == from,
            first_at(s@, part@, from as int) == first_at(s@, part@, i as int),
        decreases n + 1 - i,
    {
        if chars_occur_at(&v, &p, i) {
            return Some(i);
        }
        if i == n {
            assert(first_at(s@, part@, i + 1) is None);
            return None;
        }
        i = i + 1;
    }
    None
}

/// The last position where `part` occurs in `s`, counted in characters.
pub fn rfind(s: &str, part: &str) -> (r: Option<usize>)
    ensures
        match r {
            Some(i) => last_at(s@, part@) == Some(i as int),
            None => last_at(s@, part@) is None,
        },
{
    let v = chars_of(s);
    let p = chars_of(part);
    let mut i: usize = v.len();
    if chars_occur_at(&v, &p, i) {
        return Some(i);
    }
    while i > 0
        invariant
            i <= v@.len(),
            v@ == s@,
            p@ == part@,
            last_at(s@, part@) == last_before(s@, part@, i as int),
        decreases i,
    {
        i = i - 1;
        if chars_occur_at(&v, &p, i) {
            return Some(i);
        }
    }
    None
}

/// Whether `part` occurs somewhere in `s`.
pub fn contains(s: &str, part: &str) -> (r: bool)
    ensures
        r == occurs(s@, part@),
{
    let v = chars_of(s);
    let p = chars_of(part);
    let n: usize = v.len();
    let mut i: usize = 0;
    loop
        invariant
            i <= n,
            n == v@.len(),
            v@ == s@,
            p@ == part@,
            forall|k: int| 0 <= k < i ==> !occurs_at(s@, part@, k),
        decreases n - i,
    {
        if chars_occur_at(&v, &p, i) {
            return true;
        }
        if i == n {
            assert forall|k: int| !occurs_at(s@, part@, k) by {}
            return false;
        }
        i = i + 1;
    }
}

/// The text with the first `n` characters left out.
pub fn skip_chars(s: &str, n: usize) -> (r: String)
    requires
        n <= s@.len(),
    ensures
        r@ == s@.skip(n as int),
{
    let v = chars_of(s);
    assert(v@.subrange(n as int, v@.len() as int) =~= s@.skip(n as int));
    text_from(&v, n, v.len())
}

/// The first `n` characters of the text.
pub fn take_chars(s: &str, n: usize) -> (r: String)
    requires
        n <= s@.len(),
    ensures
        r@ == s@.take(n as int),
{
    let v = chars_of(s);
    text_from(&v, 0, n)
}

// ---------------------------------------------------------------------------
// White space
// ---------------------------------------------------------------------------

/// The characters with Unicode's `White_Space` property.
pub open spec fn is_space(c: char) -> bool {
    let n = c as int;
    9 <= n <= 13 || n == 32 || n == 0x85 || n == 0xA0 || n == 0x1680 || 0x2000 <= n <= 0x200A || n
        == 0x2028 || n == 0x2029 || n == 0x202F || n == 0x205F || n == 0x3000
}

/// Whether a character is white space, as Unicode has it.
pub fn space_char(c: char) -> (r: bool)
    ensures
        r == is_space(c),
{
    let n: u32 = c as u32;
    (9 <= n && n <= 13) || n == 32 || n == 0x85 || n == 0xA0 || n == 0x1680 || (0x2000 <= n && n
        <= 0x200A) || n == 0x2028 || n == 0x2029 || n == 0x202F || n == 0x205F || n == 0x3000
}

/// `s` without its leading white space.
pub open spec fn trimmed_start(s: Seq<char>) -> Seq<char>
    decreases s.len(),
{
    if s.len() > 0 && is_space(s[0]) {
        trimmed_start(s.drop_first())
    } else {
        s
    }
}

/// `s` without its trailing white space.
pub open spec fn trimmed_end(s: Seq<char>) -> Seq<char>
    decreases s.len(),
{
    if s.len() > 0 && is_space(s.last()) {
        trimmed_end(s.drop_last())
    } else {
        s
    }
}

/// `s` without the white space at either end.
pub open spec fn trimmed(s: Seq<char>) -> Seq<char> {
    trimmed_end(trimmed_start(s))
}

/// `s` without its leading white space.
pub fn trim_start(s: &str) -> (r: String)
    ensures
        r@ == trimmed_start(s@),
{
    let v = chars_of(s);
    let n: usize = v.len();
    let mut i: usize = 0;
    assert(v@.subrange(0, n as int) =~= s@);
    while i < n && space_char(v[i])
        invariant
            i <= n,
            n == v@.len(),
            v@ == s@,
            trimmed_start(s@) == trimmed_start(v@.subrange(i as int, n as int)),
        decreases n - i,
    {
        assert(v@.subrange(i as int, n as int).drop_first() =~= v@.subrange(i + 1, n as int));
        i = i + 1;
    }
    text_from(&v, i, n)
}

/// `s` without its trailing white space.
pub fn trim_end(s: &str) -> (r: String)
    ensures
        r@ == trimmed_end(s@),
{
    let v = chars_of(s);
    let mut j: usize = v.len();
    assert(v@.subrange(0, j as int) =~= s@);
    while j > 0 && space_char(v[j - 1])
        invariant
            j <= v@.len(),
            v@ == s@,
            trimmed_end(s@) == trimmed_end(v@.subrange(0, j as int)),
        decreases j,
    {
        assert(v@.subrange(0, j as int).drop_last() =~= v@.subrange(0, j - 1));
        j = j - 1;
    }
    text_from(&v, 0, j)
}

/// `s` without the white space at either end.
pub fn trim(s: &str) -> (r: String)
    ensures
        r@ == trimmed(s@),
{
    let t = trim_start(s);
    trim_end(&t)
}

// ---------------------------------------------------------------------------
// Pieces
// ---------------------------------------------------------------------------

/// The pieces of `s` between the occurrences of `c`: one more than there are
/// occurrences.
pub open spec fn pieces(s: Seq<char>, c: char) -> Seq<Seq<char>>
    decreases s.len(),
{
    if s.len() == 0 {
        seq![Seq::<char>::empty()]
    } else {
        let before = pieces(s.drop_last(), c);
        if s.last() == c {
            before.push(Seq::<char>::empty())
        } else {
            before.drop_last().push(before.last().push(s.last()))
        }
    }
}

/// There is always a piece.
pub proof fn lemma_pieces_nonempty(s: Seq<char>, c: char)
    ensures
        pieces(s, c).len() >= 1,
    decreases s.len(),
{
    if s.len() > 0 {
        lemma_pieces_nonempty(s.drop_last(), c);
    }
}

/// The pieces of `s` between the occurrences of `c`.
pub fn split(s: &str, c: char) -> (r: Vec<String>)
    ensures
        r.deep_view() == pieces(s@, c),
        r@.len() >= 1,
{
    let v = chars_of(s);
    let n: usize = v.len();
    let mut out: Vec<String> = Vec::new();
    let mut cur: String = String::new();
    let mut i: usize = 0;
    assert(out.deep_view().push(cur@) =~= pieces(v@.take(0), c));
    while i < n
        invariant
            i <= n,
            n == v@.len(),
            v@ == s@,
            out.deep_view().push(cur@) == pieces(v@.take(i as int), c),
        decreases n - i,
    {
        let x: char = v[i];
        assert(v@.take(i + 1).drop_last() =~= v@.take(i as int));
        let ghost before = out.deep_view();
        let ghost piece = cur@;
        assert(before.push(piece).drop_last() =~= before);
        if x == c {
            push_view(&mut out, cur);
            cur = String::new();
        } else {
            cur.push(x);
        }
        i = i + 1;
    }
    assert(v@.take(n as int) =~= v@);
    push_view(&mut out, cur);
    out
}

/// The lines of `s`: what its newlines end, without a carriage return before
/// the newline, and what follows the last newline where that is not empty.
pub open spec fn line_pieces(s: Seq<char>) -> Seq<Seq<char>> {
    let p = pieces(s, '\n');
    let ended = p.drop_last().map_values(|l: Seq<char>| without_return(l));
    if p.last().len() == 0 {
        ended
    } else {
        ended.push(p.last())
    }
}

/// `l` without one trailing carriage return.
pub open spec fn without_return(l: Seq<char>) -> Seq<char> {
    if l.len() > 0 && l.last() == '\r' {
        l.drop_last()
    } else {
        l
    }
}

fn strip_return(l: &str) -> (r: String)
    ensures
        r@ == without_return(l@),
{
    let v = chars_of(l);
    let n: usize = v.len();
    if n > 0 && v[n - 1] == '\r' {
        assert(v@.subrange(0, n - 1) =~= v@.drop_last());
        text_from(&v, 0, n - 1)
    } else {
        l.to_owned()
    }
}

/// The lines of `s`.
pub fn lines(s: &str) -> (r: Vec<String>)
    ensures
        r.deep_view() == line_pieces(s@),
{
    let parts = split(s, '\n');
    let n: usize = parts.len();
    let ghost p = parts.deep_view();
    let mut out: Vec<String> = Vec::new();
    let mut i: usize = 0;
    while i + 1 < n
        invariant
            n == parts@.len(),
            n >= 1,
            i + 1 <= n,
            p == parts.deep_view(),
            out.deep_view() == p.take(i as int).map_values(|l: Seq<char>| without_return(l)),
        decreases n - i,
    {
        let l = strip_return(&parts[i]);
        push_view(&mut out, l);
        assert(p.take(i + 1).map_values(|l: Seq<char>| without_return(l)) =~= p.take(
            i as int,
        ).map_values(|l: Seq<char>| without_return(l)).push(without_return(p[i as int])));
        i = i + 1;
    }
    assert(p.take(i as int) =~= p.drop_last());
    let last = parts[n - 1].clone();
    if !last.as_str().is_empty() {
        push_view(&mut out, last);
    }
    out
}

/// The words read so far and the one being read.
pub open spec fn word_scan(s: Seq<char>) -> (Seq<Seq<char>>, Seq<char>)
    decreases s.len(),
{
    if s.len() == 0 {
        (Seq::<Seq<char>>::empty(), Seq::<char>::empty())
    } else {
        let (done, cur) = word_scan(s.drop_last());
        if is_space(s.last()) {
            if cur.len() == 0 {
                (done, cur)
            } else {
                (done.push(cur), Seq::<char>::empty())
            }
        } else {
            (done, cur.push(s.last()))
        }
    }
}

/// The maximal runs of `s` without white space.
pub open spec fn words(s: Seq<char>) -> Seq<Seq<char>> {
    let (done, cur) = word_scan(s);
    if cur.len() == 0 {
        done
    } else {
        done.push(cur)
    }
}

/// The maximal runs of `s` without white space.
pub fn split_whitespace(s: &str) -> (r: Vec<String>)
    ensures
        r.deep_view() == words(s@),
{
    let v = chars_of(s);
    let n: usize = v.len();
    let mut out: Vec<String> = Vec::new();
    let mut cur: String = String::new();
    let mut i: usize = 0;
    assert(out.deep_view() =~= Seq::<Seq<char>>::empty());
    while i < n
        invariant
            i <= n,
            n == v@.len(),
            v@ == s@,
            (out.deep_view(), cur@) == word_scan(v@.take(i as int)),
        decreases n - i,
    {
        let x: char = v[i];
        assert(v@.take(i + 1).drop_last() =~= v@.take(i as int));
        if space_char(x) {
            if !cur.as_str().is_empty() {
                push_view(&mut out, cur);
                cur = String::new();
            }
        } else {
            cur.push(x);
        }
        i = i + 1;
    }
    assert(v@.take(n as int) =~= v@);
    if !cur.as_str().is_empty() {
        push_view(&mut out, cur);
    }
    out
}

/// The texts in order with `sep` between neighbours.
pub open spec fn joined(parts: Seq<Seq<char>>, sep: Seq<char>) -> Seq<char>
    decreases parts.len(),
{
    if parts.len() == 0 {
        Seq::empty()
    } else if parts.len() == 1 {
        parts[0]
    } else {
        joined(parts.drop_last(), sep) + sep + parts.last()
    }
}

/// The texts in order with `sep` between neighbours.
pub fn join(parts: &Vec<String>, sep: &str) -> (r: String)
    ensures
        r@ == joined(parts.deep_view(), sep@),
{
    let mut out: String = String::new();
    let n: usize = parts.len();
    let ghost p = parts.deep_view();
    let mut i: usize = 0;
    while i < n
        invariant
            i <= n,
            n == parts@.len(),
            p == parts.deep_view(),
            out@ == joined(p.take(i as int), sep@),
        decreases n - i,
    {
        assert(p.take(i + 1).drop_last() =~= p.take(i as int));
        if i > 0 {
            out.append(sep);
            out.append(&parts[i]);
        } else {
            out = parts[i].clone();
        }
        i = i + 1;
    }
    assert(p.take(n as int) =~= p);
    out
}

/// `s` with every occurrence of `from`, read from the left, replaced by `to`.
pub open spec fn replaced(s: Seq<char>, from: Seq<char>, to: Seq<char>) -> Seq<char>
    decreases s.len(),
{
    if s.len() == 0 || from.len() == 0 {
        s
    } else if from.is_prefix_of(s) {
        to + replaced(s.skip(from.len() as int), from, to)
    } else {
        seq![s[0]] + replaced(s.drop_first(), from, to)
    }
}

/// `s` with every occurrence of `from`, read from the left, replaced by `to`.
pub fn replace(s: &str, from: &str, to: &str) -> (r: String)
    requires
        from@.len() > 0,
    ensures
        r@ == replaced(s@, from@, to@),
{
    let v = chars_of(s);
    let f = chars_of(from);
    let n: usize = v.len();
    let mut out: String = String::new();
    let mut i: usize = 0;
    assert(v@.skip(0) =~= s@);
    while i < n
        invariant
            i <= n,
            n == v@.len(),
            v@ == s@,
            f@ == from@,
            f@.len() > 0,
            out@ + replaced(v@.skip(i as int), from@, to@) == replaced(s@, from@, to@),
        decreases n - i,
    {
        let ghost rest = v@.skip(i as int);
        let ghost before = out@;
        if chars_occur_at(&v, &f, i) {
            assert(rest.take(f@.len() as int) =~= v@.subrange(i as int, i + f@.len()));
            assert(from@.is_prefix_of(rest));
            assert(rest.skip(f@.len() as int) =~= v@.skip(i + f@.len()));
            out.append(to);
            assert(before + (to@ + replaced(v@.skip(i + f@.len()), from@, to@)) =~= (before + to@)
                + replaced(v@.skip(i + f@.len()), from@, to@));
            i = i + f.len();
        } else {
            assert(from@.len() <= rest.len() ==> rest.take(f@.len() as int) =~= v@.subrange(
                i as int,
                i + f@.len(),
            ));
            assert(!from@.is_prefix_of(rest));
            assert(rest.drop_first() =~= v@.skip(i + 1));
            out.push(v[i]);
            assert(before + (seq![rest[0]] + replaced(v@.skip(i + 1), from@, to@)) =~= before.push(
                rest[0],
            ) + replaced(v@.skip(i + 1), from@, to@));
            i = i + 1;
        }
    }
    assert(v@.skip(n as int) =~= Seq::<char>::empty());
    out
}

// ---------------------------------------------------------------------------
// Letter case
// ---------------------------------------------------------------------------

/// `c` with an ASCII capital made small.
pub open spec fn lowered_char(c: char) -> char {
    if 'A' <= c <= 'Z' {
        (c as int + 32) as char
    } else {
        c
    }
}

/// `s` with every ASCII capital made small.
pub open spec fn lowered(s: Seq<char>) -> Seq<char> {
    s.map_values(|c: char| lowered_char(c))
}

/// Whether two texts are the same but for the case of ASCII letters.
pub open spec fn same_name(a: Seq<char>, b: Seq<char>) -> bool {
    lowered(a) == lowered(b)
}

fn lower_char(c: char) -> (r: char)
    ensures
        r == lowered_char(c),
{
    if 'A' <= c && c <= 'Z' {
        let n: u8 = c as u8;
        (n + 32) as char
    } else {
        c
    }
}

/// `s` with every ASCII capital made small.
pub fn lower(s: &str) -> (r: String)
    ensures
        r@ == lowered(s@),
{
    let v = chars_of(s);
    let n: usize = v.len();
    let mut out: String = String::new();
    let mut i: usize = 0;
    while i < n
        invariant
            i <= n,
            n == v@.len(),
            out@ == lowered(v@.take(i as int)),
        decreases n - i,
    {
        out.push(lower_char(v[i]));
        assert(lowered(v@.take(i + 1)) =~= lowered(v@.take(i as int)).push(lowered_char(v@[i as int])));
        i = i + 1;
    }
    assert(v@.take(n as int) =~= v@);
    out
}

/// Whether two texts are the same but for the case of ASCII letters.
pub fn eq_ignore_ascii_case(a: &str, b: &str) -> (r: bool)
    ensures
        r == same_name(a@, b@),
{
    let x = lower(a);
    let y = lower(b);
    x == y
}

// ---------------------------------------------------------------------------
// Decimal numbers
// ---------------------------------------------------------------------------

/// The digit for a number below ten.
pub open spec fn digit_char(d: nat) -> char {
    (48 + d) as char
}

/// The decimal digits of `n`, without leading zeros.
pub open spec fn decimal(n: nat) -> Seq<char>
    decreases n,
{
    if n < 10 {
        seq![digit_char(n)]
    } else {
        decimal(n / 10).push(digit_char(n % 10))
    }
}

/// The decimal digits of `n`, without leading zeros.
pub fn decimal_text(n: u64) -> (r: String)
    ensures
        r@ == decimal(n as nat),
    decreases n,
{
    if n < 10 {
        let mut s: String = String::new();
        s.push((48u8 + (n as u8)) as char);
        assert(s@ =~= decimal(n as nat));
        s
    } else {
        let mut s: String = decimal_text(n / 10);
        let d: u64 = n % 10;
        s.push((48u8 + (d as u8)) as char);
        s
    }
}

/// Whether `c` is an ASCII digit.
pub open spec fn is_digit(c: char) -> bool {
    '0' <= c <= '9'
}

/// The number that a run of decimal digits writes.
pub open spec fn digits_value(s: Seq<char>) -> nat
    decreases s.len(),
{
    if s.len() == 0 {
        0
    } else {
        digits_value(s.drop_last()) * 10 + (s.last() as int - 48) as nat
    }
}

/// `s` without the plus sign that may stand before the digits of a number.
pub open spec fn without_plus(s: Seq<char>) -> Seq<char> {
    if s.len() > 1 && s[0] == '+' {
        s.drop_first()
    } else {
        s
    }
}

/// Whether every character of `s` is an ASCII digit.
pub open spec fn all_digits(s: Seq<char>) -> bool {
    forall|i: int| 0 <= i < s.len() ==> is_digit(#[trigger] s[i])
}

/// The number that `s` writes, where it is one of at most `max`: decimal digits
/// with at most one plus sign before them.
pub open spec fn parsed_number(s: Seq<char>, max: nat) -> Option<nat> {
    let d = without_plus(s);
    if d.len() > 0 && all_digits(d) && digits_value(d) <= max {
        Some(digits_value(d))
    } else {
        None
    }
}

proof fn lemma_digits_value_grows(s: Seq<char>, i: int)
    requires
        0 <= i <= s.len(),
        all_digits(s),
    ensures
        digits_value(s.take(i)) <= digits_value(s),
    decreases s.len(),
{
    if i == s.len() {
        assert(s.take(i) =~= s);
    } else {
        assert forall|k: int| 0 <= k < s.drop_last().len() implies is_digit(
            #[trigger] s.drop_last()[k],
        ) by {
            assert(is_digit(s[k]));
        }
        lemma_digits_value_grows(s.drop_last(), i);
        assert(s.drop_last().take(i) =~= s.take(i));
    }
}

/// The number that `s` writes, where it is one of at most `max`.
pub fn parse_number(s: &str, max: u64) -> (r: Option<u64>)
    ensures
        match r {
            Some(n) => parsed_number(s@, max as nat) == Some(n as nat),
            None => parsed_number(s@, max as nat) is None,
        },
{
    let v = chars_of(s);
    let n: usize = v.len();
    let start: usize = if n > 1 && v[0] == '+' {
        1
    } else {
        0
    };
    let ghost d = without_plus(s@);
    assert(d =~= v@.skip(start as int));
    if start == n {
        return None;
    }
    let mut value: u64 = 0;
    let mut i: usize = start;
    while i < n
        invariant
            start <= i <= n,
            start <= 1,
            n == v@.len(),
            v@ == s@,
            d == v@.skip(start as int),
            d.len() == n - start,
            d == without_plus(s@),
            forall|k: int| 0 <= k < i - start ==> is_digit(#[trigger] d[k]),
            value as nat == digits_value(d.take(i - start)),
            value <= max,
        decreases n - i,
    {
        let c: char = v[i];
        let ghost at = i - start;
        assert(d[at] == c);
        if !('0' <= c && c <= '9') {
            return None;
        }
        let x: u64 = (c as u8 - 48) as u64;
        assert(d.take(at + 1).drop_last() =~= d.take(at));
        assert(digits_value(d.take(at + 1)) == digits_value(d.take(at)) * 10 + x);
        if value > (u64::MAX - x) / 10 || value * 10 + x > max {
            proof {
                if all_digits(d) {
                    lemma_digits_value_grows(d, at + 1);
                }
            }
            return None;
        }
        value = value * 10 + x;
        i = i + 1;
    }
    assert(d.take(n - start) =~= d);
    Some(value)
}

// ---------------------------------------------------------------------------
// Order
// ---------------------------------------------------------------------------

/// Whether `a` comes before `b`, character by character.
pub open spec fn text_before(a: Seq<char>, b: Seq<char>) -> bool
    decreases a.len(),
{
    if b.len() == 0 {
        false
    } else if a.len() == 0 {
        true
    } else if a[0] == b[0] {
        text_before(a.drop_first(), b.drop_first())
    } else {
        a[0] < b[0]
    }
}

/// Whether a list of texts is in order without repeats.
pub open spec fn in_order(s: Seq<Seq<char>>) -> bool {
    forall|i: int, j: int| 0 <= i < j < s.len() ==> text_before(s[i], s[j])
}

pub proof fn lemma_before_total(a: Seq<char>, b: Seq<char>)
    ensures
        text_before(a, b) || text_before(b, a) || a == b,
        text_before(a, b) ==> !text_before(b, a) && a != b,
    decreases a.len(),
{
    if a.len() > 0 && b.len() > 0 && a[0] == b[0] {
        lemma_before_total(a.drop_first(), b.drop_first());
        if a.drop_first() == b.drop_first() {
            assert(a =~= seq![a[0]] + a.drop_first());
            assert(b =~= seq![b[0]] + b.drop_first());
        }
    } else if a.len() == 0 && b.len() == 0 {
        assert(a =~= b);
    }
}

pub proof fn lemma_before_transitive(a: Seq<char>, b: Seq<char>, c: Seq<char>)
    requires
        text_before(a, b),
        text_before(b, c),
    ensures
        text_before(a, c),
    decreases a.len(),
{
    if a.len() > 0 && b.len() > 0 && c.len() > 0 && a[0] == b[0] && b[0] == c[0] {
        lemma_before_transitive(a.drop_first(), b.drop_first(), c.drop_first());
    }
}

/// Whether `a` comes before `b`, character by character.
pub fn comes_before(a: &str, b: &str) -> (r: bool)
    ensures
        r == text_before(a@, b@),
{
    let x = chars_of(a);
    let y = chars_of(b);
    let mut i: usize = 0;
    assert(x@.skip(0) =~= a@);
    assert(y@.skip(0) =~= b@);
    while i < x.len() && i < y.len()
        invariant
            i <= x@.len(),
            i <= y@.len(),
            text_before(a@, b@) == text_before(x@.skip(i as int), y@.skip(i as int)),
        decreases x@.len() - i,
    {
        if x[i] != y[i] {
            return x[i] < y[i];
        }
        assert(x@.skip(i as int).drop_first() =~= x@.skip(i + 1));
        assert(y@.skip(i as int).drop_first() =~= y@.skip(i + 1));
        i = i + 1;
    }
    i < y.len()
}

/// Puts `x` into a list of texts in order, unless it is there.
pub fn insert_in_order(v: &mut Vec<String>, x: String)
    requires
        in_order(old(v).deep_view()),
    ensures
        in_order(final(v).deep_view()),
        final(v).deep_view().to_set() == old(v).deep_view().to_set().insert(x@),
{
    let ghost before = v.deep_view();
    let mut i: usize = 0;
    while i < v.len() && comes_before(&v[i], &x)
        invariant
            i <= v@.len(),
            before == v.deep_view(),
            forall|k: int| 0 <= k < i ==> text_before(before[k], x@),
        decreases v@.len() - i,
    {
        i = i + 1;
    }
    if i < v.len() && text_eq(&v[i], &x) {
        assert(before[i as int] == x@);
        assert(before.to_set().insert(x@) =~= before.to_set());
        return;
    }
    let ghost text = x@;
    v.insert(i, x);
    let ghost after = v.deep_view();
    assert(after =~= before.insert(i as int, text));
    proof {
        assert forall|k: int| i <= k < before.len() implies text_before(text, before[k]) by {
            lemma_before_total(before[i as int], text);
            if k > i {
                lemma_before_transitive(text, before[i as int], before[k]);
            }
        }
        assert forall|a: int, b: int| 0 <= a < b < after.len() implies text_before(
            after[a],
            after[b],
        ) by {
            assert(after[a] == if a < i { before[a] } else if a == i { text } else { before[a - 1] });
            assert(after[b] == if b < i { before[b] } else if b == i { text } else { before[b - 1] });
        }
        assert forall|t: Seq<char>| after.to_set().contains(t) == before.to_set().insert(
            text,
        ).contains(t) by {
            if before.contains(t) {
                let k = choose|k: int| 0 <= k < before.len() && before[k] == t;
                assert(after[if k < i { k } else { k + 1 }] == t);
            }
            if t == text {
                assert(after[i as int] == t);
            }
            if after.contains(t) {
                let k = choose|k: int| 0 <= k < after.len() && after[k] == t;
                assert(k < i ==> before[k] == t);
                assert(k > i ==> before[k - 1] == t);
            }
        }
        assert(after.to_set() =~= before.to_set().insert(text));
    }
}

// ---------------------------------------------------------------------------
// Laws
// ---------------------------------------------------------------------------

/// Whether all of a text is blank.
pub open spec fn is_blank(s: Seq<char>) -> bool {
    forall|i: int| 0 <= i < s.len() ==> is_space(#[trigger] s[i])
}

proof fn lemma_trimmed_start_cut(s: Seq<char>) -> (n: int)
    ensures
        0 <= n <= s.len(),
        is_blank(s.take(n)),
        trimmed_start(s) == s.skip(n),
        trimmed_start(s).len() > 0 ==> !is_space(trimmed_start(s)[0]),
    decreases s.len(),
{
    if s.len() > 0 && is_space(s[0]) {
        let m = lemma_trimmed_start_cut(s.drop_first());
        let n = m + 1;
        assert(s.drop_first().skip(m) =~= s.skip(n));
        assert forall|i: int| 0 <= i < n implies is_space(#[trigger] s.take(n)[i]) by {
            if i > 0 {
                assert(s.take(n)[i] == s.drop_first().take(m)[i - 1]);
            }
        }
        n
    } else {
        assert(s.skip(0) =~= s);
        0
    }
}

proof fn lemma_trimmed_end_cut(s: Seq<char>) -> (n: int)
    ensures
        0 <= n <= s.len(),
        is_blank(s.skip(n)),
        trimmed_end(s) == s.take(n),
        trimmed_end(s).len() > 0 ==> !is_space(trimmed_end(s).last()),
    decreases s.len(),
{
    if s.len() > 0 && is_space(s.last()) {
        let n = lemma_trimmed_end_cut(s.drop_last());
        assert(s.drop_last().take(n) =~= s.take(n));
        assert forall|i: int| 0 <= i < s.skip(n).len() implies is_space(#[trigger] s.skip(n)[i]) by {
            if i + n < s.len() - 1 {
                assert(s.skip(n)[i] == s.drop_last().skip(n)[i]);
            }
        }
        n
    } else {
        assert(s.take(s.len() as int) =~= s);
        s.len() as int
    }
}

/// Trimming takes the blanks off both ends of a text, and nothing else.
pub proof fn law_trimming_takes_blanks_off(s: Seq<char>)
    ensures
        exists|a: int, b: int|
            0 <= a <= b <= s.len() && #[trigger] s.subrange(a, b) == trimmed(s) && is_blank(
                s.take(a),
            ) && is_blank(s.skip(b)),
        trimmed(s).len() > 0 ==> !is_space(trimmed(s)[0]) && !is_space(trimmed(s).last()),
        is_blank(s) ==> trimmed(s).len() == 0,
{
    let a = lemma_trimmed_start_cut(s);
    let mid = trimmed_start(s);
    let n = lemma_trimmed_end_cut(mid);
    let b = a + n;
    assert(s.subrange(a, b) =~= mid.take(n));
    assert forall|i: int| 0 <= i < s.skip(b).len() implies is_space(#[trigger] s.skip(b)[i]) by {
        assert(s.skip(b)[i] == mid.skip(n)[i]);
    }
    assert(is_blank(s.skip(b)));
    assert(is_blank(s.take(a)));
    if trimmed(s).len() > 0 {
        assert(trimmed(s)[0] == mid[0]);
    }
    if is_blank(s) && trimmed(s).len() > 0 {
        assert(trimmed(s)[0] == s[a]);
    }
}

/// The pieces of a text, put together again with what they were cut at, are the text, and
/// none of them has it.
pub proof fn law_pieces_make_up_the_text(s: Seq<char>, c: char)
    ensures
        joined(pieces(s, c), seq![c]) == s,
        forall|i: int| 0 <= i < pieces(s, c).len() ==> !(#[trigger] pieces(s, c)[i]).contains(c),
    decreases s.len(),
{
    lemma_pieces_nonempty(s, c);
    if s.len() > 0 {
        let short = s.drop_last();
        law_pieces_make_up_the_text(short, c);
        lemma_pieces_nonempty(short, c);
        let before = pieces(short, c);
        let after = pieces(s, c);
        if s.last() == c {
            assert(after.drop_last() =~= before);
            assert(joined(after, seq![c]) =~= short + seq![c] + Seq::<char>::empty());
            assert(short + seq![c] + Seq::<char>::empty() =~= s);
        } else {
            assert(s =~= short.push(s.last()));
            assert(after.drop_last() =~= before.drop_last());
            assert(after.last() == before.last().push(s.last()));
            assert(after.len() == before.len());
            if before.len() == 1 {
                assert(before[0] == before.last());
                assert(joined(before, seq![c]) == before[0]);
                assert(joined(after, seq![c]) == after[0]);
            } else {
                let head = joined(before.drop_last(), seq![c]) + seq![c];
                assert(joined(before, seq![c]) == head + before.last());
                assert(joined(after, seq![c]) == head + after.last());
                assert(head + before.last().push(s.last()) =~= (head + before.last()).push(
                    s.last(),
                ));
            }
        }
        assert forall|i: int| 0 <= i < after.len() implies !(#[trigger] after[i]).contains(c) by {
            if i < before.len() - 1 {
                assert(after[i] == before[i]);
            } else if s.last() != c {
                assert(!before[before.len() - 1].contains(c));
                let p = before.last();
                assert forall|k: int| 0 <= k < p.push(s.last()).len() implies p.push(s.last())[k]
                    != c by {
                    if k < p.len() {
                        assert(p.contains(p[k]));
                    }
                }
            } else if i < before.len() {
                assert(after[i] == before[i]);
            }
        }
    } else {
        assert(joined(pieces(s, c), seq![c]) =~= s);
    }
}

/// Whether a text is a word: not empty, and without a blank.
pub open spec fn is_word(w: Seq<char>) -> bool {
    w.len() > 0 && forall|k: int| 0 <= k < w.len() ==> !is_space(#[trigger] w[k])
}

proof fn lemma_word_scan(s: Seq<char>)
    ensures
        forall|i: int| 0 <= i < word_scan(s).0.len() ==> is_word(#[trigger] word_scan(s).0[i]),
        word_scan(s).1.len() > 0 ==> is_word(word_scan(s).1),
    decreases s.len(),
{
    if s.len() > 0 {
        lemma_word_scan(s.drop_last());
        let (done, cur) = word_scan(s.drop_last());
        if !is_space(s.last()) {
            let more = cur.push(s.last());
            assert forall|k: int| 0 <= k < more.len() implies !is_space(#[trigger] more[k]) by {
                if k < cur.len() {
                    assert(more[k] == cur[k]);
                }
            }
        }
    }
}

/// The words of a text are not empty, and have no blanks in them.
pub proof fn law_words_have_no_blanks(s: Seq<char>, i: int)
    requires
        0 <= i < words(s).len(),
    ensures
        is_word(words(s)[i]),
{
    lemma_word_scan(s);
    let (done, cur) = word_scan(s);
    if i < done.len() {
        assert(words(s)[i] == done[i]);
    } else {
        assert(words(s)[i] == cur);
    }
}

/// A number that is written is read as what it was.
pub proof fn law_written_numbers_are_read(n: nat, max: nat)
    requires
        n <= max,
    ensures
        parsed_number(decimal(n), max) == Some(n),
{
    lemma_decimal_value(n);
    let d = decimal(n);
    assert(d[0] != '+') by {
        assert(is_digit(d[0]));
    }
    assert(without_plus(d) == d);
}

proof fn lemma_decimal_value(n: nat)
    ensures
        decimal(n).len() > 0,
        all_digits(decimal(n)),
        digits_value(decimal(n)) == n,
    decreases n,
{
    let d = decimal(n);
    if n < 10 {
        assert(d.drop_last() =~= Seq::<char>::empty());
        assert(digits_value(d.drop_last()) == 0);
        assert(d.last() == digit_char(n));
        assert(digit_char(n) as int == 48 + n);
    } else {
        lemma_decimal_value(n / 10);
        assert(d.drop_last() =~= decimal(n / 10));
        assert(d.last() == digit_char(n % 10));
        assert(digit_char(n % 10) as int == 48 + n % 10);
        assert forall|i: int| 0 <= i < d.len() implies is_digit(#[trigger] d[i]) by {
            if i < d.len() - 1 {
                assert(d[i] == decimal(n / 10)[i]);
            }
        }
    }
}

/// A text is no number where it has a sign or a letter in it, or is empty.
pub proof fn law_only_digits_are_a_number(s: Seq<char>, max: nat, i: int)
    ensures
        s.len() == 0 ==> parsed_number(s, max) is None,
        0 < i < s.len() && !('0' <= s[i] <= '9') ==> parsed_number(s, max) is None,
        s.len() > 0 && !('0' <= s[0] <= '9') && s[0] != '+' ==> parsed_number(s, max) is None,
        parsed_number(s, max) matches Some(n) ==> n <= max,
{
    let d = without_plus(s);
    if 0 < i < s.len() && !('0' <= s[i] <= '9') {
        if s.len() > 1 && s[0] == '+' {
            assert(d[i - 1] == s[i]);
        } else {
            assert(d[i] == s[i]);
        }
    }
    if s.len() > 0 && !('0' <= s[0] <= '9') && s[0] != '+' {
        assert(d[0] == s[0]);
    }
}

} // verus!
