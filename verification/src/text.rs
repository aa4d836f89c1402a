//! Text utilities the templates and the tags format are built on: splitting
//! on a separator character, joining segments back, whitespace trimming, and
//! association lists of key/value pairs looked up by first match.

use vstd::prelude::*;
use vstd::string::StrSliceExecFns;

verus! {

/// The segments of `s` between occurrences of the separator `c`; a string
/// without the separator is one segment, and every separator starts a new
/// segment, so the result is never empty.
pub open spec fn split_char(s: Seq<char>, c: char) -> Seq<Seq<char>>
    decreases s.len(),
{
    if s.len() == 0 {
        seq![Seq::<char>::empty()]
    } else {
        let rest = split_char(s.subrange(1, s.len() as int), c);
        if s[0] == c {
            seq![Seq::<char>::empty()] + rest
        } else {
            seq![seq![s[0]] + rest[0]] + rest.subrange(1, rest.len() as int)
        }
    }
}

/// The segments joined back with the separator between them.
pub open spec fn join_char(parts: Seq<Seq<char>>, c: char) -> Seq<char>
    decreases parts.len(),
{
    if parts.len() == 0 {
        Seq::<char>::empty()
    } else if parts.len() == 1 {
        parts[0]
    } else {
        parts[0] + seq![c] + join_char(parts.subrange(1, parts.len() as int), c)
    }
}

pub proof fn lemma_split_char_nonempty(s: Seq<char>, c: char)
    ensures
        split_char(s, c).len() >= 1,
    decreases s.len(),
{
    if s.len() > 0 {
        lemma_split_char_nonempty(s.subrange(1, s.len() as int), c);
    }
}

/// Joining the segments of a split reproduces the original string.
pub proof fn lemma_join_split(s: Seq<char>, c: char)
    ensures
        join_char(split_char(s, c), c) == s,
    decreases s.len(),
{
    if s.len() == 0 {
        assert(join_char(split_char(s, c), c) =~= s);
    } else {
        let tail = s.subrange(1, s.len() as int);
        let rest = split_char(tail, c);
        lemma_split_char_nonempty(tail, c);
        lemma_join_split(tail, c);
        if s[0] == c {
            let parts = seq![Seq::<char>::empty()] + rest;
            assert(parts.subrange(1, parts.len() as int) =~= rest);
            assert(join_char(parts, c) =~= s);
        } else {
            let parts = seq![seq![s[0]] + rest[0]] + rest.subrange(1, rest.len() as int);
            if rest.len() == 1 {
                assert(join_char(rest, c) == rest[0]);
                assert(join_char(parts, c) =~= s);
            } else {
                let j2 = join_char(rest.subrange(1, rest.len() as int), c);
                assert(parts.subrange(1, parts.len() as int) =~= rest.subrange(
                    1,
                    rest.len() as int,
                ));
                assert(join_char(parts, c) == parts[0] + seq![c] + join_char(
                    parts.subrange(1, parts.len() as int),
                    c,
                ));
                assert(join_char(rest, c) == rest[0] + seq![c] + j2);
                assert(tail == rest[0] + seq![c] + j2);
                assert(join_char(parts, c) == (seq![s[0]] + rest[0]) + seq![c] + j2);
                assert((seq![s[0]] + rest[0]) + seq![c] + j2 =~= seq![s[0]] + (rest[0] + seq![c]
                    + j2));
                assert(s =~= seq![s[0]] + tail);
            }
        }
    }
}

/// Joining after appending one more segment appends a separator and the
/// segment, except to an empty segment list.
pub proof fn lemma_join_push(parts: Seq<Seq<char>>, x: Seq<char>, c: char)
    ensures
        join_char(parts.push(x), c) == if parts.len() == 0 {
            x
        } else {
            join_char(parts, c) + seq![c] + x
        },
    decreases parts.len(),
{
    if parts.len() == 0 {
        assert(parts.push(x) =~= seq![x]);
        assert(join_char(parts.push(x), c) == x);
    } else {
        let tail = parts.subrange(1, parts.len() as int);
        lemma_join_push(tail, x, c);
        assert(parts.push(x).subrange(1, parts.push(x).len() as int) =~= tail.push(x));
        assert(parts.push(x)[0] == parts[0]);
        if parts.len() == 1 {
            assert(tail.len() == 0);
            assert(join_char(parts.push(x), c) == parts[0] + seq![c] + x);
            assert(join_char(parts, c) == parts[0]);
        } else {
            assert(join_char(parts.push(x), c) == parts[0] + seq![c] + (join_char(tail, c)
                + seq![c] + x));
            assert(join_char(parts, c) == parts[0] + seq![c] + join_char(tail, c));
            assert(parts[0] + seq![c] + (join_char(tail, c) + seq![c] + x) =~= (parts[0] + seq![c]
                + join_char(tail, c)) + seq![c] + x);
        }
    }
}

/// `parts` with its first segment extended at the front by `x`.
pub open spec fn prepend_first(x: Seq<char>, parts: Seq<Seq<char>>) -> Seq<Seq<char>>
    recommends
        parts.len() > 0,
{
    seq![x + parts[0]] + parts.subrange(1, parts.len() as int)
}

/// Splits a string at every occurrence of the separator.
pub fn split_string(s: &str, sep: char) -> (r: Vec<String>)
    ensures
        r.deep_view() == split_char(s@, sep),
        r@.len() >= 1,
{
    let tn = s.unicode_len();
    let mut r: Vec<String> = Vec::new();
    let ghost mut emitted: Seq<Seq<char>> = Seq::empty();
    let mut seg_start: usize = 0;
    let mut i: usize = 0;
    proof {
        lemma_split_char_nonempty(s@, sep);
        assert(s@.subrange(0, tn as int) =~= s@);
        assert(split_char(s@, sep) =~~= emitted + prepend_first(
            s@.subrange(0, 0),
            split_char(s@.subrange(0, tn as int), sep),
        ));
    }
    while i < tn
        invariant
            seg_start <= i <= tn,
            tn == s@.len(),
            r.deep_view() == emitted,
            r@.len() == emitted.len(),
            split_char(s@, sep) == emitted + prepend_first(
                s@.subrange(seg_start as int, i as int),
                split_char(s@.subrange(i as int, tn as int), sep),
            ),
        decreases tn - i,
    {
        let ghost cur = s@.subrange(seg_start as int, i as int);
        let ghost suffix = s@.subrange(i as int, tn as int);
        let ghost next_suffix = s@.subrange(i + 1, tn as int);
        proof {
            assert(suffix.len() > 0);
            assert(suffix[0] == s@[i as int]);
            assert(suffix.subrange(1, suffix.len() as int) =~= next_suffix);
            lemma_split_char_nonempty(next_suffix, sep);
        }
        let c = s.get_char(i);
        if c == sep {
            proof {
                assert(split_char(suffix, sep) =~~= seq![Seq::<char>::empty()] + split_char(
                    next_suffix,
                    sep,
                ));
                assert(prepend_first(cur, split_char(suffix, sep)) =~~= seq![cur] + prepend_first(
                    Seq::<char>::empty(),
                    split_char(next_suffix, sep),
                ));
                assert(split_char(s@, sep) =~~= emitted.push(cur) + prepend_first(
                    Seq::<char>::empty(),
                    split_char(next_suffix, sep),
                ));
            }
            let seg = s.substring_char(seg_start, i);
            assert(seg@ =~= cur);
            let ghost old_dv = r.deep_view();
            r.push(seg.to_owned());
            proof {
                assert(r.deep_view() =~= old_dv.push(cur));
                emitted = emitted.push(cur);
            }
            seg_start = i + 1;
        } else {
            proof {
                let rest = split_char(next_suffix, sep);
                assert(split_char(suffix, sep) =~~= seq![seq![suffix[0]] + rest[0]]
                    + rest.subrange(1, rest.len() as int));
                assert(prepend_first(cur, split_char(suffix, sep)) =~~= prepend_first(
                    s@.subrange(seg_start as int, i + 1),
                    rest,
                ));
            }
        }
        i = i + 1;
    }
    let ghost cur = s@.subrange(seg_start as int, tn as int);
    proof {
        assert(s@.subrange(tn as int, tn as int) =~= Seq::<char>::empty());
        assert(split_char(Seq::<char>::empty(), sep) =~~= seq![Seq::<char>::empty()]);
        assert(prepend_first(cur, seq![Seq::<char>::empty()]) =~~= seq![cur]);
        assert(split_char(s@, sep) =~~= emitted.push(cur));
    }
    let seg = s.substring_char(seg_start, tn);
    assert(seg@ =~= cur);
    let ghost old_dv = r.deep_view();
    r.push(seg.to_owned());
    proof {
        assert(r.deep_view() =~= old_dv.push(cur));
    }
    r
}

/// The whitespace characters, as the Unicode `White_Space` property lists
/// them; the same set that `str::trim` removes.
pub open spec fn is_space(c: char) -> bool {
    c == ' ' || c == '\t' || c == '\n' || c == '\r' || c == '\u{0B}' || c == '\u{0C}' || c
        == '\u{85}' || c == '\u{A0}' || c == '\u{1680}' || c == '\u{2000}' || c == '\u{2001}' || c
        == '\u{2002}' || c == '\u{2003}' || c == '\u{2004}' || c == '\u{2005}' || c == '\u{2006}'
        || c == '\u{2007}' || c == '\u{2008}' || c == '\u{2009}' || c == '\u{200A}' || c
        == '\u{2028}' || c == '\u{2029}' || c == '\u{202F}' || c == '\u{205F}' || c == '\u{3000}'
}

/// Whether one character is whitespace.
pub fn is_space_char(c: char) -> (r: bool)
    ensures
        r == is_space(c),
{
    c == ' ' || c == '\t' || c == '\n' || c == '\r' || c == '\u{0B}' || c == '\u{0C}' || c
        == '\u{85}' || c == '\u{A0}' || c == '\u{1680}' || c == '\u{2000}' || c == '\u{2001}' || c
        == '\u{2002}' || c == '\u{2003}' || c == '\u{2004}' || c == '\u{2005}' || c == '\u{2006}'
        || c == '\u{2007}' || c == '\u{2008}' || c == '\u{2009}' || c == '\u{200A}' || c
        == '\u{2028}' || c == '\u{2029}' || c == '\u{202F}' || c == '\u{205F}' || c == '\u{3000}'
}

/// `s` without its leading whitespace.
pub open spec fn trim_start_spec(s: Seq<char>) -> Seq<char>
    decreases s.len(),
{
    if s.len() > 0 && is_space(s[0]) {
        trim_start_spec(s.subrange(1, s.len() as int))
    } else {
        s
    }
}

/// `s` without its trailing whitespace.
pub open spec fn trim_end_spec(s: Seq<char>) -> Seq<char>
    decreases s.len(),
{
    if s.len() > 0 && is_space(s.last()) {
        trim_end_spec(s.drop_last())
    } else {
        s
    }
}

/// `s` without leading and trailing whitespace.
pub open spec fn trim_spec(s: Seq<char>) -> Seq<char> {
    trim_end_spec(trim_start_spec(s))
}

proof fn lemma_trim_start_at(s: Seq<char>, a: int)
    requires
        0 <= a <= s.len(),
        forall|j: int| 0 <= j < a ==> is_space(s[j]),
        a == s.len() || !is_space(s[a]),
    ensures
        trim_start_spec(s) == s.subrange(a, s.len() as int),
    decreases a,
{
    if a == 0 {
        if s.len() > 0 && is_space(s[0]) {
            assert(false);
        }
        assert(trim_start_spec(s) =~= s.subrange(0, s.len() as int));
    } else {
        let tail = s.subrange(1, s.len() as int);
        assert(is_space(s[0]));
        lemma_trim_start_at(tail, a - 1);
        assert(tail.subrange(a - 1, tail.len() as int) =~= s.subrange(a, s.len() as int));
    }
}

proof fn lemma_trim_end_at(s: Seq<char>, b: int)
    requires
        0 <= b <= s.len(),
        forall|j: int| b <= j < s.len() ==> is_space(s[j]),
        b == 0 || !is_space(s[b - 1]),
    ensures
        trim_end_spec(s) == s.subrange(0, b),
    decreases s.len() - b,
{
    if b == s.len() {
        if s.len() > 0 && is_space(s.last()) {
            assert(false);
        }
        assert(trim_end_spec(s) =~= s.subrange(0, b));
    } else {
        let head = s.drop_last();
        assert(is_space(s.last()));
        lemma_trim_end_at(head, b);
        assert(head.subrange(0, b) =~= s.subrange(0, b));
    }
}

/// Removes leading and trailing whitespace.
pub fn trim_string(s: &str) -> (r: String)
    ensures
        r@ == trim_spec(s@),
{
    let n = s.unicode_len();
    let mut a: usize = 0;
    while a < n && is_space_char(s.get_char(a))
        invariant
            a <= n,
            n == s@.len(),
            forall|j: int| 0 <= j < a ==> is_space(s@[j]),
        decreases n - a,
    {
        a = a + 1;
    }
    let mut b: usize = n;
    while b > a && is_space_char(s.get_char(b - 1))
        invariant
            a <= b <= n,
            n == s@.len(),
            forall|j: int| b <= j < n ==> is_space(s@[j]),
        decreases b,
    {
        b = b - 1;
    }
    let r = s.substring_char(a, b);
    proof {
        lemma_trim_start_at(s@, a as int);
        let t = s@.subrange(a as int, n as int);
        if b == a {
            lemma_trim_end_at(t, 0);
        } else {
            assert(!is_space(s@[a as int]));
            assert(t[b - a - 1] == s@[b - 1]);
            lemma_trim_end_at(t, b - a);
        }
        assert(t.subrange(0, b - a) =~= s@.subrange(a as int, b as int));
    }
    r.to_owned()
}

/// The value for `key` in an association list: the value of the first pair
/// whose key matches, if any.
pub open spec fn lookup_spec<T>(pairs: Seq<(Seq<char>, T)>, key: Seq<char>) -> Option<T>
    decreases pairs.len(),
{
    if pairs.len() == 0 {
        None
    } else if pairs[0].0 == key {
        Some(pairs[0].1)
    } else {
        lookup_spec(pairs.subrange(1, pairs.len() as int), key)
    }
}

proof fn lemma_lookup_advance<T>(pairs: Seq<(Seq<char>, T)>, key: Seq<char>, i: int)
    requires
        0 <= i <= pairs.len(),
        forall|j: int| 0 <= j < i ==> (#[trigger] pairs[j]).0 != key,
    ensures
        lookup_spec(pairs, key) == lookup_spec(pairs.subrange(i, pairs.len() as int), key),
    decreases i,
{
    if i > 0 {
        assert((pairs[0]).0 != key);
        let tail = pairs.subrange(1, pairs.len() as int);
        assert forall|j: int| 0 <= j < i - 1 implies (#[trigger] tail[j]).0 != key by {
            assert(tail[j] == pairs[j + 1]);
        }
        lemma_lookup_advance(tail, key, i - 1);
        assert(lookup_spec(pairs, key) == lookup_spec(tail, key));
        assert(tail.subrange(i - 1, tail.len() as int) =~= pairs.subrange(
            i,
            pairs.len() as int,
        ));
    } else {
        assert(pairs.subrange(0, pairs.len() as int) =~= pairs);
    }
}

/// Looks `key` up in an association list; the first matching pair wins.
pub fn assoc_lookup<'a, V: DeepView>(pairs: &'a Vec<(String, V)>, key: &String) -> (r: Option<
    &'a V,
>)
    ensures
        match r {
            Some(v) => lookup_spec(pairs.deep_view(), key@) == Some(v.deep_view()),
            None => lookup_spec(pairs.deep_view(), key@) is None,
        },
{
    let mut i: usize = 0;
    while i < pairs.len()
        invariant
            i <= pairs.len(),
            pairs@.len() == pairs.deep_view().len(),
            forall|j: int| 0 <= j < i ==> (#[trigger] pairs.deep_view()[j]).0 != key@,
        decreases pairs.len() - i,
    {
        assert(pairs.deep_view()[i as int] == (pairs@[i as int].0@, pairs@[i as int].1.deep_view()));
        if pairs[i].0 == *key {
            proof {
                lemma_lookup_advance(pairs.deep_view(), key@, i as int);
                let rest = pairs.deep_view().subrange(i as int, pairs.deep_view().len() as int);
                assert(rest[0] == pairs.deep_view()[i as int]);
            }
            return Some(&pairs[i].1);
        }
        i = i + 1;
    }
    proof {
        lemma_lookup_advance(pairs.deep_view(), key@, pairs.deep_view().len() as int);
        assert(pairs.deep_view().subrange(
            pairs.deep_view().len() as int,
            pairs.deep_view().len() as int,
        ) =~= Seq::<(Seq<char>, V::V)>::empty());
    }
    None
}

/// Filtering after appending one element appends the element when it passes
/// the predicate.
pub proof fn lemma_filter_push<A>(s: Seq<A>, x: A, pred: spec_fn(A) -> bool)
    ensures
        s.push(x).filter(pred) == s.filter(pred) + (if pred(x) {
            seq![x]
        } else {
            Seq::<A>::empty()
        }),
{
    reveal(Seq::filter);
    assert(s.push(x).drop_last() =~= s);
    assert(s.push(x).last() == x);
    if pred(x) {
        assert(s.push(x).filter(pred) =~= s.filter(pred) + seq![x]);
    } else {
        assert(s.push(x).filter(pred) =~= s.filter(pred) + Seq::<A>::empty());
    }
}

/// Every element of a filtered sequence occurs in the sequence.
pub proof fn lemma_filter_element_of<A>(s: Seq<A>, pred: spec_fn(A) -> bool)
    ensures
        forall|i: int|
            0 <= i < s.filter(pred).len() ==> s.contains(#[trigger] s.filter(pred)[i]),
    decreases s.len(),
{
    reveal(Seq::filter);
    if s.len() > 0 {
        let head = s.drop_last();
        lemma_filter_element_of(head, pred);
        assert forall|i: int| 0 <= i < s.filter(pred).len() implies s.contains(
            #[trigger] s.filter(pred)[i],
        ) by {
            if i < head.filter(pred).len() {
                assert(head.filter(pred)[i] == s.filter(pred)[i]);
                let j = choose|j: int| 0 <= j < head.len() && head[j] == head.filter(pred)[i];
                assert(s[j] == s.filter(pred)[i]);
            } else {
                assert(s.filter(pred)[i] == s.last());
            }
        }
    }
}

/// Filtering with a predicate that holds of every element changes nothing.
pub proof fn lemma_filter_all<A>(s: Seq<A>, pred: spec_fn(A) -> bool)
    requires
        forall|i: int| 0 <= i < s.len() ==> pred(#[trigger] s[i]),
    ensures
        s.filter(pred) == s,
    decreases s.len(),
{
    reveal(Seq::filter);
    if s.len() > 0 {
        let head = s.drop_last();
        assert forall|i: int| 0 <= i < head.len() implies pred(#[trigger] head[i]) by {
            assert(head[i] == s[i]);
        }
        lemma_filter_all(head, pred);
        assert(pred(s.last()));
        assert(s.filter(pred) =~= s);
    } else {
        assert(s.filter(pred) =~= s);
    }
}

/// Filtering distributes over concatenation.
pub proof fn lemma_filter_concat<A>(a: Seq<A>, b: Seq<A>, pred: spec_fn(A) -> bool)
    ensures
        (a + b).filter(pred) == a.filter(pred) + b.filter(pred),
    decreases b.len(),
{
    reveal(Seq::filter);
    if b.len() == 0 {
        assert(a + b =~= a);
        assert(a.filter(pred) + b.filter(pred) =~= a.filter(pred));
    } else {
        lemma_filter_concat(a, b.drop_last(), pred);
        assert((a + b).drop_last() =~= a + b.drop_last());
        assert((a + b).last() == b.last());
        if pred(b.last()) {
            assert((a + b).filter(pred) == (a + b.drop_last()).filter(pred).push(b.last()));
            assert(a.filter(pred) + b.filter(pred) =~= (a.filter(pred) + b.drop_last().filter(
                pred,
            )).push(b.last()));
        }
    }
}

/// Two predicates that agree on every element filter alike.
pub proof fn lemma_filter_congruent<A>(s: Seq<A>, p: spec_fn(A) -> bool, q: spec_fn(A) -> bool)
    requires
        forall|i: int| 0 <= i < s.len() ==> p(#[trigger] s[i]) == q(s[i]),
    ensures
        s.filter(p) == s.filter(q),
    decreases s.len(),
{
    reveal(Seq::filter);
    if s.len() > 0 {
        let head = s.drop_last();
        assert forall|i: int| 0 <= i < head.len() implies p(#[trigger] head[i]) == q(head[i]) by {
            assert(head[i] == s[i]);
        }
        lemma_filter_congruent(head, p, q);
        assert(p(s.last()) == q(s.last()));
    }
}

/// Filtering with a predicate that holds of no element leaves nothing.
pub proof fn lemma_filter_none<A>(s: Seq<A>, pred: spec_fn(A) -> bool)
    requires
        forall|i: int| 0 <= i < s.len() ==> !pred(#[trigger] s[i]),
    ensures
        s.filter(pred) == Seq::<A>::empty(),
    decreases s.len(),
{
    reveal(Seq::filter);
    if s.len() > 0 {
        let head = s.drop_last();
        assert forall|i: int| 0 <= i < head.len() implies !pred(#[trigger] head[i]) by {
            assert(head[i] == s[i]);
        }
        lemma_filter_none(head, pred);
        assert(!pred(s.last()));
    }
}

} // verus!
