//! Paths as sequences of name segments, and the deterministic renaming used
//! to resolve collisions between computed view paths.
//!
//! When a computed view path is already taken, the builder renames it by
//! appending a counter to the final segment: the first alternative appends
//! `.1`, the next replaces that with `.2`, and so on. The `k`-th candidate of
//! a path is therefore its final segment with `.k` appended, and the resolved
//! path is the first candidate, counting from the original path itself, that
//! is not already occupied.

use vstd::prelude::*;
use vstd::string::StringExecFns;

verus! {

/// One path is a prefix of another when every segment of the first appears,
/// in order, at the start of the second.
pub open spec fn is_seg_prefix(a: Seq<Seq<char>>, b: Seq<Seq<char>>) -> bool {
    a.len() <= b.len() && a == b.subrange(0, a.len() as int)
}

/// Whether `a` is a prefix of `b`, comparing segment by segment.
pub fn seg_prefix(a: &Vec<String>, b: &Vec<String>) -> (r: bool)
    ensures
        r == is_seg_prefix(a.deep_view(), b.deep_view()),
{
    if a.len() > b.len() {
        assert(!is_seg_prefix(a.deep_view(), b.deep_view()));
        return false;
    }
    let mut i: usize = 0;
    while i < a.len()
        invariant
            i <= a.len() <= b.len(),
            a@.len() == a.deep_view().len(),
            b@.len() == b.deep_view().len(),
            forall|j: int| 0 <= j < i ==> a.deep_view()[j] == b.deep_view()[j],
        decreases a.len() - i,
    {
        assert(a.deep_view()[i as int] == a@[i as int]@);
        assert(b.deep_view()[i as int] == b@[i as int]@);
        if a[i] != b[i] {
            assert(a.deep_view()[i as int] != b.deep_view()[i as int]);
            assert(!is_seg_prefix(a.deep_view(), b.deep_view()));
            return false;
        }
        i = i + 1;
    }
    assert(a.deep_view() =~= b.deep_view().subrange(0, a.len() as int));
    true
}

/// Two paths are equal when they consist of the same segments.
pub fn seg_path_eq(a: &Vec<String>, b: &Vec<String>) -> (r: bool)
    ensures
        r == (a.deep_view() == b.deep_view()),
{
    if a.len() != b.len() {
        assert(a.deep_view().len() != b.deep_view().len());
        return false;
    }
    let r = seg_prefix(a, b);
    if r {
        assert(a.deep_view() =~= b.deep_view());
    } else {
        proof {
            if a.deep_view() == b.deep_view() {
                assert(b.deep_view().subrange(0, a.deep_view().len() as int) =~= a.deep_view());
            }
        }
    }
    r
}

/// A fresh copy of a path.
pub fn clone_path(p: &Vec<String>) -> (r: Vec<String>)
    ensures
        r.deep_view() == p.deep_view(),
{
    let mut r: Vec<String> = Vec::new();
    let mut i: usize = 0;
    while i < p.len()
        invariant
            i <= p.len(),
            r.deep_view() =~= p.deep_view().subrange(0, i as int),
            r@.len() == i,
        decreases p.len() - i,
    {
        r.push(p[i].clone());
        assert(r.deep_view() =~= p.deep_view().subrange(0, i + 1 as int));
        i = i + 1;
    }
    assert(r.deep_view() =~= p.deep_view());
    r
}

/// Whether a list of paths contains the given path.
pub fn paths_contain(paths: &Vec<Vec<String>>, p: &Vec<String>) -> (r: bool)
    ensures
        r == paths.deep_view().contains(p.deep_view()),
{
    let mut i: usize = 0;
    while i < paths.len()
        invariant
            i <= paths.len(),
            paths@.len() == paths.deep_view().len(),
            forall|j: int| 0 <= j < i ==> paths.deep_view()[j] != p.deep_view(),
        decreases paths.len() - i,
    {
        assert(paths.deep_view()[i as int] == paths@[i as int].deep_view());
        if seg_path_eq(&paths[i], p) {
            assert(paths.deep_view().contains(p.deep_view()));
            return true;
        }
        i = i + 1;
    }
    assert(!paths.deep_view().contains(p.deep_view()));
    false
}

/// The character for one decimal digit.
pub open spec fn digit_char(d: nat) -> char {
    if d == 0 { '0' }
    else if d == 1 { '1' }
    else if d == 2 { '2' }
    else if d == 3 { '3' }
    else if d == 4 { '4' }
    else if d == 5 { '5' }
    else if d == 6 { '6' }
    else if d == 7 { '7' }
    else if d == 8 { '8' }
    else { '9' }
}

/// The decimal rendering of a natural number, most significant digit first.
pub open spec fn dec_digits(n: nat) -> Seq<char>
    decreases n,
{
    if n < 10 {
        seq![digit_char(n)]
    } else {
        dec_digits(n / 10).push(digit_char(n % 10))
    }
}

fn digit_str(d: u64) -> (r: &'static str)
    requires
        d < 10,
    ensures
        r@ =~= seq![digit_char(d as nat)],
{
    proof {
        reveal_strlit("0");
        reveal_strlit("1");
        reveal_strlit("2");
        reveal_strlit("3");
        reveal_strlit("4");
        reveal_strlit("5");
        reveal_strlit("6");
        reveal_strlit("7");
        reveal_strlit("8");
        reveal_strlit("9");
    }
    match d {
        0 => "0",
        1 => "1",
        2 => "2",
        3 => "3",
        4 => "4",
        5 => "5",
        6 => "6",
        7 => "7",
        8 => "8",
        _ => "9",
    }
}

/// The decimal rendering of a counter, as a string.
pub fn u64_to_dec(n: u64) -> (r: String)
    ensures
        r@ == dec_digits(n as nat),
    decreases n,
{
    if n < 10 {
        let r = String::from_str(digit_str(n));
        assert(r@ =~= dec_digits(n as nat));
        r
    } else {
        let mut r = u64_to_dec(n / 10);
        r.append(digit_str(n % 10));
        assert(r@ =~= dec_digits(n as nat));
        r
    }
}

proof fn lemma_dec_digits_len(n: nat)
    ensures
        dec_digits(n).len() >= 1,
        n >= 10 ==> dec_digits(n).len() >= 2,
    decreases n,
{
    if n >= 10 {
        lemma_dec_digits_len(n / 10);
    }
}

/// Distinct numbers have distinct decimal renderings.
proof fn lemma_dec_digits_injective(a: nat, b: nat)
    requires
        dec_digits(a) == dec_digits(b),
    ensures
        a == b,
    decreases a + b,
{
    lemma_dec_digits_len(a);
    lemma_dec_digits_len(b);
    if a < 10 && b < 10 {
        assert(dec_digits(a)[0] == digit_char(a));
        assert(dec_digits(b)[0] == digit_char(b));
    } else if a < 10 && b >= 10 {
        assert(dec_digits(a).len() == 1);
        assert(dec_digits(b).len() == dec_digits(b / 10).len() + 1);
    } else if a >= 10 && b < 10 {
        assert(dec_digits(b).len() == 1);
        assert(dec_digits(a).len() == dec_digits(a / 10).len() + 1);
    } else {
        assert(dec_digits(a).last() == digit_char(a % 10));
        assert(dec_digits(b).last() == digit_char(b % 10));
        assert(a % 10 == b % 10);
        assert(dec_digits(a).drop_last() =~= dec_digits(a / 10));
        assert(dec_digits(b).drop_last() =~= dec_digits(b / 10));
        lemma_dec_digits_injective(a / 10, b / 10);
    }
}

/// The final segment of the `k`-th collision candidate: the segment itself
/// for `k == 0`, and the segment with `.k` appended for later candidates.
pub open spec fn candidate_seg(name: Seq<char>, k: nat) -> Seq<char> {
    if k == 0 {
        name
    } else {
        name + seq!['.'] + dec_digits(k)
    }
}

/// The `k`-th collision candidate of a path: the path with its final segment
/// replaced by the `k`-th candidate segment.
pub open spec fn candidate_path(p: Seq<Seq<char>>, k: nat) -> Seq<Seq<char>>
    recommends
        p.len() > 0,
{
    p.drop_last().push(candidate_seg(p.last(), k))
}

proof fn lemma_candidate_seg_injective(name: Seq<char>, k1: nat, k2: nat)
    requires
        k1 != k2,
    ensures
        candidate_seg(name, k1) != candidate_seg(name, k2),
{
    lemma_dec_digits_len(k1);
    lemma_dec_digits_len(k2);
    if k1 == 0 || k2 == 0 {
        assert(candidate_seg(name, k1).len() != candidate_seg(name, k2).len());
    } else {
        if candidate_seg(name, k1) == candidate_seg(name, k2) {
            let c1 = candidate_seg(name, k1);
            let c2 = candidate_seg(name, k2);
            assert(c1.len() == name.len() + 1 + dec_digits(k1).len());
            assert(c2.len() == name.len() + 1 + dec_digits(k2).len());
            assert(dec_digits(k1) =~= c1.subrange(name.len() as int + 1, c1.len() as int));
            assert(dec_digits(k2) =~= c2.subrange(name.len() as int + 1, c2.len() as int));
            lemma_dec_digits_injective(k1, k2);
        }
    }
}

pub proof fn lemma_candidate_path_injective(p: Seq<Seq<char>>, k1: nat, k2: nat)
    requires
        p.len() > 0,
        k1 != k2,
    ensures
        candidate_path(p, k1) != candidate_path(p, k2),
{
    lemma_candidate_seg_injective(p.last(), k1, k2);
    assert(candidate_path(p, k1).last() == candidate_seg(p.last(), k1));
    assert(candidate_path(p, k2).last() == candidate_seg(p.last(), k2));
}

/// Among the first `occ.len() + 1` candidates counted from `lo`, at least one
/// is not occupied: the candidates are pairwise distinct, and there are more
/// of them than occupied paths.
proof fn lemma_exists_free_candidate(p: Seq<Seq<char>>, occ: Seq<Seq<Seq<char>>>, lo: nat)
    requires
        p.len() > 0,
    ensures
        exists|k: nat|
            lo <= k <= lo + occ.len() && !occ.contains(#[trigger] candidate_path(p, k)),
    decreases occ.len(),
{
    if !occ.contains(candidate_path(p, lo)) {
        assert(lo <= lo <= lo + occ.len() && !occ.contains(candidate_path(p, lo)));
    } else {
        let i = choose|i: int| 0 <= i < occ.len() && occ[i] == candidate_path(p, lo);
        let occ2 = occ.remove(i);
        lemma_exists_free_candidate(p, occ2, lo + 1);
        let k = choose|k: nat|
            lo + 1 <= k <= lo + 1 + occ2.len() && !occ2.contains(
                #[trigger] candidate_path(p, k),
            );
        lemma_candidate_path_injective(p, lo, k);
        if occ.contains(candidate_path(p, k)) {
            let j = choose|j: int| 0 <= j < occ.len() && occ[j] == candidate_path(p, k);
            if j == i {
                assert(candidate_path(p, lo) == candidate_path(p, k));
            } else if j < i {
                assert(occ2[j] == occ[j]);
                assert(occ2.contains(candidate_path(p, k)));
            } else {
                assert(occ2[j - 1] == occ[j]);
                assert(occ2.contains(candidate_path(p, k)));
            }
        }
        assert(lo <= k <= lo + occ.len() && !occ.contains(candidate_path(p, k)));
    }
}

/// The first free candidate index at or after `k`, looking at most `fuel`
/// indices ahead; returns `k + fuel` if every inspected candidate is taken.
pub open spec fn first_free_from(
    p: Seq<Seq<char>>,
    occ: Seq<Seq<Seq<char>>>,
    k: nat,
    fuel: nat,
) -> nat
    decreases fuel,
{
    if fuel == 0 {
        k
    } else if !occ.contains(candidate_path(p, k)) {
        k
    } else {
        first_free_from(p, occ, k + 1, (fuel - 1) as nat)
    }
}

/// The index of the first collision candidate of `p` that does not occur in
/// `occ`; index 0 is the path itself.
pub open spec fn first_free_index(p: Seq<Seq<char>>, occ: Seq<Seq<Seq<char>>>) -> nat {
    first_free_from(p, occ, 0, occ.len() + 1)
}

/// The path that the collision policy assigns to `p` when the paths in `occ`
/// are already taken.
pub open spec fn resolve_spec(p: Seq<Seq<char>>, occ: Seq<Seq<Seq<char>>>) -> Seq<Seq<char>> {
    candidate_path(p, first_free_index(p, occ))
}

proof fn lemma_first_free_from(p: Seq<Seq<char>>, occ: Seq<Seq<Seq<char>>>, k: nat, fuel: nat)
    requires
        p.len() > 0,
        exists|kf: nat|
            k <= kf < k + fuel && !occ.contains(#[trigger] candidate_path(p, kf)),
    ensures
        !occ.contains(candidate_path(p, first_free_from(p, occ, k, fuel))),
        forall|j: nat|
            k <= j < first_free_from(p, occ, k, fuel) ==> occ.contains(
                #[trigger] candidate_path(p, j),
            ),
        first_free_from(p, occ, k, fuel) < k + fuel,
    decreases fuel,
{
    if fuel > 0 && occ.contains(candidate_path(p, k)) {
        let kf = choose|kf: nat|
            k <= kf < k + fuel && !occ.contains(#[trigger] candidate_path(p, kf));
        assert(kf != k);
        assert(k + 1 <= kf < k + 1 + (fuel - 1));
        lemma_first_free_from(p, occ, k + 1, (fuel - 1) as nat);
    }
}

/// The first free candidate index exists, is at most `occ.len()`, is itself
/// free, and every candidate before it is occupied.
pub proof fn lemma_first_free_index(p: Seq<Seq<char>>, occ: Seq<Seq<Seq<char>>>)
    requires
        p.len() > 0,
    ensures
        !occ.contains(candidate_path(p, first_free_index(p, occ))),
        forall|j: nat|
            j < first_free_index(p, occ) ==> occ.contains(#[trigger] candidate_path(p, j)),
        first_free_index(p, occ) <= occ.len(),
{
    lemma_exists_free_candidate(p, occ, 0);
    lemma_first_free_from(p, occ, 0, occ.len() + 1);
}

/// The `k`-th collision candidate of a path.
pub fn nth_candidate(path: &Vec<String>, k: u64) -> (r: Vec<String>)
    requires
        path@.len() > 0,
    ensures
        r.deep_view() == candidate_path(path.deep_view(), k as nat),
{
    let mut r = clone_path(path);
    if k == 0 {
        assert(r.deep_view() =~= candidate_path(path.deep_view(), 0));
        return r;
    }
    proof {
        reveal_strlit(".");
        assert(r@.len() == r.deep_view().len());
        assert(path@.len() == path.deep_view().len());
    }
    let mut seg = r.pop().unwrap();
    seg.append(".");
    let digits = u64_to_dec(k);
    seg.append(digits.as_str());
    assert(seg@ =~= candidate_seg(path.deep_view().last(), k as nat));
    r.push(seg);
    assert(r.deep_view() =~= candidate_path(path.deep_view(), k as nat));
    r
}

/// The collision policy: the resolved path for `p` given the set of already
/// occupied paths, namely the first free candidate, counting the unrenamed
/// path itself as candidate zero.
pub fn resolve_collision(path: &Vec<String>, occupied: &Vec<Vec<String>>) -> (r: (Vec<String>, u64))
    requires
        path@.len() > 0,
    ensures
        r.0.deep_view() == resolve_spec(path.deep_view(), occupied.deep_view()),
        r.1 as nat == first_free_index(path.deep_view(), occupied.deep_view()),
{
    proof {
        lemma_first_free_index(path.deep_view(), occupied.deep_view());
    }
    let n_occ = occupied.len();
    let ghost kstar = first_free_index(path.deep_view(), occupied.deep_view());
    proof {
        assert(n_occ as nat == occupied.deep_view().len());
    }
    let mut k: u64 = 0;
    loop
        invariant
            path@.len() > 0,
            n_occ as nat == occupied.deep_view().len(),
            k as nat <= kstar <= occupied.deep_view().len(),
            kstar == first_free_index(path.deep_view(), occupied.deep_view()),
            !occupied.deep_view().contains(candidate_path(path.deep_view(), kstar)),
        decreases kstar - k as nat,
    {
        let cand = nth_candidate(path, k);
        if !paths_contain(occupied, &cand) {
            proof {
                if (k as nat) < kstar {
                    lemma_first_free_index(path.deep_view(), occupied.deep_view());
                    assert(occupied.deep_view().contains(
                        candidate_path(path.deep_view(), k as nat),
                    ));
                }
                assert(k as nat == kstar);
            }
            return (cand, k);
        }
        proof {
            if k as nat == kstar {
                assert(!occupied.deep_view().contains(
                    candidate_path(path.deep_view(), kstar),
                ));
            }
        }
        k = k + 1;
    }
}

} // verus!
