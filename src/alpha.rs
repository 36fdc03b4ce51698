use vstd::prelude::*;
use crate::separator::VertexSeparator;

verus! {

/// The integers of the scoring equation `a ln t - terms ln 2 + ln(1 + t^(a - b)) = 0`:
/// `a` and `b` are the numbers of vertices removed from the two sub-instances,
/// and `terms` is the base-2 logarithm of the number of diagrams.
#[derive(Clone, Copy, Debug, PartialEq, Eq, Structural)]
pub struct AlphaParams {
    pub a: usize,
    pub b: usize,
    pub terms: i128,
}

pub open spec fn spec_min(x: int, y: int) -> int {
    if x <= y { x } else { y }
}

pub open spec fn spec_max(x: int, y: int) -> int {
    if x <= y { y } else { x }
}

/// `s[i]` is not repeated before position `i`.
pub open spec fn first_occurrence(s: Seq<usize>, i: int) -> bool {
    forall|j: int| 0 <= j < i ==> s[j] != s[i]
}

/// The number of distinct vertices among `s[..k]` that lie in `cut`.
pub open spec fn distinct_in(s: Seq<usize>, cut: Seq<usize>, k: int) -> nat
    decreases k,
{
    if k <= 0 {
        0
    } else {
        distinct_in(s, cut, k - 1) + if first_occurrence(s, k - 1) && cut.contains(s[k - 1]) {
            1nat
        } else {
            0nat
        }
    }
}

/// How a cover subset `s` shifts the sub-instance sizes: `2` when all but one
/// of its vertices lie in the cut (the larger side loses one), `1` when
/// exactly one does (the smaller side loses one), `0` otherwise.
pub open spec fn subset_kind(s: Seq<usize>, cut: Seq<usize>) -> int {
    let x = distinct_in(s, cut, s.len() as int);
    if s.len() > 0 && x == s.len() - 1 {
        2
    } else if x == 1 {
        1
    } else {
        0
    }
}

/// The number of subsets among `cover[..k]` of kind `kind`.
pub open spec fn count_kind(cover: Seq<Seq<usize>>, cut: Seq<usize>, kind: int, k: int) -> nat
    decreases k,
{
    if k <= 0 {
        0
    } else {
        count_kind(cover, cut, kind, k - 1) + if subset_kind(cover[k - 1], cut) == kind {
            1nat
        } else {
            0nat
        }
    }
}

/// The vectors of `cover`, viewed as sequences.
pub open spec fn cover_view(cover: Seq<Vec<usize>>) -> Seq<Seq<usize>> {
    Seq::new(cover.len(), |i: int| cover[i]@)
}

/// The parameters for sub-instances of `d1` and `d2` vertices out of `n`.
pub open spec fn params_for(n: int, d1: int, d2: int, terms: int) -> AlphaParams {
    AlphaParams {
        a: (n - spec_max(d1, d2)) as usize,
        b: (n - spec_min(d1, d2)) as usize,
        terms: terms as i128,
    }
}

/// The number of distinct vertices of `s` that lie in `cut`.
fn count_in_cut(s: &Vec<usize>, cut: &Vec<usize>) -> (r: usize)
    ensures
        r == distinct_in(s@, cut@, s@.len() as int),
{
    let mut r: usize = 0;
    let mut i: usize = 0;
    while i < s.len()
        invariant
            i <= s@.len(),
            r == distinct_in(s@, cut@, i as int),
            r <= i,
        decreases s@.len() - i,
    {
        let mut first = true;
        let mut j: usize = 0;
        while j < i
            invariant
                i < s@.len(),
                j <= i,
                first == forall|t: int| 0 <= t < j ==> s@[t] != s@[i as int],
            decreases i - j,
        {
            if s[j] == s[i] {
                first = false;
            }
            j = j + 1;
        }
        let mut inside = false;
        let mut k: usize = 0;
        while k < cut.len()
            invariant
                i < s@.len(),
                k <= cut@.len(),
                inside == exists|t: int| 0 <= t < k && cut@[t] == s@[i as int],
            decreases cut@.len() - k,
        {
            if cut[k] == s[i] {
                inside = true;
            }
            k = k + 1;
        }
        if first && inside {
            r = r + 1;
        }
        i = i + 1;
    }
    r
}

/// Classifies the subset `s` against `cut`, as `subset_kind` does.
fn classify(s: &Vec<usize>, cut: &Vec<usize>) -> (k: u8)
    ensures
        k == subset_kind(s@, cut@),
{
    let x = count_in_cut(s, cut);
    if s.len() > 0 && x == s.len() - 1 {
        2
    } else if x == 1 {
        1
    } else {
        0
    }
}

/// The scoring parameters of a separator and a cover: sub-instances of
/// `min(|left|, |right|) + |cut|` and `max(|left|, |right|)` vertices, and
/// `cover.len() + depth` as the logarithm of the number of diagrams.
pub fn alpha_params(n: usize, sep: &VertexSeparator, cover: &Vec<Vec<usize>>, depth: usize) -> (p: AlphaParams)
    requires
        sep.left@.len() + sep.right@.len() + sep.cut@.len() == n,
    ensures
        p == params_for(
            n as int,
            spec_min(sep.left@.len() as int, sep.right@.len() as int) + sep.cut@.len(),
            spec_max(sep.left@.len() as int, sep.right@.len() as int),
            cover@.len() + depth,
        ),
{
    let l = sep.left.len();
    let r = sep.right.len();
    let d1 = if l < r { l } else { r } + sep.cut.len();
    let d2 = if l < r { r } else { l };
    let hi = if d1 < d2 { d2 } else { d1 };
    let lo = if d1 < d2 { d1 } else { d2 };
    AlphaParams { a: n - hi, b: n - lo, terms: cover.len() as i128 + depth as i128 }
}

/// As `alpha_params`, with each cover subset that has all but one vertex in
/// the cut taking one vertex off the larger sub-instance, and each with
/// exactly one vertex in the cut taking one off the smaller. `None` when a
/// sub-instance would drop below zero vertices.
pub fn improved_alpha_params(n: usize, sep: &VertexSeparator, cover: &Vec<Vec<usize>>, depth: usize) -> (p: Option<AlphaParams>)
    requires
        sep.left@.len() + sep.right@.len() + sep.cut@.len() == n,
    ensures
        ({
            let d1 = spec_min(sep.left@.len() as int, sep.right@.len() as int) + sep.cut@.len()
                - count_kind(cover_view(cover@), sep.cut@, 1, cover@.len() as int);
            let d2 = spec_max(sep.left@.len() as int, sep.right@.len() as int)
                - count_kind(cover_view(cover@), sep.cut@, 2, cover@.len() as int);
            &&& (d1 >= 0 && d2 >= 0) ==> p == Some(params_for(n as int, d1, d2, cover@.len() + depth))
            &&& !(d1 >= 0 && d2 >= 0) ==> p.is_none()
        }),
{
    let l = sep.left.len();
    let r = sep.right.len();
    let d1_start = if l < r { l } else { r } + sep.cut.len();
    let d2_start = if l < r { r } else { l };
    let mut ones: usize = 0;
    let mut twos: usize = 0;
    let mut i: usize = 0;
    while i < cover.len()
        invariant
            i <= cover@.len(),
            ones == count_kind(cover_view(cover@), sep.cut@, 1, i as int),
            twos == count_kind(cover_view(cover@), sep.cut@, 2, i as int),
            ones + twos <= i,
        decreases cover@.len() - i,
    {
        assert(cover_view(cover@)[i as int] == cover@[i as int]@);
        let k = classify(&cover[i], &sep.cut);
        if k == 2 {
            twos = twos + 1;
        } else if k == 1 {
            ones = ones + 1;
        }
        i = i + 1;
    }
    if ones > d1_start || twos > d2_start {
        return None;
    }
    let d1 = d1_start - ones;
    let d2 = d2_start - twos;
    let hi = if d1 < d2 { d2 } else { d1 };
    let lo = if d1 < d2 { d1 } else { d2 };
    Some(AlphaParams { a: n - hi, b: n - lo, terms: cover.len() as i128 + depth as i128 })
}

/// The number of cover subsets that have exactly one vertex in the cut, or all but one.
pub fn vertex_cut_in_subgraph_complement_cut(sep: &VertexSeparator, cover: &Vec<Vec<usize>>) -> (r: usize)
    ensures
        r == count_kind(cover_view(cover@), sep.cut@, 1, cover@.len() as int) + count_kind(
            cover_view(cover@),
            sep.cut@,
            2,
            cover@.len() as int,
        ),
{
    let mut nb: usize = 0;
    let mut i: usize = 0;
    while i < cover.len()
        invariant
            i <= cover@.len(),
            nb == count_kind(cover_view(cover@), sep.cut@, 1, i as int) + count_kind(
                cover_view(cover@),
                sep.cut@,
                2,
                i as int,
            ),
            nb <= i,
        decreases cover@.len() - i,
    {
        assert(cover_view(cover@)[i as int] == cover@[i as int]@);
        let k = classify(&cover[i], &sep.cut);
        if k != 0 {
            nb = nb + 1;
        }
        i = i + 1;
    }
    nb
}

/// The scoring parameters of cutting the separator's cut vertices outright:
/// sub-instances of `max(|left|, |right|)` and `min(|left|, |right|)`
/// vertices out of all three parts, and `|cut| + extra` as the logarithm
/// of the number of diagrams.
pub fn vertex_cut_params(sep: &VertexSeparator, extra: isize) -> (p: Option<AlphaParams>)
    ensures
        sep.left@.len() + sep.right@.len() + sep.cut@.len() <= usize::MAX ==> p == Some(
            AlphaParams {
                a: (sep.left@.len() + sep.right@.len() + sep.cut@.len() - spec_max(
                    sep.left@.len() as int,
                    sep.right@.len() as int,
                )) as usize,
                b: (sep.left@.len() + sep.right@.len() + sep.cut@.len() - spec_min(
                    sep.left@.len() as int,
                    sep.right@.len() as int,
                )) as usize,
                terms: (sep.cut@.len() + extra) as i128,
            },
        ),
        sep.left@.len() + sep.right@.len() + sep.cut@.len() > usize::MAX ==> p.is_none(),
{
    let l = sep.left.len();
    let r = sep.right.len();
    let c = sep.cut.len();
    if l > usize::MAX - r || l + r > usize::MAX - c {
        return None;
    }
    let n = l + r + c;
    let big = if l < r { r } else { l };
    let small = if l < r { l } else { r };
    Some(AlphaParams { a: n - big, b: n - small, terms: c as i128 + extra as i128 })
}

} // verus!
