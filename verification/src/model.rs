//! Mathematical model of permutations and of one step of the
//! Steinhaus-Johnson-Trotter algorithm with Even's speedup.
//!
//! The executable code in the rest of the crate is specified against the
//! functions of this module: a permutation is a `Seq<usize>`, its inverse is
//! [`inverse_of`], and one advance of the generator is [`sjt_step`].

use vstd::prelude::*;

verus! {

/// The value `v` occurs somewhere in `s`.
pub open spec fn appears(s: Seq<usize>, v: int) -> bool {
    exists|i: int| 0 <= i < s.len() && s[i] == v
}

/// `s` is a rearrangement of `0..s.len()`: every entry is in range, no entry
/// repeats, and every value in range occurs.
pub open spec fn is_permutation(s: Seq<usize>) -> bool {
    &&& (forall|i: int| 0 <= i < s.len() ==> (#[trigger] s[i]) < s.len())
    &&& (forall|i: int, j: int|
        0 <= i < s.len() && 0 <= j < s.len() && i != j ==> s[i] != s[j])
    &&& (forall|v: int| 0 <= v < s.len() ==> #[trigger] appears(s, v))
}

/// The identity permutation `[0, 1, ..., n-1]`.
pub open spec fn identity_seq(n: nat) -> Seq<usize> {
    Seq::new(n, |i: int| i as usize)
}

/// The direction vector right after the first advance: position 0 is settled,
/// every later position points toward lower positions.
pub open spec fn initial_dirs(n: nat) -> Seq<i8> {
    Seq::new(n, |i: int| if i == 0 { 0i8 } else { -1i8 })
}

/// The position of value `v` in `s` (meaningful when `v` occurs exactly once).
pub open spec fn position_of(s: Seq<usize>, v: int) -> int {
    choose|i: int| 0 <= i < s.len() && s[i] == v
}

/// The inverse permutation: `inverse_of(s)[v]` is the position of `v` in `s`.
pub open spec fn inverse_of(s: Seq<usize>) -> Seq<usize> {
    Seq::new(s.len(), |v: int| position_of(s, v) as usize)
}

/// `s` with the entries at `a` and `b` exchanged.
pub open spec fn seq_swap<A>(s: Seq<A>, a: int, b: int) -> Seq<A> {
    s.update(a, s[b]).update(b, s[a])
}

/// The value `v` is mobile: the direction flag at its position is non-zero.
pub open spec fn mobile(perm: Seq<usize>, dir: Seq<i8>, v: int) -> bool {
    dir[inverse_of(perm)[v] as int] != 0
}

/// The largest value below `k` that is mobile, scanning downward as the
/// generator does, or `None` if no value below `k` is mobile.
pub open spec fn largest_mobile_below(perm: Seq<usize>, dir: Seq<i8>, k: nat) -> Option<nat>
    decreases k,
{
    if k == 0 {
        Option::<nat>::None
    } else if mobile(perm, dir, k - 1) {
        Option::Some((k - 1) as nat)
    } else {
        largest_mobile_below(perm, dir, (k - 1) as nat)
    }
}

/// One advance of the running generator: find the largest mobile value, move
/// it one position along its direction, settle it if it can move no further,
/// and point every larger value toward its new position.  `None` when no
/// mobile value remains (the sequence is exhausted) or when the recorded
/// direction would leave `0..perm.len()` (which the settlement rule keeps
/// from ever arising in a state the generator produces).
pub open spec fn sjt_step(perm: Seq<usize>, dir: Seq<i8>) -> Option<(Seq<usize>, Seq<i8>)> {
    let n = perm.len() as int;
    match largest_mobile_below(perm, dir, perm.len()) {
        Option::None => Option::None,
        Option::Some(m) => {
            let pos = inverse_of(perm)[m as int] as int;
            let d = dir[pos] as int;
            let new_pos = pos + d;
            if new_pos < 0 || new_pos >= n {
                Option::None
            } else {
                let perm2 = seq_swap(perm, pos, new_pos);
                let dir2 = seq_swap(dir, pos, new_pos);
                let settled = new_pos == 0 || new_pos == n - 1 || perm2[new_pos + d] > m;
                let dir3 = if settled {
                    dir2.update(new_pos, 0i8)
                } else {
                    dir2
                };
                let dir4 = Seq::new(
                    perm.len(),
                    |p: int|
                        if perm[p] > m {
                            if p < new_pos {
                                1i8
                            } else {
                                -1i8
                            }
                        } else {
                            dir3[p]
                        },
                );
                Option::Some((perm2, dir4))
            }
        },
    }
}

/// `t` is `s` with exactly the adjacent entries at `k` and `k + 1` exchanged.
pub open spec fn adjacent_swap_at(s: Seq<usize>, t: Seq<usize>, k: int) -> bool {
    &&& 0 <= k
    &&& k + 1 < s.len()
    &&& t.len() == s.len()
    &&& t[k] == s[k + 1]
    &&& t[k + 1] == s[k]
    &&& s[k] != s[k + 1]
    &&& (forall|p: int| 0 <= p < s.len() && p != k && p != k + 1 ==> t[p] == s[p])
}

/// `t` differs from `s` by exactly one adjacent transposition.
pub open spec fn differs_by_adjacent_swap(s: Seq<usize>, t: Seq<usize>) -> bool {
    exists|k: int| adjacent_swap_at(s, t, k)
}

/// A sequence of distinct `usize` values covering `0..len` cannot be longer
/// than the number of `usize` values.
proof fn lemma_permutation_len_bound(s: Seq<usize>)
    requires
        is_permutation(s),
    ensures
        s.len() <= usize::MAX + 1,
{
    if s.len() > usize::MAX + 1 {
        let v = usize::MAX as int + 1;
        assert(appears(s, v));
        let i = choose|i: int| 0 <= i < s.len() && s[i] == v;
        assert(s[i] <= usize::MAX);
    }
}

/// The inverse points back: `inverse_of(s)[s[i]] == i`, and conversely
/// `s[inverse_of(s)[v]] == v`.
pub proof fn lemma_inverse_points_back(s: Seq<usize>)
    requires
        is_permutation(s),
    ensures
        inverse_of(s).len() == s.len(),
        forall|v: int|
            0 <= v < s.len() ==> 0 <= #[trigger] inverse_of(s)[v] < s.len()
                && s[inverse_of(s)[v] as int] == v,
        forall|i: int| 0 <= i < s.len() ==> #[trigger] inverse_of(s)[s[i] as int] == i,
{
    lemma_permutation_len_bound(s);
    assert forall|v: int|
        0 <= v < s.len() implies 0 <= #[trigger] inverse_of(s)[v] < s.len()
        && s[inverse_of(s)[v] as int] == v by {
        assert(appears(s, v));
        let i = choose|i: int| 0 <= i < s.len() && s[i] == v;
        let p = position_of(s, v);
        assert(0 <= p < s.len() && s[p] == v);
        assert(p <= usize::MAX);
        assert(inverse_of(s)[v] == p as usize);
    }
    assert forall|i: int| 0 <= i < s.len() implies #[trigger] inverse_of(s)[s[i] as int]
        == i by {
        let v = s[i] as int;
        assert(0 <= v < s.len());
        assert(s[inverse_of(s)[v] as int] == v);
        assert(inverse_of(s)[v] == i);
    }
}

/// The inverse of a permutation is itself a permutation.
pub proof fn lemma_inverse_is_permutation(s: Seq<usize>)
    requires
        is_permutation(s),
    ensures
        is_permutation(inverse_of(s)),
{
    let t = inverse_of(s);
    lemma_inverse_points_back(s);
    assert forall|v1: int, v2: int|
        0 <= v1 < t.len() && 0 <= v2 < t.len() && v1 != v2 implies t[v1] != t[v2] by {
        assert(s[t[v1] as int] == v1);
        assert(s[t[v2] as int] == v2);
    }
    assert forall|p: int| 0 <= p < t.len() implies #[trigger] appears(t, p) by {
        assert(t[s[p] as int] == p);
        assert(0 <= s[p] < t.len());
    }
}

/// Round trip through the inverse: for a valid permutation `p`,
/// `inverse_of(p)` undoes `p` position by position, and applying the inverse
/// twice gives `p` back.
pub proof fn lemma_inverse_round_trip(s: Seq<usize>)
    requires
        is_permutation(s),
    ensures
        forall|i: int| 0 <= i < s.len() ==> #[trigger] inverse_of(s)[s[i] as int] == i,
        inverse_of(inverse_of(s)) == s,
{
    let t = inverse_of(s);
    lemma_inverse_points_back(s);
    lemma_inverse_is_permutation(s);
    lemma_inverse_points_back(t);
    assert forall|i: int| 0 <= i < s.len() implies #[trigger] inverse_of(t)[i] == s[i] by {
        assert(t[s[i] as int] == i);
        assert(inverse_of(t)[t[s[i] as int] as int] == s[i] as int);
    }
    assert(inverse_of(t) =~= s);
}

/// Exchanging two entries of a permutation yields a permutation.
pub proof fn lemma_swap_preserves_permutation(s: Seq<usize>, a: int, b: int)
    requires
        is_permutation(s),
        0 <= a < s.len(),
        0 <= b < s.len(),
    ensures
        is_permutation(seq_swap(s, a, b)),
{
    let t = seq_swap(s, a, b);
    assert forall|p: int| 0 <= p < t.len() implies (#[trigger] t[p]) < t.len() by {
        if p == b {
        } else if p == a {
        }
    }
    assert forall|v: int| 0 <= v < t.len() implies #[trigger] appears(t, v) by {
        assert(appears(s, v));
        let i = choose|i: int| 0 <= i < s.len() && s[i] == v;
        if i == a {
            assert(t[b] == v);
        } else if i == b {
            assert(t[a] == v);
        } else {
            assert(t[i] == v);
        }
    }
}

/// What `largest_mobile_below` finds: a mobile value with nothing mobile
/// above it, or the fact that nothing below `k` is mobile.
pub proof fn lemma_largest_mobile_below_props(perm: Seq<usize>, dir: Seq<i8>, k: nat)
    ensures
        match largest_mobile_below(perm, dir, k) {
            Option::Some(m) => m < k && mobile(perm, dir, m as int) && (forall|j: int|
                m < j < k ==> !mobile(perm, dir, j)),
            Option::None => forall|j: int| 0 <= j < k ==> !mobile(perm, dir, j),
        },
    decreases k,
{
    if k > 0 && !mobile(perm, dir, k - 1) {
        lemma_largest_mobile_below_props(perm, dir, (k - 1) as nat);
    }
}

/// Every successful step of the generator changes the permutation by exactly
/// one adjacent transposition: the two displaced values are swap partners at
/// adjacent positions and every other position is untouched.
pub proof fn lemma_step_adjacent_swap(
    perm: Seq<usize>,
    dir: Seq<i8>,
    perm2: Seq<usize>,
    dir2: Seq<i8>,
)
    requires
        is_permutation(perm),
        dir.len() == perm.len(),
        forall|p: int| 0 <= p < dir.len() ==> -1 <= #[trigger] dir[p] <= 1,
        sjt_step(perm, dir) == Option::Some((perm2, dir2)),
    ensures
        differs_by_adjacent_swap(perm, perm2),
        is_permutation(perm2),
        perm2 != perm,
{
    let n = perm.len() as int;
    lemma_largest_mobile_below_props(perm, dir, perm.len());
    let m = largest_mobile_below(perm, dir, perm.len())->Some_0;
    lemma_inverse_points_back(perm);
    let pos = inverse_of(perm)[m as int] as int;
    let d = dir[pos] as int;
    assert(mobile(perm, dir, m as int));
    assert(d == -1 || d == 1);
    let new_pos = pos + d;
    assert(0 <= new_pos < n);
    assert(perm2 == seq_swap(perm, pos, new_pos));
    lemma_swap_preserves_permutation(perm, pos, new_pos);
    if d == 1 {
        assert(adjacent_swap_at(perm, perm2, pos));
        assert(perm2[pos] != perm[pos]);
    } else {
        assert(adjacent_swap_at(perm, perm2, new_pos));
        assert(perm2[new_pos] != perm[new_pos]);
    }
}

} // verus!
