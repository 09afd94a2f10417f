//! The stateful permutation generator.

use vstd::prelude::*;

use crate::inverse::inverse_perm;
use crate::model::appears;
use crate::model::differs_by_adjacent_swap;
use crate::model::identity_seq;
use crate::model::initial_dirs;
use crate::model::inverse_of;
use crate::model::is_permutation;
use crate::model::largest_mobile_below;
use crate::model::lemma_inverse_points_back;
use crate::model::lemma_step_adjacent_swap;
use crate::model::lemma_swap_preserves_permutation;
use crate::model::mobile;
use crate::model::seq_swap;
use crate::model::sjt_step;

verus! {

/// The one construction-time failure: a generator needs `n > 0`.
#[derive(Clone, Copy, Debug, PartialEq, Eq)]
pub enum PermError {
    InvalidArgument,
}

/// Ghost picture of a generator: the fixed size, the current permutation and
/// direction vector, and the two lifecycle flags.
pub struct GenModel {
    pub n: nat,
    pub perm: Seq<usize>,
    pub dir: Seq<i8>,
    pub initiated: bool,
    pub finished: bool,
}

/// Generates the permutations of `0..n` one adjacent swap at a time.
pub struct Permutations {
    n: usize,
    perm: Vec<usize>,
    direction: Vec<i8>,
    is_initiated: bool,
    is_finished: bool,
}

impl View for Permutations {
    type V = GenModel;

    closed spec fn view(&self) -> GenModel {
        GenModel {
            n: self.n as nat,
            perm: self.perm@,
            dir: self.direction@,
            initiated: self.is_initiated,
            finished: self.is_finished,
        }
    }
}

/// The generator's invariant: buffers of length `n > 0`, direction flags in
/// {-1, 0, +1}, a valid permutation once running, and all-zero buffers with
/// position 0 settled before the first advance.
pub open spec fn gen_inv(m: GenModel) -> bool {
    &&& m.n > 0
    &&& m.perm.len() == m.n
    &&& m.dir.len() == m.n
    &&& (forall|p: int| 0 <= p < m.n ==> -1 <= #[trigger] m.dir[p] <= 1)
    &&& (m.initiated ==> is_permutation(m.perm))
    &&& (!m.initiated ==> !m.finished)
    &&& (!m.initiated ==> (forall|p: int| 0 <= p < m.n ==> (#[trigger] m.perm[p]) == 0))
    &&& (!m.initiated ==> (forall|p: int| 0 <= p < m.n ==> (#[trigger] m.dir[p]) == 0i8))
}

impl Permutations {
    /// The invariant every generator this module hands out satisfies.
    pub open spec fn wf(&self) -> bool {
        gen_inv(self@)
    }

    /// Builds a generator for the permutations of `0..n`.  Rejects `n == 0`,
    /// for which no permutation sequence is defined; for `n > 0` the
    /// generator starts before its first permutation, with zero-filled
    /// buffers.
    pub fn of(n: usize) -> (r: Result<Permutations, PermError>)
        ensures
            n == 0 <==> (r matches Err(e) && e == PermError::InvalidArgument),
            n > 0 ==> (r matches Ok(g) && g.wf() && g@.n == n && !g@.initiated && !g@.finished
                && g@.perm == Seq::new(n as nat, |i: int| 0usize)
                && g@.dir == Seq::new(n as nat, |i: int| 0i8)),
    {
        if n == 0 {
            return Err(PermError::InvalidArgument);
        }
        let mut perm: Vec<usize> = Vec::new();
        let mut direction: Vec<i8> = Vec::new();
        let mut i: usize = 0;
        while i < n
            invariant
                i <= n,
                perm@.len() == i,
                direction@.len() == i,
                forall|p: int| 0 <= p < i ==> (#[trigger] perm@[p]) == 0,
                forall|p: int| 0 <= p < i ==> (#[trigger] direction@[p]) == 0i8,
            decreases n - i,
        {
            perm.push(0);
            direction.push(0);
            i = i + 1;
        }
        let g = Permutations { n, perm, direction, is_initiated: false, is_finished: false };
        proof {
            assert(g@.perm =~= Seq::new(n as nat, |i: int| 0usize));
            assert(g@.dir =~= Seq::new(n as nat, |i: int| 0i8));
        }
        Ok(g)
    }

    /// The fixed `n` this generator was built for.
    pub fn get_n(&self) -> (r: usize)
        ensures
            r == self@.n,
    {
        self.n
    }

    /// Advances the generator and hands back an owned copy of the next
    /// permutation, or `None` once the sequence is exhausted.
    ///
    /// The first call emits the identity arrangement and points every
    /// position after the first toward lower positions.  While running, each
    /// call performs one Steinhaus-Johnson-Trotter step, exactly as
    /// [`sjt_step`] describes it; when no mobile value remains the generator
    /// signals exhaustion, and every call after that returns `None` with no
    /// change of state.
    #[verifier::loop_isolation(false)]
    #[verifier::rlimit(60)]
    pub fn next(&mut self) -> (r: Option<Vec<usize>>)
        requires
            old(self).wf(),
        ensures
            final(self).wf(),
            final(self)@.n == old(self)@.n,
            final(self)@.initiated,
            !old(self)@.initiated ==> ({
                &&& !final(self)@.finished
                &&& final(self)@.perm == identity_seq(old(self)@.n)
                &&& final(self)@.dir == initial_dirs(old(self)@.n)
                &&& (r matches Some(p) && p@ == identity_seq(old(self)@.n))
            }),
            old(self)@.initiated && old(self)@.finished ==> r is None && final(self)@ == old(
                self,
            )@,
            old(self)@.initiated && !old(self)@.finished ==> (match sjt_step(
                old(self)@.perm,
                old(self)@.dir,
            ) {
                Option::None => {
                    &&& r is None
                    &&& final(self)@.finished
                    &&& final(self)@.perm == old(self)@.perm
                    &&& final(self)@.dir == old(self)@.dir
                },
                Option::Some(pd) => {
                    &&& (r matches Some(p) && p@ == pd.0)
                    &&& !final(self)@.finished
                    &&& final(self)@.perm == pd.0
                    &&& final(self)@.dir == pd.1
                    &&& differs_by_adjacent_swap(old(self)@.perm, pd.0)
                },
            }),
    {
        let n = self.n;
        if !self.is_initiated {
            let mut i: usize = 1;
            while i < n
                invariant
                    1 <= i <= n,
                    self.n == n,
                    self.perm@.len() == n,
                    self.direction@.len() == n,
                    self.is_initiated == old(self).is_initiated,
                    self.is_finished == old(self).is_finished,
                    forall|p: int| 0 <= p < i ==> (#[trigger] self.perm@[p]) == p,
                    forall|p: int| i <= p < n ==> (#[trigger] self.perm@[p]) == 0,
                    self.direction@[0] == 0i8,
                    forall|p: int| 1 <= p < i ==> (#[trigger] self.direction@[p]) == -1i8,
                    forall|p: int| i <= p < n ==> (#[trigger] self.direction@[p]) == 0i8,
                decreases n - i,
            {
                self.perm.set(i, i);
                self.direction.set(i, -1);
                i = i + 1;
            }
            self.is_initiated = true;
            proof {
                assert(self.perm@ =~= identity_seq(n as nat));
                assert(self.direction@ =~= initial_dirs(n as nat));
                assert forall|v: int| 0 <= v < n implies #[trigger] appears(self.perm@, v) by {
                    assert(self.perm@[v] == v);
                }
            }
            let out = copy_buffer(&self.perm);
            return Some(out);
        }
        if self.is_finished {
            return None;
        }
        let ghost operm = self.perm@;
        let ghost odir = self.direction@;
        let rev = inverse_perm(&self.perm);
        proof {
            lemma_inverse_points_back(operm);
        }
        let mut found: bool = false;
        let mut m: usize = 0;
        let mut pos: usize = 0;
        let mut d: i8 = 0;
        let mut j: usize = n;
        while j > 0 && !found
            invariant
                j <= n,
                self.n == n,
                self.perm@ == operm,
                self.direction@ == odir,
                self.is_initiated,
                !self.is_finished,
                !found ==> largest_mobile_below(operm, odir, n as nat) == largest_mobile_below(
                    operm,
                    odir,
                    j as nat,
                ),
                found ==> ({
                    &&& largest_mobile_below(operm, odir, n as nat) == Option::Some(m as nat)
                    &&& m < n
                    &&& pos == inverse_of(operm)[m as int]
                    &&& pos < n
                    &&& d == odir[pos as int]
                    &&& d != 0
                }),
            decreases j,
        {
            j = j - 1;
            let p = rev[j];
            let id = self.direction[p];
            if id != 0 {
                found = true;
                m = j;
                pos = p;
                d = id;
            }
            proof {
                assert(largest_mobile_below(operm, odir, (j + 1) as nat) == (if mobile(
                    operm,
                    odir,
                    j as int,
                ) {
                    Option::Some(j as nat)
                } else {
                    largest_mobile_below(operm, odir, j as nat)
                }));
            }
        }
        if !found {
            self.is_finished = true;
            return None;
        }
        if d < 0 {
            if pos == 0 {
                self.is_finished = true;
                return None;
            }
        } else {
            if pos + 1 >= n {
                self.is_finished = true;
                return None;
            }
        }
        let new_pos: usize = if d < 0 {
            pos - 1
        } else {
            pos + 1
        };
        let a = self.perm[pos];
        let b = self.perm[new_pos];
        self.perm.set(pos, b);
        self.perm.set(new_pos, a);
        let da = self.direction[pos];
        let db = self.direction[new_pos];
        self.direction.set(pos, db);
        self.direction.set(new_pos, da);
        let ghost perm2 = self.perm@;
        proof {
            assert(perm2 == seq_swap(operm, pos as int, new_pos as int));
            assert(self.direction@ == seq_swap(odir, pos as int, new_pos as int));
        }
        let settled: bool = if new_pos == 0 || new_pos == n - 1 {
            true
        } else if d < 0 {
            self.perm[new_pos - 1] > m
        } else {
            self.perm[new_pos + 1] > m
        };
        if settled {
            self.direction.set(new_pos, 0);
        }
        let ghost dir3 = self.direction@;
        let mut j2: usize = m + 1;
        while j2 < n
            invariant
                m < j2 <= n,
                self.n == n,
                self.perm@ == perm2,
                self.direction@.len() == n,
                self.is_initiated,
                !self.is_finished,
                forall|p: int|
                    0 <= p < n ==> (#[trigger] self.direction@[p]) == (if operm[p] > m && operm[p]
                        < j2 {
                        if p < new_pos {
                            1i8
                        } else {
                            -1i8
                        }
                    } else {
                        dir3[p]
                    }),
            decreases n - j2,
        {
            let p2 = rev[j2];
            let ghost before = self.direction@;
            if p2 < new_pos {
                self.direction.set(p2, 1);
            } else {
                self.direction.set(p2, -1);
            }
            proof {
                assert(operm[p2 as int] == j2);
                assert forall|p: int|
                    0 <= p < n implies (#[trigger] self.direction@[p]) == (if operm[p] > m
                    && operm[p] < j2 + 1 {
                    if p < new_pos {
                        1i8
                    } else {
                        -1i8
                    }
                } else {
                    dir3[p]
                }) by {
                    if p != p2 {
                        assert(self.direction@[p] == before[p]);
                        if operm[p] == j2 {
                            assert(inverse_of(operm)[j2 as int] == p);
                        }
                    }
                }
            }
            j2 = j2 + 1;
        }
        proof {
            let pos_i = pos as int;
            let d_i = odir[pos_i] as int;
            let np_i = new_pos as int;
            assert(np_i == pos_i + d_i);
            assert(settled == (np_i == 0 || np_i == n - 1 || perm2[np_i + d_i] > m));
            assert(dir3 == (if settled {
                seq_swap(odir, pos_i, np_i).update(np_i, 0i8)
            } else {
                seq_swap(odir, pos_i, np_i)
            }));
            let dir4 = Seq::new(
                operm.len(),
                |p: int|
                    if operm[p] > m {
                        if p < np_i {
                            1i8
                        } else {
                            -1i8
                        }
                    } else {
                        dir3[p]
                    },
            );
            assert(self.direction@ =~= dir4);
            assert(sjt_step(operm, odir) == Option::Some((perm2, dir4)));
            lemma_swap_preserves_permutation(operm, pos_i, np_i);
            lemma_step_adjacent_swap(operm, odir, perm2, dir4);
        }
        let out = copy_buffer(&self.perm);
        Some(out)
    }
}

/// An owned copy of a position buffer, handed to the caller so later steps
/// of the generator never alter what it already received.
fn copy_buffer(v: &Vec<usize>) -> (r: Vec<usize>)
    ensures
        r@ == v@,
{
    let mut r: Vec<usize> = Vec::new();
    let mut i: usize = 0;
    while i < v.len()
        invariant
            i <= v@.len(),
            r@.len() == i,
            forall|p: int| 0 <= p < i ==> #[trigger] r@[p] == v@[p],
        decreases v@.len() - i,
    {
        r.push(v[i]);
        i = i + 1;
    }
    proof {
        assert(r@ =~= v@);
    }
    r
}

} // verus!
