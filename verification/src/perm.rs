//! Permutation generation: enumerates orderings of `0..n`, starting from the
//! identity, one at a time and in place. Two interchangeable strategies are
//! offered: Heap's algorithm (non-recursive) and the
//! Steinhaus-Johnson-Trotter algorithm with Even's speedup.

use vstd::prelude::*;

verus! {

/// `s` holds each of `0`, ..., `n - 1` exactly once.
pub open spec fn is_perm_of(s: Seq<usize>, n: int) -> bool {
    &&& s.len() == n
    &&& forall|i: int| 0 <= i < n ==> (#[trigger] s[i]) < n
    &&& forall|i: int, j: int| 0 <= i < j < n ==> s[i] != s[j]
}

/// In-place permutation generator over `0..n`.
///
/// With `sjt` unset, `pos` is the counter array of Heap's algorithm; with
/// `sjt` set, `pos[k]` tracks the current index of value `k` in `perm` and
/// `dir[k]` the direction in which `k` is moving.
#[derive(Debug)]
pub struct Permutation {
    pub perm: Vec<usize>,
    pub pos: Vec<usize>,
    pub dir: Vec<bool>,
    pub n: usize,
    pub sjt: bool,
}

/// Exactly what one step of non-recursive Heap's algorithm does to the
/// state. A step succeeds exactly when some counter `pos[i]` (`1 <= i < n`)
/// is still below `i`; the least such `i` is used: counters below it (all
/// exhausted, equal to their index) are reset to zero, `perm` swaps positions
/// `(0, i)` when `i` is even and `(pos[i], i)` otherwise, and `pos[i]` is
/// bumped. A failing step (the scan runs off the end) leaves `perm`
/// untouched and every scanned counter reset to zero. `dir` is never used.
pub open spec fn heap_step_post(pre: Permutation, post: Permutation, more: bool) -> bool {
    let n = pre.n as int;
    &&& post.n == pre.n
    &&& post.sjt == pre.sjt
    &&& post.dir@ == pre.dir@
    &&& post.pos@.len() == pre.pos@.len()
    &&& (more <==> exists|i: int| 1 <= i < n && (#[trigger] pre.pos@[i]) < i)
    &&& (more ==> exists|i: int|
        {
            let l = if i % 2 == 0 {
                0int
            } else {
                pre.pos@[i] as int
            };
            &&& 1 <= i < n
            &&& (#[trigger] pre.pos@[i]) < i
            &&& (forall|j: int| 1 <= j < i ==> pre.pos@[j] == j)
            &&& post.perm@ == pre.perm@.update(l, pre.perm@[i]).update(i, pre.perm@[l])
            &&& post.pos@[i] == pre.pos@[i] + 1
            &&& (forall|j: int| 1 <= j < i ==> post.pos@[j] == 0)
            &&& (forall|j: int| 0 <= j < n && !(1 <= j <= i) ==> post.pos@[j] == pre.pos@[j])
        })
    &&& (!more ==> {
        &&& post.perm@ == pre.perm@
        &&& (forall|j: int| 1 <= j < n ==> pre.pos@[j] == j && post.pos@[j] == 0)
        &&& (n >= 1 ==> post.pos@[0] == pre.pos@[0])
    })
}

/// Value `k` is mobile in the Steinhaus-Johnson-Trotter sense: the position
/// next to it in its direction exists and holds a smaller value.
pub open spec fn sjt_mobile(g: Permutation, k: int) -> bool {
    if g.dir@[k] {
        &&& g.pos@[k] + 1 < g.n
        &&& g.perm@[g.pos@[k] + 1] < k
    } else {
        &&& g.pos@[k] >= 1
        &&& g.perm@[g.pos@[k] - 1] < k
    }
}

/// Exactly what one Steinhaus-Johnson-Trotter step (Even's speedup) does to
/// the state. A step succeeds exactly when some value `k` (`1 <= k < n`) is
/// mobile; the largest such `k` swaps with the smaller neighbor in its
/// direction, the positions of the two swapped values are retraced, and
/// every larger (immobile) value has had its direction flipped. A failing
/// step leaves `perm` and `pos` untouched and flips the direction of every
/// value in `1..n`.
pub open spec fn sjt_step_post(pre: Permutation, post: Permutation, more: bool) -> bool {
    let n = pre.n as int;
    &&& post.n == pre.n
    &&& post.sjt == pre.sjt
    &&& post.dir@.len() == pre.dir@.len()
    &&& post.pos@.len() == pre.pos@.len()
    &&& (more <==> exists|k: int| 1 <= k < n && #[trigger] sjt_mobile(pre, k))
    &&& (more ==> exists|k: int|
        {
            let c = pre.pos@[k] as int;
            let t = if pre.dir@[k] {
                c + 1
            } else {
                c - 1
            };
            &&& 1 <= k < n
            &&& #[trigger] sjt_mobile(pre, k)
            &&& (forall|j: int| k < j < n ==> !sjt_mobile(pre, j))
            &&& post.perm@ == pre.perm@.update(c, pre.perm@[t]).update(t, pre.perm@[c])
            &&& post.pos@ == pre.pos@.update(k, t as usize).update(
                pre.perm@[t] as int,
                c as usize,
            )
            &&& (forall|j: int| k < j < n ==> post.dir@[j] == !pre.dir@[j])
            &&& (forall|j: int| 0 <= j <= k ==> post.dir@[j] == pre.dir@[j])
        })
    &&& (!more ==> {
        &&& post.perm@ == pre.perm@
        &&& post.pos@ == pre.pos@
        &&& (forall|k: int| 1 <= k < n ==> !sjt_mobile(pre, k) && post.dir@[k] == !pre.dir@[k])
        &&& (n >= 1 ==> post.dir@[0] == pre.dir@[0])
    })
}

impl Permutation {
    /// The generator's invariant: `perm` is a permutation of `0..n` and the
    /// bookkeeping arrays are consistent with the chosen strategy.
    pub open spec fn wf(self) -> bool {
        &&& self.perm@.len() == self.n
        &&& self.pos@.len() == self.n
        &&& self.dir@.len() == self.n
        &&& is_perm_of(self.perm@, self.n as int)
        &&& (self.sjt ==> forall|k: int|
            0 <= k < self.n ==> (#[trigger] self.pos@[k]) < self.n
                && self.perm@[self.pos@[k] as int] == k)
        &&& (!self.sjt ==> forall|i: int| 0 <= i < self.n ==> (#[trigger] self.pos@[i]) <= i)
    }

    /// Starts the enumeration at the identity permutation, with every
    /// direction "left" and, in Heap mode, every counter zero.
    pub fn new(n: usize, sjt: bool) -> (g: Self)
        ensures
            g.wf(),
            g.n == n,
            g.sjt == sjt,
            forall|i: int| 0 <= i < n ==> #[trigger] g.perm@[i] == i,
            forall|i: int| 0 <= i < n ==> #[trigger] g.dir@[i] == false,
            sjt ==> forall|i: int| 0 <= i < n ==> #[trigger] g.pos@[i] == i,
            !sjt ==> forall|i: int| 0 <= i < n ==> #[trigger] g.pos@[i] == 0,
    {
        let mut perm: Vec<usize> = Vec::new();
        for i in 0..n
            invariant
                perm@.len() == i,
                forall|j: int| 0 <= j < i ==> #[trigger] perm@[j] == j,
        {
            perm.push(i);
        }
        let mut pos: Vec<usize> = Vec::new();
        if sjt {
            for i in 0..n
                invariant
                    pos@.len() == i,
                    forall|j: int| 0 <= j < i ==> #[trigger] pos@[j] == j,
            {
                pos.push(i);
            }
        } else {
            for i in 0..n
                invariant
                    pos@.len() == i,
                    forall|j: int| 0 <= j < i ==> #[trigger] pos@[j] == 0,
            {
                pos.push(0);
            }
        }
        let mut dir: Vec<bool> = Vec::new();
        for i in 0..n
            invariant
                dir@.len() == i,
                forall|j: int| 0 <= j < i ==> #[trigger] dir@[j] == false,
        {
            dir.push(false);
        }
        Permutation { perm, pos, dir, n, sjt }
    }

    /// One step of the Steinhaus-Johnson-Trotter algorithm (Even's speedup):
    /// finds the largest value whose neighbor in its direction is smaller,
    /// swaps the two, and reports whether a new permutation was produced.
    /// When a value cannot move, its direction is flipped and the next
    /// smaller value is tried; when no value can move, the enumeration is
    /// over and `perm` is left unchanged.
    #[verifier::rlimit(60)]
    pub fn permute_sjt(&mut self) -> (more: bool)
        requires
            old(self).wf(),
            old(self).sjt,
            old(self).n >= 1,
        ensures
            final(self).wf(),
            sjt_step_post(*old(self), *final(self), more),
    {
        let mut k: usize = self.n - 1;
        while k > 0
            invariant
                self.wf(),
                self.sjt,
                self.n == old(self).n,
                self.sjt == old(self).sjt,
                k < self.n,
                self.perm@ == old(self).perm@,
                self.pos@ == old(self).pos@,
                self.dir@.len() == old(self).dir@.len(),
                forall|j: int| k < j < self.n ==> !(#[trigger] sjt_mobile(*old(self), j)),
                forall|j: int|
                    k < j < self.n ==> #[trigger] self.dir@[j] == !old(self).dir@[j],
                forall|j: int| 0 <= j <= k ==> #[trigger] self.dir@[j] == old(self).dir@[j],
            decreases k,
        {
            let c_idx = self.pos[k];
            let target: Option<usize> = if self.dir[k] {
                if c_idx + 1 < self.n {
                    Some(c_idx + 1)
                } else {
                    None
                }
            } else {
                if c_idx > 0 {
                    Some(c_idx - 1)
                } else {
                    None
                }
            };
            if let Some(t_idx) = target {
                let neighbor = self.perm[t_idx];
                if neighbor < k {
                    let moving = self.perm[c_idx];
                    assert(moving == k);
                    assert(sjt_mobile(*old(self), k as int));
                    self.perm[c_idx] = neighbor;
                    self.perm[t_idx] = moving;
                    self.pos[k] = t_idx;
                    self.pos[neighbor] = c_idx;
                    proof {
                        let pre = *old(self);
                        let kk = k as int;
                        let p0 = pre.perm@;
                        let p1 = self.perm@;
                        assert(p1 == p0.update(c_idx as int, p0[t_idx as int]).update(
                            t_idx as int,
                            p0[c_idx as int],
                        ));
                        assert forall|v: int|
                            0 <= v < self.n implies (#[trigger] self.pos@[v]) < self.n
                            && self.perm@[self.pos@[v] as int] == v by {
                            assert(pre.pos@[v] < self.n && p0[pre.pos@[v] as int] == v);
                        }
                        assert(c_idx as int == pre.pos@[kk]);
                        assert(t_idx as int == if pre.dir@[kk] {
                            c_idx + 1
                        } else {
                            c_idx - 1
                        });
                        assert(self.pos@ == pre.pos@.update(kk, t_idx).update(
                            p0[t_idx as int] as int,
                            c_idx,
                        ));
                        assert(forall|j: int| kk < j < pre.n ==> !sjt_mobile(pre, j));
                        assert(forall|j: int|
                            kk < j < pre.n ==> #[trigger] self.dir@[j] == !pre.dir@[j]);
                        assert(forall|j: int|
                            0 <= j <= kk ==> #[trigger] self.dir@[j] == pre.dir@[j]);
                        assert(sjt_step_post(pre, *self, true));
                    }
                    return true;
                }
            }
            proof {
                assert(!sjt_mobile(*old(self), k as int));
            }
            let flipped = !self.dir[k];
            self.dir[k] = flipped;
            k = k - 1;
        }
        proof {
            let pre = *old(self);
            assert(forall|j: int| 1 <= j < pre.n ==> !(#[trigger] sjt_mobile(pre, j)));
            assert(forall|j: int| 1 <= j < pre.n ==> #[trigger] self.dir@[j] == !pre.dir@[j]);
            assert(self.dir@[0] == pre.dir@[0]);
            assert(sjt_step_post(pre, *self, false));
        }
        false
    }

    /// One step of non-recursive Heap's algorithm: scans the counter array
    /// upward for an index `i` whose counter is still below `i`, performs the
    /// corresponding swap, bumps the counter and reports a new permutation;
    /// counters that have reached their bound are reset on the way. When the
    /// scan runs off the end, the enumeration is over and `perm` is left
    /// unchanged.
    #[verifier::rlimit(60)]
    pub fn permute_heap(&mut self) -> (more: bool)
        requires
            old(self).wf(),
            !old(self).sjt,
        ensures
            final(self).wf(),
            heap_step_post(*old(self), *final(self), more),
    {
        let mut i: usize = 1;
        while i < self.n
            invariant
                self.wf(),
                !self.sjt,
                self.n == old(self).n,
                self.sjt == old(self).sjt,
                1 <= i,
                self.perm@ == old(self).perm@,
                self.dir@ == old(self).dir@,
                self.pos@.len() == old(self).pos@.len(),
                forall|j: int| 1 <= j < i ==> (#[trigger] old(self).pos@[j]) == j,
                forall|j: int| 1 <= j < i ==> (#[trigger] self.pos@[j]) == 0,
                forall|j: int|
                    0 <= j < self.n && !(1 <= j < i) ==> #[trigger] self.pos@[j] == old(
                        self,
                    ).pos@[j],
            decreases self.n - i,
        {
            if self.pos[i] < i {
                let l = if i % 2 == 0 {
                    0
                } else {
                    self.pos[i]
                };
                assert(l < i);
                let vl = self.perm[l];
                let vi = self.perm[i];
                self.perm[l] = vi;
                self.perm[i] = vl;
                let c = self.pos[i];
                self.pos[i] = c + 1;
                proof {
                    let pre = *old(self);
                    let ii = i as int;
                    assert(pre.pos@[ii] < ii);
                    assert(l as int == if ii % 2 == 0 {
                        0int
                    } else {
                        pre.pos@[ii] as int
                    });
                    assert(self.perm@ == pre.perm@.update(l as int, pre.perm@[ii]).update(
                        ii,
                        pre.perm@[l as int],
                    ));
                    assert(self.pos@[ii] == pre.pos@[ii] + 1);
                    assert(forall|j: int| 1 <= j < ii ==> (#[trigger] pre.pos@[j]) == j);
                    assert(forall|j: int| 1 <= j < ii ==> #[trigger] self.pos@[j] == 0);
                    assert(forall|j: int|
                        0 <= j < pre.n && !(1 <= j <= ii) ==> #[trigger] self.pos@[j]
                            == pre.pos@[j]);
                    assert(heap_step_post(pre, *self, true));
                }
                return true;
            }
            proof {
                assert(self.pos@[i as int] <= i as int);
                assert(old(self).pos@[i as int] == i as int);
            }
            self.pos[i] = 0;
            i += 1;
        }
        proof {
            let pre = *old(self);
            assert(forall|j: int| 1 <= j < pre.n ==> (#[trigger] pre.pos@[j]) == j);
            assert(forall|j: int| 1 <= j < pre.n ==> (#[trigger] self.pos@[j]) == 0);
            assert(pre.n >= 1 ==> self.pos@[0] == pre.pos@[0]);
            assert(heap_step_post(pre, *self, false));
        }
        false
    }

    /// Advances to the next permutation: the result and the mutation of the
    /// state are exactly those of the configured strategy's step.
    pub fn permute(&mut self) -> (more: bool)
        requires
            old(self).wf(),
            old(self).n >= 1,
        ensures
            final(self).wf(),
            old(self).sjt ==> sjt_step_post(*old(self), *final(self), more),
            !old(self).sjt ==> heap_step_post(*old(self), *final(self), more),
            !more ==> final(self).perm@ == old(self).perm@,
    {
        if self.sjt {
            self.permute_sjt()
        } else {
            self.permute_heap()
        }
    }
}

} // verus!
