//! The kinetic heap: an array-backed binary min-heap whose order is taken at
//! the structure's own current time.
//!
//! Every parent/child adjacency carries an implicit certificate: the
//! `le_until` crossing query of the two priority functions names the first
//! time at which the parent may stop being below its child.  The heap repairs
//! itself only when the clock advances past the earliest such expiry, so the
//! cost of `advance_to` follows the number of order changes, not the number
//! of ticks.

use crate::aff::aff_at;
use crate::aff::bounded;
use crate::aff::le_at;
use crate::aff::lemma_bounded_eval_fits;
use crate::aff::lemma_bounded_until_ok;
use crate::aff::AffFunction;
use vstd::prelude::*;

verus! {

broadcast use vstd::seq_lib::group_to_multiset_ensures, vstd::seq_lib::to_multiset_update, vstd::multiset::group_multiset_axioms;

/// One heap slot: a stored payload together with the priority function that
/// orders it.
pub struct Slot<T> {
    pub payload: T,
    pub aff: AffFunction,
}

/// The recoverable errors: operating on an empty heap, addressing a slot
/// that does not exist, and moving the clock backwards.
#[derive(Clone, Copy, Debug, PartialEq, Eq, Structural)]
pub enum KineticError {
    Empty,
    IndexOutOfRange,
    TimeRegression,
}

/// The parent position of heap position `i`, for `i >= 1`.
pub open spec fn parent_of(i: int) -> int {
    (i - 1) / 2
}

/// The parent/child adjacency at child position `i` respects heap order at
/// time `t`.
pub open spec fn pair_ok<T>(s: Seq<Slot<T>>, t: int, i: int) -> bool {
    le_at(s[parent_of(i)].aff, s[i].aff, t)
}

/// Heap order at time `t` for every adjacency whose child position is below
/// `m`.
pub open spec fn ordered_upto<T>(s: Seq<Slot<T>>, t: int, m: int) -> bool {
    forall|i: int| 1 <= i < m ==> #[trigger] pair_ok(s, t, i)
}

/// Heap order at time `t` over the whole sequence of slots.
pub open spec fn ordered_at<T>(s: Seq<Slot<T>>, t: int) -> bool {
    ordered_upto(s, t, s.len() as int)
}

/// Every stored priority function has a bounded slope.
pub open spec fn all_bounded<T>(s: Seq<Slot<T>>) -> bool {
    forall|i: int| 0 <= i < s.len() ==> bounded(#[trigger] s[i].aff)
}

/// An array-backed kinetic binary min-heap of `(payload, priority function)`
/// pairs, ordered by the functions' values at the heap's own current time.
pub struct KineticHanger<T> {
    data: Vec<Slot<T>>,
    now: i64,
}

/// Evaluates a bounded priority function at an `i64` time; never overflows.
fn eval_at(f: &AffFunction, t: i64) -> (r: i128)
    requires
        bounded(*f),
    ensures
        r as int == aff_at(*f, t as int),
{
    proof {
        lemma_bounded_eval_fits(*f, t as int);
    }
    f.eval(t)
}

/// Exchanging two positions of a sequence keeps its multiset of elements.
proof fn lemma_swap_multiset<T>(s: Seq<T>, i: int, j: int)
    requires
        0 <= i < j < s.len(),
    ensures
        s.update(i, s[j]).update(j, s[i]).to_multiset() == s.to_multiset(),
{
    let s1 = s.update(i, s[j]);
    let s2 = s1.update(j, s[i]);
    assert(s.to_multiset().count(s[i]) > 0);
    assert(s1.to_multiset().count(s[j]) > 0) by {
        assert(s1[j] == s[j]);
        assert(s1.contains(s[j]));
    }
    assert(s2.to_multiset() =~= s.to_multiset()) by {
        assert(s1.to_multiset() == s.to_multiset().insert(s[j]).remove(s[i]));
        assert(s2.to_multiset() == s1.to_multiset().insert(s[i]).remove(s1[j]));
    }
}

/// Exchanges the slots at positions `i < j`, in place.
fn swap_slots<T>(v: &mut Vec<Slot<T>>, i: usize, j: usize)
    requires
        i < j,
        j < old(v).len(),
    ensures
        final(v)@ == old(v)@.update(i as int, old(v)@[j as int]).update(
            j as int,
            old(v)@[i as int],
        ),
        final(v)@.to_multiset() == old(v)@.to_multiset(),
{
    let ghost s0 = v@;
    let a = v.remove(i);
    let b = v.remove(j - 1);
    v.insert(i, b);
    v.insert(j, a);
    proof {
        let target = s0.update(i as int, s0[j as int]).update(j as int, s0[i as int]);
        assert(v@ =~= target);
        lemma_swap_multiset(s0, i as int, j as int);
    }
}

/// The state in the middle of a sift toward the root: every adjacency with a
/// child position below `m` holds except possibly the one above the hole `j`,
/// and the hole's own parent is already below the hole's children, so that a
/// swap across the hole cannot break the pairs underneath it.
spec fn up_ok<T>(s: Seq<Slot<T>>, t: int, m: int, j: int) -> bool {
    &&& 0 <= j < m <= s.len()
    &&& (forall|i: int| 1 <= i < m && i != j ==> #[trigger] pair_ok(s, t, i))
    &&& (j > 0 ==> (forall|c: int|
        1 <= c < m && parent_of(c) == j ==> le_at(
            s[parent_of(j)].aff,
            #[trigger] s[c].aff,
            t,
        )))
}

/// Moves the slot at position `j` toward the root until its parent is below
/// it, restoring heap order below `m` at time `t`.
fn sift_up<T>(v: &mut Vec<Slot<T>>, t: i64, j: usize, Ghost(m): Ghost<int>)
    requires
        all_bounded(old(v)@),
        up_ok(old(v)@, t as int, m, j as int),
    ensures
        final(v)@.len() == old(v)@.len(),
        all_bounded(final(v)@),
        final(v)@.to_multiset() == old(v)@.to_multiset(),
        ordered_upto(final(v)@, t as int, m),
    decreases j,
{
    if j == 0 {
        return ;
    }
    let p: usize = (j - 1) / 2;
    proof {
        assert(p as int == parent_of(j as int));
        assert(p < j);
    }
    let vp: i128 = eval_at(&v[p].aff, t);
    let vj: i128 = eval_at(&v[j].aff, t);
    if vp <= vj {
        proof {
            assert(pair_ok(v@, t as int, j as int));
        }
        return ;
    }
    let ghost s0 = v@;
    swap_slots(v, p, j);
    proof {
        let ti = t as int;
        let s1 = v@;
        let ji = j as int;
        let pi = p as int;
        assert(aff_at(s0[ji].aff, ti) < aff_at(s0[pi].aff, ti));
        assert forall|i: int| 1 <= i < m && i != pi implies #[trigger] pair_ok(s1, ti, i) by {
            if i == ji {
                assert(s1[pi] == s0[ji] && s1[ji] == s0[pi]);
            } else if parent_of(i) == pi {
                assert(pair_ok(s0, ti, i));
                assert(s1[i] == s0[i]);
            } else if parent_of(i) == ji {
                assert(le_at(s0[pi].aff, s0[i].aff, ti));
                assert(s1[i] == s0[i]);
            } else {
                assert(pair_ok(s0, ti, i));
                assert(s1[i] == s0[i] && s1[parent_of(i)] == s0[parent_of(i)]);
            }
        }
        if p > 0 {
            let gp = parent_of(pi);
            assert(0 <= gp < pi) by {
                assert(gp == (pi - 1) / 2);
            }
            assert forall|c: int| 1 <= c < m && parent_of(c) == pi implies le_at(
                s1[gp].aff,
                #[trigger] s1[c].aff,
                ti,
            ) by {
                assert(s1[gp] == s0[gp]);
                assert(pair_ok(s0, ti, pi));
                if c == ji {
                    assert(s1[ji] == s0[pi]);
                } else {
                    assert(s1[c] == s0[c]);
                    assert(pair_ok(s0, ti, c));
                }
            }
        }
        assert(up_ok(s1, ti, m, pi));
    }
    sift_up(v, t, p, Ghost(m));
}

/// Basic facts about the parent/child numbering of a binary heap: position
/// `j` has children `2j + 1` and `2j + 2` and no others, and a positive
/// position's parent lies strictly below it.
proof fn lemma_parent_children(j: int)
    requires
        0 <= j,
    ensures
        parent_of(2 * j + 1) == j,
        parent_of(2 * j + 2) == j,
        forall|c: int| 1 <= c && #[trigger] parent_of(c) == j ==> c == 2 * j + 1 || c == 2 * j + 2,
        j >= 1 ==> 0 <= parent_of(j) < j,
{
    assert forall|c: int| 1 <= c && #[trigger] parent_of(c) == j implies c == 2 * j + 1 || c == 2
        * j + 2 by {
        assert(c - 1 == 2 * ((c - 1) / 2) + ((c - 1) % 2));
    }
}

/// The state in the middle of a sift toward the leaves: every adjacency
/// holds except possibly those below the hole `j`, and the hole's parent is
/// already below the hole's children, so that a swap across the hole cannot
/// break the pair above it.
spec fn down_ok<T>(s: Seq<Slot<T>>, t: int, j: int) -> bool {
    &&& 0 <= j < s.len()
    &&& (forall|i: int| 1 <= i < s.len() && parent_of(i) != j ==> #[trigger] pair_ok(s, t, i))
    &&& (j > 0 ==> (forall|c: int|
        1 <= c < s.len() && parent_of(c) == j ==> le_at(
            s[parent_of(j)].aff,
            #[trigger] s[c].aff,
            t,
        )))
}

/// Moves the slot at position `j` toward the leaves until both children are
/// above it, restoring heap order at time `t`.
fn sift_down<T>(v: &mut Vec<Slot<T>>, t: i64, j: usize)
    requires
        all_bounded(old(v)@),
        down_ok(old(v)@, t as int, j as int),
    ensures
        final(v)@.len() == old(v)@.len(),
        all_bounded(final(v)@),
        final(v)@.to_multiset() == old(v)@.to_multiset(),
        ordered_at(final(v)@, t as int),
    decreases old(v)@.len() - j,
{
    let n: usize = v.len();
    proof {
        lemma_parent_children(j as int);
    }
    if n - 1 - j <= j {
        proof {
            assert forall|i: int| 1 <= i < n implies #[trigger] pair_ok(v@, t as int, i) by {
                if parent_of(i) == j as int {
                    assert(i >= 2 * (j as int) + 1);
                }
            }
        }
        return ;
    }
    let c1: usize = 2 * j + 1;
    let mut c: usize = c1;
    let mut vc: i128 = eval_at(&v[c1].aff, t);
    if n - 1 - j > j + 1 {
        let c2: usize = 2 * j + 2;
        let v2: i128 = eval_at(&v[c2].aff, t);
        if v2 < vc {
            c = c2;
            vc = v2;
        }
    }
    proof {
        assert(parent_of(c as int) == j as int);
        assert forall|d: int| 1 <= d < n && parent_of(d) == j as int implies aff_at(
            v@[c as int].aff,
            t as int,
        ) <= aff_at(#[trigger] v@[d].aff, t as int) by {
            assert(d == 2 * (j as int) + 1 || d == 2 * (j as int) + 2);
        }
    }
    let vj: i128 = eval_at(&v[j].aff, t);
    if vj <= vc {
        proof {
            assert forall|i: int| 1 <= i < n implies #[trigger] pair_ok(v@, t as int, i) by {
                if parent_of(i) == j as int {
                    assert(aff_at(v@[c as int].aff, t as int) <= aff_at(v@[i].aff, t as int));
                }
            }
        }
        return ;
    }
    let ghost s0 = v@;
    swap_slots(v, j, c);
    proof {
        let ti = t as int;
        let s1 = v@;
        let ji = j as int;
        let ci = c as int;
        assert forall|i: int| 1 <= i < n && parent_of(i) != ci implies #[trigger] pair_ok(
            s1,
            ti,
            i,
        ) by {
            if i == ci {
                assert(s1[ji] == s0[ci] && s1[ci] == s0[ji]);
            } else if parent_of(i) == ji {
                assert(s1[i] == s0[i]);
                assert(aff_at(s0[ci].aff, ti) <= aff_at(s0[i].aff, ti));
            } else if i == ji {
                assert(le_at(s0[parent_of(ji)].aff, s0[ci].aff, ti));
                assert(s1[parent_of(ji)] == s0[parent_of(ji)]) by {
                    lemma_parent_children(ji);
                }
            } else {
                assert(pair_ok(s0, ti, i));
                assert(s1[i] == s0[i] && s1[parent_of(i)] == s0[parent_of(i)]);
            }
        }
        assert forall|d: int| 1 <= d < n && parent_of(d) == ci implies le_at(
            s1[parent_of(ci)].aff,
            #[trigger] s1[d].aff,
            ti,
        ) by {
            lemma_parent_children(ci);
            assert(d > ci);
            assert(s1[d] == s0[d]);
            assert(pair_ok(s0, ti, d));
        }
        assert(down_ok(s1, ti, ci));
    }
    sift_down(v, t, c);
}

/// Replacing a position with the last element and then dropping the last
/// element removes exactly the replaced element from the multiset.
proof fn lemma_swap_remove_multiset<T>(s: Seq<T>, i: int)
    requires
        0 <= i < s.len(),
    ensures
        s.update(i, s.last()).drop_last().to_multiset() == s.to_multiset().remove(s[i]),
{
    let n = s.len() as int;
    let s1 = s.update(i, s.last());
    let s2 = s1.drop_last();
    assert(s.to_multiset().count(s[i]) > 0);
    assert(s1 =~= s2.push(s1[n - 1]));
    assert(s1.to_multiset() == s.to_multiset().insert(s.last()).remove(s[i]));
    assert(s1.to_multiset() == s2.to_multiset().insert(s1[n - 1]));
    assert forall|x: T|
        s2.to_multiset().count(x) == s.to_multiset().remove(s[i]).count(x) by {
        assert(s1.to_multiset().count(x) == s2.to_multiset().count(x) + (if x == s1[n - 1] {
            1int
        } else {
            0int
        }));
        assert(s1.to_multiset().count(x) == s.to_multiset().insert(s.last()).remove(
            s[i],
        ).count(x));
    }
    assert(s2.to_multiset() =~= s.to_multiset().remove(s[i]));
}

/// The heap-order law: in a heap ordered at time `t`, the root is below
/// position `j`.
proof fn lemma_root_le<T>(s: Seq<Slot<T>>, t: int, j: int)
    requires
        ordered_at(s, t),
        0 <= j < s.len(),
    ensures
        aff_at(s[0].aff, t) <= aff_at(s[j].aff, t),
    decreases j,
{
    if j > 0 {
        assert(pair_ok(s, t, j));
        lemma_parent_children(j);
        lemma_root_le(s, t, parent_of(j));
    }
}

/// The heap-order law: in a non-empty heap ordered at time `t`, the root
/// holds the minimum value at `t` over all stored elements.
pub proof fn lemma_root_min<T>(s: Seq<Slot<T>>, t: int)
    requires
        ordered_at(s, t),
    ensures
        forall|j: int|
            0 <= j < s.len() ==> aff_at(s[0].aff, t) <= aff_at(#[trigger] s[j].aff, t),
{
    assert forall|j: int| 0 <= j < s.len() implies aff_at(s[0].aff, t) <= aff_at(
        #[trigger] s[j].aff,
        t,
    ) by {
        lemma_root_le(s, t, j);
    }
}

/// The value carried by a `Some` crossing-time result, as a plain integer.
spec fn opt_i128_val(r: Option<i128>) -> int {
    r->0 as int
}

/// Scans every parent/child adjacency and reports the earliest certificate
/// expiry at or after `now`: the first time at which some adjacency stops
/// respecting heap order.  `None` means every adjacency keeps holding at
/// every time from `now` on.
fn next_expiry<T>(v: &Vec<Slot<T>>, now: i64) -> (r: Option<i128>)
    requires
        all_bounded(v@),
        ordered_at(v@, now as int),
    ensures
        r is Some ==> (now as int) < opt_i128_val(r),
        r is Some ==> (forall|i: int, t: int|
            1 <= i < v@.len() && (now as int) <= t < opt_i128_val(r) ==> #[trigger] le_at(
                v@[parent_of(i)].aff,
                v@[i].aff,
                t,
            )),
        r is Some ==> (exists|i: int|
            1 <= i < v@.len() && !le_at(v@[parent_of(i)].aff, v@[i].aff, opt_i128_val(r))),
        r is None ==> (forall|i: int, t: int|
            1 <= i < v@.len() && now as int <= t ==> #[trigger] le_at(
                v@[parent_of(i)].aff,
                v@[i].aff,
                t,
            )),
{
    let n: usize = v.len();
    let mut best: Option<i128> = None;
    let mut k: usize = 1;
    while k < n
        invariant
            1 <= k,
            n == 0 ==> k == 1,
            n > 0 ==> k <= n,
            n == v@.len(),
            all_bounded(v@),
            ordered_at(v@, now as int),
            best is Some ==> (now as int) < opt_i128_val(best),
            best is Some ==> (forall|i: int, t: int|
                1 <= i < k && (now as int) <= t < opt_i128_val(best) ==> #[trigger] le_at(
                    v@[parent_of(i)].aff,
                    v@[i].aff,
                    t,
                )),
            best is Some ==> (exists|i: int|
                1 <= i < k && !le_at(v@[parent_of(i)].aff, v@[i].aff, opt_i128_val(best))),
            best is None ==> (forall|i: int, t: int|
                1 <= i < k && now as int <= t ==> #[trigger] le_at(
                    v@[parent_of(i)].aff,
                    v@[i].aff,
                    t,
                )),
        decreases n - k,
    {
        let p: usize = (k - 1) / 2;
        proof {
            assert(p as int == parent_of(k as int));
            lemma_bounded_until_ok(v@[p as int].aff, v@[k as int].aff);
            assert(pair_ok(v@, now as int, k as int));
        }
        let fp: AffFunction = v[p].aff;
        let fk: AffFunction = v[k].aff;
        let e: Option<i128> = fp.le_until(&fk);
        match e {
            None => {
                proof {
                    assert(le_at(fp, fk, now as int));
                    assert forall|t: int| now as int <= t implies le_at(fp, fk, t) by {
                        assert(le_at(fp, fk, now as int));
                    }
                }
            },
            Some(ek) => {
                proof {
                    assert(le_at(fp, fk, now as int));
                    assert((now as int) < ek as int);
                    assert(!le_at(
                        v@[parent_of(k as int)].aff,
                        v@[k as int].aff,
                        ek as int,
                    ));
                }
                match best {
                    None => {
                        best = Some(ek);
                    },
                    Some(b) => {
                        if ek < b {
                            best = Some(ek);
                        }
                    },
                }
            },
        }
        k = k + 1;
    }
    proof {
        if best is Some {
            assert(v@.len() == k);
            let w = choose|i: int|
                1 <= i < k && !le_at(v@[parent_of(i)].aff, v@[i].aff, opt_i128_val(best));
            assert(1 <= w < v@.len() && !le_at(
                v@[parent_of(w)].aff,
                v@[w].aff,
                opt_i128_val(best),
            ));
        }
    }
    best
}

/// The common face of a kinetic priority container: a min-heap of
/// `(payload, priority function)` pairs ordered at the container's own
/// current time, with a monotonically advancing clock.
///
/// The spec methods name the container's mathematical state — its slots, its
/// clock, and its well-formedness — and every operation's contract is stated
/// over them, so the contracts below bind every implementation.
pub trait KineticHeap<T>: Sized {
    /// The stored slots, root first, in array order.
    spec fn kh_elems(&self) -> Seq<Slot<T>>;

    /// The container's current time.
    spec fn kh_time(&self) -> int;

    /// The container's invariant.
    spec fn kh_wf(&self) -> bool;

    /// The number of stored elements.
    fn len(&self) -> (r: usize)
        ensures
            r == self.kh_elems().len(),
    ;

    /// Whether the container holds no elements.
    fn is_empty(&self) -> (r: bool)
        ensures
            r == (self.kh_elems().len() == 0),
    ;

    /// Stores `payload` under the priority function `aff`.
    fn push(&mut self, payload: T, aff: &AffFunction)
        requires
            old(self).kh_wf(),
            bounded(*aff),
        ensures
            final(self).kh_wf(),
            final(self).kh_time() == old(self).kh_time(),
            final(self).kh_elems().len() == old(self).kh_elems().len() + 1,
            final(self).kh_elems().to_multiset() == old(self).kh_elems().to_multiset().insert(
                (Slot { payload, aff: *aff }),
            ),
    ;

    /// The minimal priority value at the current time, or the empty error.
    fn cur_min_value(&self) -> (r: Result<i128, KineticError>)
        requires
            self.kh_wf(),
        ensures
            (self.kh_elems().len() == 0) <==> (r is Err),
            r is Err ==> r->Err_0 == KineticError::Empty,
            r is Ok ==> r->Ok_0 as int == aff_at(self.kh_elems()[0].aff, self.kh_time()),
            r is Ok ==> (forall|j: int|
                0 <= j < self.kh_elems().len() ==> r->Ok_0 as int <= aff_at(
                    #[trigger] self.kh_elems()[j].aff,
                    self.kh_time(),
                )),
    ;

    /// A borrow of the payload that is minimal at the current time.
    fn peek(&self) -> (r: Result<&T, KineticError>)
        requires
            self.kh_wf(),
        ensures
            (self.kh_elems().len() == 0) <==> (r is Err),
            r is Err ==> r->Err_0 == KineticError::Empty,
            r is Ok ==> *r->Ok_0 == self.kh_elems()[0].payload,
            r is Ok ==> (forall|j: int|
                0 <= j < self.kh_elems().len() ==> aff_at(self.kh_elems()[0].aff, self.kh_time())
                    <= aff_at(#[trigger] self.kh_elems()[j].aff, self.kh_time())),
    ;

    /// A mutable borrow of the payload that is minimal at the current time;
    /// the caller checks non-emptiness.  Only the payload can change through
    /// the borrow, never its priority function.
    fn peek_mut(&mut self) -> (r: &mut T)
        requires
            old(self).kh_wf(),
            old(self).kh_elems().len() > 0,
        ensures
            *r == old(self).kh_elems()[0].payload,
            final(self).kh_elems() == old(self).kh_elems().update(
                0,
                (Slot { payload: *final(r), aff: old(self).kh_elems()[0].aff }),
            ),
            final(self).kh_time() == old(self).kh_time(),
            final(self).kh_wf(),
    ;

    /// Removes and returns the payload that is minimal at the current time.
    fn pop(&mut self) -> (r: Result<T, KineticError>)
        requires
            old(self).kh_wf(),
        ensures
            final(self).kh_wf(),
            final(self).kh_time() == old(self).kh_time(),
            old(self).kh_elems().len() == 0 ==> r is Err && r->Err_0 == KineticError::Empty
                && *final(self) == *old(self),
            old(self).kh_elems().len() > 0 ==> r is Ok && r->Ok_0 == old(self).kh_elems()[
                0
            ].payload && final(self).kh_elems().len() == old(self).kh_elems().len() - 1
                && final(self).kh_elems().to_multiset() == old(self).kh_elems().to_multiset().remove(
                old(self).kh_elems()[0],
            ),
    ;

    /// Removes and returns the payload at position `i`.
    fn remove(&mut self, i: usize) -> (r: Result<T, KineticError>)
        requires
            old(self).kh_wf(),
        ensures
            final(self).kh_wf(),
            final(self).kh_time() == old(self).kh_time(),
            i >= old(self).kh_elems().len() ==> r is Err && r->Err_0
                == KineticError::IndexOutOfRange && *final(self) == *old(self),
            i < old(self).kh_elems().len() ==> r is Ok && r->Ok_0 == old(self).kh_elems()[
                i as int
            ].payload && final(self).kh_elems().len() == old(self).kh_elems().len() - 1
                && final(self).kh_elems().to_multiset() == old(self).kh_elems().to_multiset().remove(
                old(self).kh_elems()[i as int],
            ),
    ;

    /// The container's current time.
    fn time(&self) -> (r: i64)
        ensures
            r as int == self.kh_time(),
    ;

    /// Advances the clock to `new_time`, or reports the monotonicity error
    /// and changes nothing.  The clock never moves backwards.
    fn advance_to(&mut self, new_time: i64) -> (r: Result<(), KineticError>)
        requires
            old(self).kh_wf(),
        ensures
            final(self).kh_wf(),
            final(self).kh_elems().len() == old(self).kh_elems().len(),
            final(self).kh_elems().to_multiset() == old(self).kh_elems().to_multiset(),
            (new_time as int) < old(self).kh_time() ==> r is Err && r->Err_0
                == KineticError::TimeRegression && *final(self) == *old(self),
            (new_time as int) >= old(self).kh_time() ==> r is Ok && final(self).kh_time()
                == new_time as int,
            final(self).kh_time() >= old(self).kh_time(),
    ;
}

impl<T> KineticHeap<T> for KineticHanger<T> {
    open spec fn kh_elems(&self) -> Seq<Slot<T>> {
        self.elems()
    }

    open spec fn kh_time(&self) -> int {
        self.cur_time()
    }

    open spec fn kh_wf(&self) -> bool {
        self.wf()
    }

    fn len(&self) -> (r: usize) {
        KineticHanger::len(self)
    }

    fn is_empty(&self) -> (r: bool) {
        KineticHanger::is_empty(self)
    }

    fn push(&mut self, payload: T, aff: &AffFunction) {
        KineticHanger::push(self, payload, aff)
    }

    fn cur_min_value(&self) -> (r: Result<i128, KineticError>) {
        KineticHanger::cur_min_value(self)
    }

    fn peek(&self) -> (r: Result<&T, KineticError>) {
        KineticHanger::peek(self)
    }

    fn peek_mut(&mut self) -> (r: &mut T) {
        KineticHanger::peek_mut(self)
    }

    fn pop(&mut self) -> (r: Result<T, KineticError>) {
        KineticHanger::pop(self)
    }

    fn remove(&mut self, i: usize) -> (r: Result<T, KineticError>) {
        KineticHanger::remove(self, i)
    }

    fn time(&self) -> (r: i64) {
        KineticHanger::time(self)
    }

    fn advance_to(&mut self, new_time: i64) -> (r: Result<(), KineticError>) {
        KineticHanger::advance_to(self, new_time)
    }
}

impl<T> KineticHanger<T> {
    /// The current slots, root first, in array order.
    pub closed spec fn elems(self) -> Seq<Slot<T>> {
        self.data@
    }

    /// The heap's current time.
    pub closed spec fn cur_time(self) -> int {
        self.now as int
    }

    /// Well-formedness: every stored function has a bounded slope and the
    /// slots respect heap order at the current time.
    pub open spec fn wf(self) -> bool {
        &&& all_bounded(self.elems())
        &&& ordered_at(self.elems(), self.cur_time())
    }

    /// Creates an empty heap whose clock starts at `time`.
    pub fn new(time: i64) -> (r: KineticHanger<T>)
        ensures
            r.wf(),
            r.elems() == Seq::<Slot<T>>::empty(),
            r.cur_time() == time as int,
    {
        let r = KineticHanger { data: Vec::new(), now: time };
        proof {
            assert(r.elems() =~= Seq::<Slot<T>>::empty());
        }
        r
    }

    /// The number of stored elements.
    pub fn len(&self) -> (r: usize)
        ensures
            r == self.elems().len(),
    {
        self.data.len()
    }

    /// Whether the heap holds no elements.
    pub fn is_empty(&self) -> (r: bool)
        ensures
            r == (self.elems().len() == 0),
    {
        self.data.len() == 0
    }

    /// The heap's current time.
    pub fn time(&self) -> (r: i64)
        ensures
            r as int == self.cur_time(),
    {
        self.now
    }

    /// Stores `payload` under the priority function `aff`, re-establishing
    /// heap order at the current time.  The clock does not move, no other
    /// element is lost or duplicated, and the size grows by exactly one.
    pub fn push(&mut self, payload: T, aff: &AffFunction)
        requires
            old(self).wf(),
            bounded(*aff),
        ensures
            final(self).wf(),
            final(self).cur_time() == old(self).cur_time(),
            final(self).elems().len() == old(self).elems().len() + 1,
            final(self).elems().to_multiset() == old(self).elems().to_multiset().insert(
                (Slot { payload, aff: *aff }),
            ),
    {
        let ghost s0 = self.data@;
        let ghost slot = (Slot { payload, aff: *aff });
        self.data.push(Slot { payload, aff: *aff });
        let n: usize = self.data.len();
        proof {
            let ti = self.now as int;
            let s1 = self.data@;
            assert(s1 == s0.push(slot));
            assert forall|i: int| 1 <= i < n - 1 && i != n - 1 implies #[trigger] pair_ok(
                s1,
                ti,
                i,
            ) by {
                assert(pair_ok(s0, ti, i));
                assert(s1[i] == s0[i] && s1[parent_of(i)] == s0[parent_of(i)]);
            }
            assert forall|c: int| 1 <= c < n && parent_of(c) == n - 1 implies false by {
                assert(c >= 2 * (n - 1) + 1) by {
                    assert(parent_of(c) == (c - 1) / 2);
                }
            }
            assert(up_ok(s1, ti, n as int, n as int - 1));
        }
        sift_up(&mut self.data, self.now, n - 1, Ghost(n as int));
    }

    /// A borrow of the payload whose priority is minimal at the current
    /// time, or the empty-heap error.
    pub fn peek(&self) -> (r: Result<&T, KineticError>)
        requires
            self.wf(),
        ensures
            (self.elems().len() == 0) <==> (r is Err),
            r is Err ==> r->Err_0 == KineticError::Empty,
            r is Ok ==> *r->Ok_0 == self.elems()[0].payload,
            r is Ok ==> (forall|j: int|
                0 <= j < self.elems().len() ==> aff_at(self.elems()[0].aff, self.cur_time())
                    <= aff_at(#[trigger] self.elems()[j].aff, self.cur_time())),
    {
        if self.data.len() == 0 {
            Err(KineticError::Empty)
        } else {
            proof {
                lemma_root_min(self.elems(), self.cur_time());
            }
            Ok(&self.data[0].payload)
        }
    }

    /// The minimal priority value at the current time, or the empty-heap
    /// error.
    pub fn cur_min_value(&self) -> (r: Result<i128, KineticError>)
        requires
            self.wf(),
        ensures
            (self.elems().len() == 0) <==> (r is Err),
            r is Err ==> r->Err_0 == KineticError::Empty,
            r is Ok ==> r->Ok_0 as int == aff_at(self.elems()[0].aff, self.cur_time()),
            r is Ok ==> (forall|j: int|
                0 <= j < self.elems().len() ==> r->Ok_0 as int <= aff_at(
                    #[trigger] self.elems()[j].aff,
                    self.cur_time(),
                )),
    {
        if self.data.len() == 0 {
            Err(KineticError::Empty)
        } else {
            proof {
                lemma_root_min(self.elems(), self.cur_time());
            }
            Ok(eval_at(&self.data[0].aff, self.now))
        }
    }

    /// Removes and returns the payload whose priority is minimal at the
    /// current time, or reports the empty-heap error and changes nothing.
    /// The clock does not move, and exactly the root element leaves the
    /// multiset of stored elements.
    pub fn pop(&mut self) -> (r: Result<T, KineticError>)
        requires
            old(self).wf(),
        ensures
            final(self).wf(),
            final(self).cur_time() == old(self).cur_time(),
            old(self).elems().len() == 0 ==> r is Err && r->Err_0 == KineticError::Empty
                && *final(self) == *old(self),
            old(self).elems().len() > 0 ==> r is Ok && r->Ok_0 == old(self).elems()[0].payload
                && final(self).elems().len() == old(self).elems().len() - 1
                && final(self).elems().to_multiset() == old(self).elems().to_multiset().remove(
                old(self).elems()[0],
            ) && (forall|j: int|
                0 <= j < old(self).elems().len() ==> aff_at(
                    old(self).elems()[0].aff,
                    old(self).cur_time(),
                ) <= aff_at(#[trigger] old(self).elems()[j].aff, old(self).cur_time())),
    {
        let n: usize = self.data.len();
        if n == 0 {
            return Err(KineticError::Empty);
        }
        proof {
            lemma_root_min(self.elems(), self.cur_time());
        }
        let ghost s0 = self.data@;
        let slot = self.data.swap_remove(0);
        proof {
            lemma_swap_remove_multiset(s0, 0);
            let ti = self.now as int;
            let s2 = self.data@;
            if s2.len() > 0 {
                assert forall|i: int| 1 <= i < s2.len() && parent_of(i) != 0 implies
                    #[trigger] pair_ok(s2, ti, i) by {
                    lemma_parent_children(i);
                    assert(s2[i] == s0[i] && s2[parent_of(i)] == s0[parent_of(i)]);
                    assert(pair_ok(s0, ti, i));
                }
                assert(down_ok(s2, ti, 0));
            }
        }
        if self.data.len() > 0 {
            sift_down(&mut self.data, self.now, 0);
        }
        Ok(slot.payload)
    }

    /// Removes and returns the payload at position `i`, or reports the
    /// out-of-range error and changes nothing.  The clock does not move, and
    /// exactly the element of slot `i` leaves the multiset of stored
    /// elements.
    pub fn remove(&mut self, i: usize) -> (r: Result<T, KineticError>)
        requires
            old(self).wf(),
        ensures
            final(self).wf(),
            final(self).cur_time() == old(self).cur_time(),
            i >= old(self).elems().len() ==> r is Err && r->Err_0 == KineticError::IndexOutOfRange
                && *final(self) == *old(self),
            i < old(self).elems().len() ==> r is Ok
                && r->Ok_0 == old(self).elems()[i as int].payload
                && final(self).elems().len() == old(self).elems().len() - 1
                && final(self).elems().to_multiset() == old(self).elems().to_multiset().remove(
                old(self).elems()[i as int],
            ),
    {
        let n: usize = self.data.len();
        if i >= n {
            return Err(KineticError::IndexOutOfRange);
        }
        let ghost s0 = self.data@;
        let ghost ti = self.now as int;
        let slot = self.data.swap_remove(i);
        proof {
            lemma_swap_remove_multiset(s0, i as int);
        }
        let m: usize = self.data.len();
        if i >= m {
            proof {
                let s2 = self.data@;
                assert forall|k: int| 1 <= k < m implies #[trigger] pair_ok(s2, ti, k) by {
                    lemma_parent_children(k);
                    assert(s2[k] == s0[k] && s2[parent_of(k)] == s0[parent_of(k)]);
                    assert(pair_ok(s0, ti, k));
                }
            }
            return Ok(slot.payload);
        }
        proof {
            let s2 = self.data@;
            assert(s2[i as int] == s0[n - 1]);
            assert forall|k: int| 0 <= k < m && k != i as int implies s2[k] == s0[k] by {}
        }
        if i > 0 {
            let p: usize = (i - 1) / 2;
            proof {
                lemma_parent_children(i as int);
                assert(p as int == parent_of(i as int));
            }
            let vp: i128 = eval_at(&self.data[p].aff, self.now);
            let vi: i128 = eval_at(&self.data[i].aff, self.now);
            if vp > vi {
                proof {
                    let s2 = self.data@;
                    let ii = i as int;
                    assert forall|k: int| 1 <= k < m && k != ii implies #[trigger] pair_ok(
                        s2,
                        ti,
                        k,
                    ) by {
                        lemma_parent_children(k);
                        if parent_of(k) == ii {
                            assert(k > ii);
                            assert(s2[k] == s0[k]);
                            assert(pair_ok(s0, ti, k));
                            assert(pair_ok(s0, ti, ii));
                            assert(aff_at(s2[ii].aff, ti) < aff_at(s0[p as int].aff, ti));
                        } else {
                            assert(s2[k] == s0[k] && s2[parent_of(k)] == s0[parent_of(k)]);
                            assert(pair_ok(s0, ti, k));
                        }
                    }
                    assert forall|c: int| 1 <= c < m && parent_of(c) == i as int implies le_at(
                        s2[parent_of(i as int)].aff,
                        #[trigger] s2[c].aff,
                        ti,
                    ) by {
                        assert(c > i as int);
                        assert(s2[c] == s0[c]);
                        assert(pair_ok(s0, ti, c));
                        assert(pair_ok(s0, ti, i as int));
                    }
                    assert(up_ok(s2, ti, m as int, i as int));
                }
                sift_up(&mut self.data, self.now, i, Ghost(m as int));
            } else {
                proof {
                    let s2 = self.data@;
                    let ii = i as int;
                    assert forall|k: int| 1 <= k < m && parent_of(k) != ii implies
                        #[trigger] pair_ok(s2, ti, k) by {
                        lemma_parent_children(k);
                        if k == ii {
                            assert(s2[parent_of(ii)] == s0[parent_of(ii)]);
                        } else {
                            assert(s2[k] == s0[k] && s2[parent_of(k)] == s0[parent_of(k)]);
                            assert(pair_ok(s0, ti, k));
                        }
                    }
                    assert forall|c: int| 1 <= c < m && parent_of(c) == ii implies le_at(
                        s2[parent_of(ii)].aff,
                        #[trigger] s2[c].aff,
                        ti,
                    ) by {
                        assert(c > ii);
                        assert(s2[c] == s0[c]);
                        assert(pair_ok(s0, ti, c));
                        assert(pair_ok(s0, ti, ii));
                        assert(s2[parent_of(ii)] == s0[parent_of(ii)]);
                    }
                    assert(down_ok(s2, ti, ii));
                }
                sift_down(&mut self.data, self.now, i);
            }
        } else {
            proof {
                let s2 = self.data@;
                assert forall|k: int| 1 <= k < m && parent_of(k) != 0 implies #[trigger] pair_ok(
                    s2,
                    ti,
                    k,
                ) by {
                    lemma_parent_children(k);
                    assert(s2[k] == s0[k] && s2[parent_of(k)] == s0[parent_of(k)]);
                    assert(pair_ok(s0, ti, k));
                }
                assert(down_ok(s2, ti, 0));
            }
            sift_down(&mut self.data, self.now, 0);
        }
        Ok(slot.payload)
    }

    /// A borrow of the payload at position `i`, or the out-of-range error.
    pub fn index(&self, i: usize) -> (r: Result<&T, KineticError>)
        ensures
            (i < self.elems().len()) <==> (r is Ok),
            r is Ok ==> *r->Ok_0 == self.elems()[i as int].payload,
            r is Err ==> r->Err_0 == KineticError::IndexOutOfRange,
    {
        if i < self.data.len() {
            Ok(&self.data[i].payload)
        } else {
            Err(KineticError::IndexOutOfRange)
        }
    }

    /// A mutable borrow of the payload at position `i`.  The caller checks
    /// the bound; only the payload can change through the borrow, never the
    /// priority function, so heap order is preserved.
    pub fn index_mut(&mut self, i: usize) -> (r: &mut T)
        requires
            old(self).wf(),
            i < old(self).elems().len(),
        ensures
            *r == old(self).elems()[i as int].payload,
            final(self).elems() == old(self).elems().update(
                i as int,
                (Slot { payload: *final(r), aff: old(self).elems()[i as int].aff }),
            ),
            final(self).cur_time() == old(self).cur_time(),
            final(self).wf(),
    {
        let ghost s0 = self.data@;
        let ghost ti = self.now as int;
        proof {
            assert forall|x: T| ordered_at(
                #[trigger] s0.update(i as int, (Slot { payload: x, aff: s0[i as int].aff })),
                ti,
            ) && all_bounded(
                s0.update(i as int, (Slot { payload: x, aff: s0[i as int].aff })),
            ) by {
                let s1 = s0.update(i as int, (Slot { payload: x, aff: s0[i as int].aff }));
                assert forall|k: int| 1 <= k < s1.len() implies #[trigger] pair_ok(s1, ti, k) by {
                    assert(s1[k].aff == s0[k].aff && s1[parent_of(k)].aff == s0[parent_of(k)].aff);
                    assert(pair_ok(s0, ti, k));
                }
                assert forall|k: int| 0 <= k < s1.len() implies bounded(#[trigger] s1[k].aff) by {
                    assert(s1[k].aff == s0[k].aff);
                }
            }
        }
        let slot = vstd::std_specs::vec::vec_index_mut(&mut self.data, i);
        &mut slot.payload
    }

    /// Advances the clock to `new_time`, repairing heap order exactly at the
    /// times where some adjacency's order flips: the loop repeatedly asks for
    /// the earliest certificate expiry at or before `new_time`, jumps there,
    /// re-establishes order at that very time, and stops as soon as no
    /// certificate expires in the remaining interval, so the work done is
    /// driven by order changes, never by the width of the jump.  Asking for a
    /// time before the current one reports the monotonicity error and changes
    /// nothing.
    pub fn advance_to(&mut self, new_time: i64) -> (r: Result<(), KineticError>)
        requires
            old(self).wf(),
        ensures
            final(self).wf(),
            final(self).elems().len() == old(self).elems().len(),
            final(self).elems().to_multiset() == old(self).elems().to_multiset(),
            (new_time as int) < old(self).cur_time() ==> r is Err && r->Err_0
                == KineticError::TimeRegression && *final(self) == *old(self),
            (new_time as int) >= old(self).cur_time() ==> r is Ok && final(self).cur_time()
                == new_time as int,
            final(self).cur_time() >= old(self).cur_time(),
    {
        if new_time < self.now {
            return Err(KineticError::TimeRegression);
        }
        let ghost orig = *self;
        let mut done: bool = false;
        while !done
            invariant
                self.wf(),
                orig.cur_time() <= self.cur_time(),
                self.cur_time() <= new_time as int,
                self.elems().len() == orig.elems().len(),
                self.elems().to_multiset() == orig.elems().to_multiset(),
                done ==> self.cur_time() == new_time as int,
            decreases (new_time as int - self.cur_time()) + (if done {
                0int
            } else {
                1int
            }),
        {
            let e: Option<i128> = next_expiry(&self.data, self.now);
            match e {
                None => {
                    proof {
                        let s = self.data@;
                        let ti = new_time as int;
                        assert forall|i: int| 1 <= i < s.len() implies #[trigger] pair_ok(
                            s,
                            ti,
                            i,
                        ) by {
                            assert(le_at(s[parent_of(i)].aff, s[i].aff, ti));
                        }
                    }
                    self.now = new_time;
                    done = true;
                },
                Some(ek) => {
                    if ek > new_time as i128 {
                        proof {
                            let s = self.data@;
                            let ti = new_time as int;
                            assert forall|i: int| 1 <= i < s.len() implies #[trigger] pair_ok(
                                s,
                                ti,
                                i,
                            ) by {
                                assert(le_at(s[parent_of(i)].aff, s[i].aff, ti));
                            }
                        }
                        self.now = new_time;
                        done = true;
                    } else {
                        let et: i64 = ek as i64;
                        self.now = et;
                        let ghost pre = self.data@;
                        let n2: usize = self.data.len();
                        let mut k: usize = 1;
                        while k < n2
                            invariant
                                1 <= k,
                                k <= n2 || n2 == 0,
                                n2 == self.data@.len(),
                                all_bounded(self.data@),
                                ordered_upto(self.data@, et as int, k as int),
                                self.data@.to_multiset() == pre.to_multiset(),
                                self.now == et,
                            decreases n2 - k,
                        {
                            proof {
                                let s = self.data@;
                                lemma_parent_children(k as int);
                                assert forall|c: int|
                                    1 <= c < k + 1 && parent_of(c) == k as int implies false by {
                                    assert(c == 2 * (k as int) + 1 || c == 2 * (k as int) + 2);
                                }
                                assert(up_ok(s, et as int, k as int + 1, k as int));
                            }
                            sift_up(&mut self.data, et, k, Ghost(k as int + 1));
                            k = k + 1;
                        }
                    }
                },
            }
        }
        Ok(())
    }

    /// A mutable borrow of the root payload, the minimum at the current
    /// time.  The caller checks non-emptiness.
    pub fn peek_mut(&mut self) -> (r: &mut T)
        requires
            old(self).wf(),
            old(self).elems().len() > 0,
        ensures
            *r == old(self).elems()[0].payload,
            final(self).elems() == old(self).elems().update(
                0,
                (Slot { payload: *final(r), aff: old(self).elems()[0].aff }),
            ),
            final(self).cur_time() == old(self).cur_time(),
            final(self).wf(),
            forall|j: int|
                0 <= j < old(self).elems().len() ==> aff_at(
                    old(self).elems()[0].aff,
                    old(self).cur_time(),
                ) <= aff_at(#[trigger] old(self).elems()[j].aff, old(self).cur_time()),
    {
        proof {
            lemma_root_min(old(self).elems(), old(self).cur_time());
        }
        self.index_mut(0)
    }
}

} // verus!
