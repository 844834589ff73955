//! Garbage collection: marking the cells reachable from the global
//! environment and sweeping the others out of the arena.
use std::collections::HashSet;
use vstd::prelude::*;

use crate::arena::get_obj;
use vstd::std_specs::hash::{spec_hash_keys_iter, spec_keys_iter};
use vstd::std_specs::iter::IteratorSpec;
use crate::evaluator::Evaluator;
use crate::object::{LObj, LRef};

verus! {

/// `b` is held by the cons or procedure at `a`.
pub open spec fn child(m: Map<i64, LObj>, a: i64, b: i64) -> bool {
    match get_obj(m, a) {
        LObj::Cons(x, y) => b == x.0 || b == y.0,
        LObj::Expr(x, y) => b == x.0 || b == y.0,
        _ => false,
    }
}

/// `p` is a path of cells in `u`, each held by the one before it.
pub open spec fn is_path(m: Map<i64, LObj>, u: Set<i64>, p: Seq<i64>) -> bool {
    &&& p.len() > 0
    &&& forall|i: int| 0 <= i < p.len() ==> #[trigger] u.contains(p[i])
    &&& forall|i: int| 0 <= i < p.len() - 1 ==> #[trigger] child(m, p[i], p[i + 1])
}

/// A path through cells of `u` leads from `t` to `x`.
pub open spec fn reaches(m: Map<i64, LObj>, u: Set<i64>, t: i64, x: i64) -> bool {
    exists|p: Seq<i64>| #[trigger] is_path(m, u, p) && p[0] == t && p.last() == x
}

/// The cells reachable from `t` through cells of `u`.
pub open spec fn reach(m: Map<i64, LObj>, u: Set<i64>, t: i64) -> Set<i64> {
    Set::new(|x: i64| reaches(m, u, t, x))
}

pub proof fn lemma_reach_subset(m: Map<i64, LObj>, u: Set<i64>, t: i64)
    ensures
        reach(m, u, t).subset_of(u),
{
    assert forall|x: i64| reach(m, u, t).contains(x) implies u.contains(x) by {
        let p = choose|p: Seq<i64>| #[trigger] is_path(m, u, p) && p[0] == t && p.last() == x;
        assert(u.contains(p[p.len() - 1]));
    }
}

proof fn lemma_path_mono(m: Map<i64, LObj>, u: Set<i64>, v: Set<i64>, p: Seq<i64>)
    requires
        is_path(m, u, p),
        forall|i: int| 0 <= i < p.len() ==> #[trigger] v.contains(p[i]),
    ensures
        is_path(m, v, p),
{
}

proof fn lemma_path_cons(m: Map<i64, LObj>, u: Set<i64>, t: i64, q: Seq<i64>)
    requires
        is_path(m, u, q),
        u.contains(t),
        child(m, t, q[0]),
    ensures
        is_path(m, u, seq![t] + q),
        (seq![t] + q)[0] == t,
        (seq![t] + q).last() == q.last(),
{
    let p = seq![t] + q;
    assert forall|i: int| 0 <= i < p.len() implies #[trigger] u.contains(p[i]) by {
        if i > 0 {
            assert(p[i] == q[i - 1]);
        }
    }
    assert forall|i: int| 0 <= i < p.len() - 1 implies #[trigger] child(m, p[i], p[i + 1]) by {
        if i > 0 {
            assert(p[i] == q[i - 1]);
            assert(p[i + 1] == q[i]);
            assert(child(m, q[i - 1], q[(i - 1) + 1]));
        }
    }
}

proof fn lemma_path_sub(m: Map<i64, LObj>, u: Set<i64>, p: Seq<i64>, i: int, j: int)
    requires
        is_path(m, u, p),
        0 <= i < j <= p.len(),
    ensures
        is_path(m, u, p.subrange(i, j)),
{
    let q = p.subrange(i, j);
    assert forall|k: int| 0 <= k < q.len() implies #[trigger] u.contains(q[k]) by {
        assert(q[k] == p[i + k]);
    }
    assert forall|k: int| 0 <= k < q.len() - 1 implies #[trigger] child(m, q[k], q[k + 1]) by {
        assert(q[k] == p[i + k]);
        assert(q[k + 1] == p[(i + k) + 1]);
    }
}

pub proof fn lemma_path_concat(m: Map<i64, LObj>, u: Set<i64>, p: Seq<i64>, q: Seq<i64>)
    requires
        is_path(m, u, p),
        is_path(m, u, q),
        p.last() == q[0],
    ensures
        is_path(m, u, p + q.drop_first()),
        (p + q.drop_first())[0] == p[0],
        (p + q.drop_first()).last() == q.last(),
{
    let r = p + q.drop_first();
    assert forall|k: int| 0 <= k < r.len() implies #[trigger] u.contains(r[k]) by {
        if k >= p.len() {
            assert(r[k] == q[k - p.len() + 1]);
        }
    }
    assert forall|k: int| 0 <= k < r.len() - 1 implies #[trigger] child(m, r[k], r[k + 1]) by {
        if k < p.len() - 1 {
            assert(r[k] == p[k] && r[k + 1] == p[k + 1]);
        } else if k == p.len() - 1 {
            assert(r[k] == q[0] && r[k + 1] == q[1]);
            assert(child(m, q[0], q[0int + 1]));
        } else {
            let j = k - p.len() + 1;
            assert(r[k] == q[j] && r[k + 1] == q[j + 1]);
        }
    }
    if q.len() > 1 {
        assert(r.last() == q.last());
    } else {
        assert(q.drop_first() =~= Seq::<i64>::empty());
        assert(r =~= p);
    }
}

/// The last place where `t` occurs on a path that starts with `t`.
proof fn lemma_last_occurrence(p: Seq<i64>, t: i64, from: int) -> (k: int)
    requires
        0 <= from < p.len(),
        p[from] == t,
    ensures
        from <= k < p.len(),
        p[k] == t,
        forall|j: int| k < j < p.len() ==> p[j] != t,
    decreases p.len() - from,
{
    if exists|j: int| from < j < p.len() && p[j] == t {
        let j = choose|j: int| from < j < p.len() && p[j] == t;
        lemma_last_occurrence(p, t, j)
    } else {
        from
    }
}

pub proof fn lemma_reach_absent(m: Map<i64, LObj>, u: Set<i64>, t: i64)
    requires
        !u.contains(t),
    ensures
        reach(m, u, t) =~= Set::<i64>::empty(),
{
    assert forall|x: i64| !reach(m, u, t).contains(x) by {
        if reaches(m, u, t, x) {
            let p = choose|p: Seq<i64>| #[trigger] is_path(m, u, p) && p[0] == t && p.last() == x;
            assert(u.contains(p[0]));
        }
    }
}

pub proof fn lemma_reach_leaf(m: Map<i64, LObj>, u: Set<i64>, t: i64)
    requires
        u.contains(t),
        !(get_obj(m, t) is Cons || get_obj(m, t) is Expr),
    ensures
        reach(m, u, t) =~= set![t],
{
    assert(is_path(m, u, seq![t]));
    assert(reaches(m, u, t, t));
    assert forall|x: i64| reach(m, u, t).contains(x) implies x == t by {
        let p = choose|p: Seq<i64>| #[trigger] is_path(m, u, p) && p[0] == t && p.last() == x;
        if p.len() > 1 {
            assert(child(m, p[0], p[0int + 1]));
        }
    }
}

/// Marking from `t` takes `t`, then what is reachable from its car, then what
/// is still unmarked and reachable from its cdr.
pub proof fn lemma_reach_split(m: Map<i64, LObj>, u: Set<i64>, t: i64, a: i64, b: i64)
    requires
        u.contains(t),
        get_obj(m, t) == LObj::Cons(LRef(a), LRef(b)) || get_obj(m, t) == LObj::Expr(LRef(a), LRef(b)),
    ensures
        reach(m, u, t) =~= set![t].union(reach(m, u.remove(t), a)).union(
            reach(m, u.remove(t).difference(reach(m, u.remove(t), a)), b),
        ),
{
    let u1 = u.remove(t);
    let r1 = reach(m, u1, a);
    let u2 = u1.difference(r1);
    let r2 = reach(m, u2, b);
    assert(is_path(m, u, seq![t]));
    assert(reaches(m, u, t, t));
    assert forall|x: i64| r1.contains(x) implies reach(m, u, t).contains(x) by {
        let q = choose|q: Seq<i64>| #[trigger] is_path(m, u1, q) && q[0] == a && q.last() == x;
        lemma_path_mono(m, u1, u, q);
        lemma_path_cons(m, u, t, q);
    }
    assert forall|x: i64| r2.contains(x) implies reach(m, u, t).contains(x) by {
        let q = choose|q: Seq<i64>| #[trigger] is_path(m, u2, q) && q[0] == b && q.last() == x;
        assert forall|i: int| 0 <= i < q.len() implies #[trigger] u.contains(q[i]) by {
            assert(u2.contains(q[i]));
        }
        lemma_path_mono(m, u2, u, q);
        lemma_path_cons(m, u, t, q);
    }
    assert forall|x: i64| reach(m, u, t).contains(x) implies x == t || r1.contains(x) || r2.contains(x) by {
        let p = choose|p: Seq<i64>| #[trigger] is_path(m, u, p) && p[0] == t && p.last() == x;
        let k = lemma_last_occurrence(p, t, 0);
        if k < p.len() - 1 {
            let q = p.subrange(k + 1, p.len() as int);
            lemma_path_sub(m, u, p, k + 1, p.len() as int);
            assert forall|i: int| 0 <= i < q.len() implies #[trigger] u1.contains(q[i]) by {
                assert(q[i] == p[k + 1 + i]);
            }
            lemma_path_mono(m, u, u1, q);
            assert(child(m, p[k], p[k + 1]));
            assert(q[0] == p[k + 1]);
            assert(q.last() == x);
            if q[0] == a {
                assert(reaches(m, u1, a, x));
            } else {
                assert(q[0] == b);
                if exists|i: int| 0 <= i < q.len() && r1.contains(q[i]) {
                    let i = choose|i: int| 0 <= i < q.len() && r1.contains(q[i]);
                    let w = choose|w: Seq<i64>| #[trigger] is_path(m, u1, w) && w[0] == a && w.last()
                        == q[i];
                    let q2 = q.subrange(i, q.len() as int);
                    lemma_path_sub(m, u1, q, i, q.len() as int);
                    lemma_path_concat(m, u1, w, q2);
                    assert(reaches(m, u1, a, x));
                } else {
                    assert forall|i: int| 0 <= i < q.len() implies #[trigger] u2.contains(q[i]) by {
                        assert(u1.contains(q[i]));
                    }
                    lemma_path_mono(m, u1, u2, q);
                    assert(reaches(m, u2, b, x));
                }
            }
        }
    }
}

impl Evaluator {
    /// Removes from `unused` every cell reachable from `target` through cells
    /// still in `unused`.
    pub fn mark(&mut self, target: LRef, unused: &mut HashSet<i64>)
        requires
            old(unused)@.finite(),
        ensures
            final(unused)@ == old(unused)@.difference(
                reach(old(self).arena.data@, old(unused)@, target.0),
            ),
            *final(self) == *old(self),
        decreases old(unused)@.len(),
    {
        let ghost m = self.arena.data@;
        let ghost u = unused@;
        if !unused.remove(&target.0) {
            proof {
                lemma_reach_absent(m, u, target.0);
                assert(unused@ =~= u.difference(reach(m, u, target.0)));
            }
            return ;
        }
        let ghost u1 = unused@;
        proof {
            assert(u1 == u.remove(target.0));
        }
        match self.arena.get(&target) {
            LObj::Expr(a, b) => {
                self.mark(a, unused);
                let ghost u2 = unused@;
                proof {
                    vstd::set_lib::lemma_len_subset(u2, u1);
                }
                self.mark(b, unused);
                proof {
                    lemma_reach_split(m, u, target.0, a.0, b.0);
                    assert(unused@ =~= u.difference(reach(m, u, target.0)));
                }
            },
            LObj::Cons(a, b) => {
                self.mark(a, unused);
                let ghost u2 = unused@;
                proof {
                    vstd::set_lib::lemma_len_subset(u2, u1);
                }
                self.mark(b, unused);
                proof {
                    lemma_reach_split(m, u, target.0, a.0, b.0);
                    assert(unused@ =~= u.difference(reach(m, u, target.0)));
                }
            },
            _ => {
                proof {
                    lemma_reach_leaf(m, u, target.0);
                    assert(unused@ =~= u.difference(reach(m, u, target.0)));
                }
            },
        }
    }

    /// Removes from the arena every cell that cannot be reached from the
    /// global environment.
    pub fn garbage_collect(&mut self)
        requires
            old(self).inv(),
        ensures
            final(self).inv(),
            final(self).genv == old(self).genv,
            final(self).arena.last == old(self).arena.last,
            final(self).arena.data@ == old(self).arena.data@.restrict(
                reach(old(self).arena.data@, old(self).arena.data@.dom(), old(self).genv.0),
            ),
    {
        let ghost m = self.arena.data@;
        let ghost genv = self.genv.0;
        let ghost last0 = self.arena.last;
        let mut unused: HashSet<i64> = HashSet::new();
        let ghost sq = spec_keys_iter(&self.arena.data).remaining();
        let ghost mut cnt: int = 0;
        proof {
            assert(sq.unref().to_set() == m.dom());
        }
        for key in it: self.arena.data.keys()
            invariant
                self.arena.data@ == m,
                it.seq() == sq,
                cnt == it.index(),
                unused@.finite(),
                forall|k: i64|
                    #[trigger] unused@.contains(k) <==> exists|i: int| 0 <= i < cnt && *sq[i] == k,
        {
            unused.insert(*key);
            proof {
                assert forall|k: i64| #[trigger] unused@.contains(k) <==> exists|i: int|
                    0 <= i < cnt + 1 && *sq[i] == k by {
                    if k == *key {
                        assert(*sq[cnt] == k);
                    }
                }
                cnt = cnt + 1;
            }
        }
        proof {
            assert forall|k: i64| unused@.contains(k) <==> m.dom().contains(k) by {
                if unused@.contains(k) {
                    let i = choose|i: int| 0 <= i < cnt && *sq[i] == k;
                    assert(sq.unref()[i] == k);
                    assert(sq.unref().to_set().contains(k));
                }
                if m.dom().contains(k) {
                    assert(sq.unref().to_set().contains(k));
                    let i = choose|i: int| 0 <= i < sq.unref().len() && sq.unref()[i] == k;
                    assert(*sq[i] == k);
                }
            }
            assert(unused@ =~= m.dom());
        }
        let env = self.genv.clone();
        self.mark(env, &mut unused);
        let ghost r = reach(m, m.dom(), genv);
        let ghost u = unused@;
        proof {
            lemma_reach_subset(m, m.dom(), genv);
            assert(u == m.dom().difference(r));
        }
        let ghost sq2 = spec_hash_keys_iter(&unused).remaining();
        let ghost mut cnt2: int = 0;
        proof {
            assert(sq2.unref().to_set() == u);
        }
        for key in it: unused.iter()
            invariant
                it.seq() == sq2,
                cnt2 == it.index(),
                self.genv.0 == genv,
                self.arena.last == last0,
                forall|k: i64|
                    #[trigger] self.arena.data@.contains_key(k) <==> (m.contains_key(k) && !exists|i: int|
                        0 <= i < cnt2 && *sq2[i] == k),
                forall|k: i64| #[trigger] self.arena.data@.contains_key(k) ==> self.arena.data@[k] == m[k],
        {
            let ghost d0 = self.arena.data@;
            self.arena.data.remove(key);
            proof {
                assert forall|k: i64|
                    #[trigger] self.arena.data@.contains_key(k) <==> (m.contains_key(k) && !exists|i: int|
                        0 <= i < cnt2 + 1 && *sq2[i] == k) by {
                    if k == *key {
                        assert(*sq2[cnt2] == k);
                    } else {
                        if exists|i: int| 0 <= i < cnt2 + 1 && *sq2[i] == k {
                            let i = choose|i: int| 0 <= i < cnt2 + 1 && *sq2[i] == k;
                            assert(i < cnt2);
                        }
                    }
                }
                cnt2 = cnt2 + 1;
            }
        }
        proof {
            assert forall|k: i64| self.arena.data@.contains_key(k) <==> r.contains(k) by {
                if exists|i: int| 0 <= i < cnt2 && *sq2[i] == k {
                    let i = choose|i: int| 0 <= i < cnt2 && *sq2[i] == k;
                    assert(sq2.unref()[i] == k);
                    assert(sq2.unref().to_set().contains(k));
                }
                if u.contains(k) {
                    assert(sq2.unref().to_set().contains(k));
                    let i = choose|i: int| 0 <= i < sq2.unref().len() && sq2.unref()[i] == k;
                    assert(*sq2[i] == k);
                }
            }
            assert(self.arena.data@ =~= m.restrict(r));
            assert(is_path(m, m.dom(), seq![genv]));
            assert(reaches(m, m.dom(), genv, genv));
            assert(m.contains_key(genv));
            assert forall|k: i64| #[trigger] self.arena.data@.contains_key(k) implies k <= self.arena.last
                && crate::arena::refs_within(self.arena.data@[k], self.arena.last as int) by {
                assert(m.contains_key(k));
            }
        }
    }
}

} // verus!
