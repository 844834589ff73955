//! Trees that objects in the arena stand for, as the reader builds them and
//! the printer writes them.
use vstd::prelude::*;

use crate::arena::{
    car_ref, cdr_ref, get_obj, lemma_nth_tail_add, list_cars, list_len_is, nth_tail, refs_within,
};
use crate::object::{is_sym, LObj, SubFn};

verus! {

/// A tree of cells: what an object denotes once every reference in it is
/// followed. A procedure is a leaf, since the printer does not look inside it.
pub enum Sexp {
    Nil,
    Num(i64),
    Sym(Seq<char>),
    Subr(SubFn),
    Expr,
    Cons(Box<Sexp>, Box<Sexp>),
}

/// `o` stands for the tree `t` in `m`, and every reference followed on the
/// way lies in `(lo, hi]`.
pub open spec fn den(m: Map<i64, LObj>, o: LObj, t: Sexp, lo: int, hi: int) -> bool
    decreases t,
{
    match t {
        Sexp::Nil => o is Nil,
        Sexp::Num(n) => o == LObj::Num(n),
        Sexp::Sym(s) => is_sym(o, s),
        Sexp::Subr(f) => o == LObj::Subr(f),
        Sexp::Expr => o matches LObj::Expr(a, d) && lo < a.0 <= hi && lo < d.0 <= hi,
        Sexp::Cons(a, d) => o matches LObj::Cons(x, y) && lo < x.0 <= hi && lo < y.0 <= hi && den(
            m,
            get_obj(m, x.0),
            *a,
            lo,
            hi,
        ) && den(m, get_obj(m, y.0), *d, lo, hi),
    }
}

/// `o` stands for the tree `t` in `m`.
pub open spec fn denotes(m: Map<i64, LObj>, o: LObj, t: Sexp) -> bool {
    den(m, o, t, i64::MIN - 1, i64::MAX as int)
}

/// The two maps hold the same objects at every key in `(lo, hi]`.
pub open spec fn same_between(m1: Map<i64, LObj>, m2: Map<i64, LObj>, lo: int, hi: int) -> bool {
    forall|k: i64| lo < k <= hi ==> #[trigger] get_obj(m1, k) == get_obj(m2, k)
}

pub proof fn lemma_den_frame(m1: Map<i64, LObj>, m2: Map<i64, LObj>, o: LObj, t: Sexp, lo: int, hi: int)
    requires
        den(m1, o, t, lo, hi),
        same_between(m1, m2, lo, hi),
    ensures
        den(m2, o, t, lo, hi),
    decreases t,
{
    if let Sexp::Cons(a, d) = t {
        if let LObj::Cons(x, y) = o {
            assert(get_obj(m1, x.0) == get_obj(m2, x.0));
            assert(get_obj(m1, y.0) == get_obj(m2, y.0));
            lemma_den_frame(m1, m2, get_obj(m1, x.0), *a, lo, hi);
            lemma_den_frame(m1, m2, get_obj(m1, y.0), *d, lo, hi);
        }
    }
}

pub proof fn lemma_den_widen(m: Map<i64, LObj>, o: LObj, t: Sexp, lo: int, hi: int, lo2: int, hi2: int)
    requires
        den(m, o, t, lo, hi),
        lo2 <= lo,
        hi <= hi2,
    ensures
        den(m, o, t, lo2, hi2),
    decreases t,
{
    if let Sexp::Cons(a, d) = t {
        if let LObj::Cons(x, y) = o {
            lemma_den_widen(m, get_obj(m, x.0), *a, lo, hi, lo2, hi2);
            lemma_den_widen(m, get_obj(m, y.0), *d, lo, hi, lo2, hi2);
        }
    }
}

pub proof fn lemma_den_refs(m: Map<i64, LObj>, o: LObj, t: Sexp, lo: int, hi: int)
    requires
        den(m, o, t, lo, hi),
    ensures
        refs_within(o, hi),
{
}

/// An object stands for at most one tree.
pub proof fn lemma_den_unique(m: Map<i64, LObj>, o: LObj, t1: Sexp, t2: Sexp, lo: int, hi: int, lo2: int, hi2: int)
    requires
        den(m, o, t1, lo, hi),
        den(m, o, t2, lo2, hi2),
    ensures
        t1 == t2,
    decreases t1,
{
    if let Sexp::Cons(a1, d1) = t1 {
        if let Sexp::Cons(a2, d2) = t2 {
            if let LObj::Cons(x, y) = o {
                lemma_den_unique(m, get_obj(m, x.0), *a1, *a2, lo, hi, lo2, hi2);
                lemma_den_unique(m, get_obj(m, y.0), *d1, *d2, lo, hi, lo2, hi2);
            }
        }
    }
}

/// The trees `ts` consed in order onto the tree `l`.
pub open spec fn prepend_trees(ts: Seq<Sexp>, l: Sexp) -> Sexp
    decreases ts.len(),
{
    if ts.len() == 0 {
        l
    } else {
        Sexp::Cons(Box::new(ts[0]), Box::new(prepend_trees(ts.drop_first(), l)))
    }
}

/// The tree of a proper list of the trees `ts`.
pub open spec fn list_tree(ts: Seq<Sexp>) -> Sexp {
    prepend_trees(ts, Sexp::Nil)
}

pub proof fn lemma_prepend_push(ts: Seq<Sexp>, e: Sexp, l: Sexp)
    ensures
        prepend_trees(ts, Sexp::Cons(Box::new(e), Box::new(l))) == prepend_trees(ts.push(e), l),
    decreases ts.len(),
{
    if ts.len() > 0 {
        lemma_prepend_push(ts.drop_first(), e, l);
        assert(ts.push(e).drop_first() =~= ts.drop_first().push(e));
        assert(ts.push(e)[0] == ts[0]);
    } else {
        assert(ts.push(e).drop_first() =~= ts);
        assert(ts.push(e)[0] == e);
        assert(prepend_trees(ts.push(e).drop_first(), l) == l);
    }
}

/// A proper list in `m` whose cells and cars all lie in `(lo, hi]` and whose
/// cars stand for the trees `ts` stands for the list of those trees.
pub proof fn lemma_den_list(m: Map<i64, LObj>, r: i64, ts: Seq<Sexp>, lo: int, hi: int)
    requires
        list_len_is(m, r, ts.len()),
        get_obj(m, nth_tail(m, r, ts.len())) is Nil,
        forall|j: nat| 1 <= j <= ts.len() ==> lo < #[trigger] nth_tail(m, r, j) <= hi,
        forall|j: int| 0 <= j < ts.len() ==> lo < #[trigger] list_cars(m, r, ts.len())[j] <= hi,
        forall|j: int|
            0 <= j < ts.len() ==> den(m, get_obj(m, list_cars(m, r, ts.len())[j]), #[trigger] ts[j], lo, hi),
    ensures
        den(m, get_obj(m, r), list_tree(ts), lo, hi),
    decreases ts.len(),
{
    let n = ts.len();
    if n == 0 {
        assert(nth_tail(m, r, 0) == r);
    } else {
        assert(nth_tail(m, r, 0) == r);
        assert(get_obj(m, nth_tail(m, r, 0)) is Cons);
        let r1 = cdr_ref(get_obj(m, r));
        assert(nth_tail(m, r, 1) == r1);
        let ts1 = ts.drop_first();
        assert forall|j: nat| #![trigger nth_tail(m, r1, j)] nth_tail(m, r, j + 1) == nth_tail(m, r1, j) by {
            lemma_nth_tail_add(m, r, 1, j);
        }
        assert forall|i: nat| i < ts1.len() implies (#[trigger] get_obj(m, nth_tail(m, r1, i))) is Cons by {
            assert(get_obj(m, nth_tail(m, r, i + 1)) is Cons);
        }
        assert(nth_tail(m, r, ts1.len() + 1) == nth_tail(m, r1, ts1.len()));
        assert forall|j: nat| 1 <= j <= ts1.len() implies lo < #[trigger] nth_tail(m, r1, j) <= hi by {
            assert(nth_tail(m, r, j + 1) == nth_tail(m, r1, j));
        }
        assert forall|j: int| 0 <= j < ts1.len() implies list_cars(m, r1, ts1.len())[j] == list_cars(
            m,
            r,
            n,
        )[j + 1] by {
            assert(nth_tail(m, r, (j + 1) as nat) == nth_tail(m, r1, j as nat));
        }
        assert forall|j: int| 0 <= j < ts1.len() implies lo < #[trigger] list_cars(m, r1, ts1.len())[j]
            <= hi by {
            assert(list_cars(m, r1, ts1.len())[j] == list_cars(m, r, n)[j + 1]);
        }
        assert forall|j: int| 0 <= j < ts1.len() implies den(
            m,
            get_obj(m, list_cars(m, r1, ts1.len())[j]),
            #[trigger] ts1[j],
            lo,
            hi,
        ) by {
            assert(list_cars(m, r1, ts1.len())[j] == list_cars(m, r, n)[j + 1]);
            assert(ts1[j] == ts[j + 1]);
        }
        lemma_den_list(m, r1, ts1, lo, hi);
        assert(list_cars(m, r, n)[0] == car_ref(get_obj(m, r)));
        assert(lo < nth_tail(m, r, 1) <= hi);
        assert(den(m, get_obj(m, list_cars(m, r, n)[0]), ts[0], lo, hi));
    }
}

} // verus!
