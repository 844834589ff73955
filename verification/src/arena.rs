//! The arena: a map from references to objects, with a counter that hands out
//! fresh references, and the list operations built on it.
use std::collections::HashMap;
use vstd::prelude::*;

use crate::object::{LObj, LRef};

verus! {

/// The object that `k` names in `m`; a reference with no cell reads as `Nil`.
pub open spec fn get_obj(m: Map<i64, LObj>, k: i64) -> LObj {
    if m.contains_key(k) {
        m[k]
    } else {
        LObj::Nil
    }
}

/// Every reference held by `o` is at most `bound`.
pub open spec fn refs_within(o: LObj, bound: int) -> bool {
    match o {
        LObj::Expr(a, d) => a.0 <= bound && d.0 <= bound,
        LObj::Cons(a, d) => a.0 <= bound && d.0 <= bound,
        _ => true,
    }
}

/// Well-formed contents for a counter at `last`: every cell, and every
/// reference stored in a cell, was handed out already.
pub open spec fn heap_wf(m: Map<i64, LObj>, last: int) -> bool {
    &&& 0 <= last
    &&& forall|k: i64| #[trigger] m.contains_key(k) ==> k <= last && refs_within(m[k], last)
}

/// `new` holds the same cells as `old` at every key up to `bound`.
pub open spec fn agrees_upto(old: Map<i64, LObj>, new: Map<i64, LObj>, bound: int) -> bool {
    forall|k: i64|
        #![trigger old.contains_key(k)]
        #![trigger new.contains_key(k)]
        k <= bound ==> (old.contains_key(k) == new.contains_key(k) && (old.contains_key(k)
            ==> old[k] == new[k]))
}

pub proof fn lemma_agrees_trans(
    m1: Map<i64, LObj>,
    m2: Map<i64, LObj>,
    m3: Map<i64, LObj>,
    b1: int,
    b2: int,
)
    requires
        agrees_upto(m1, m2, b1),
        agrees_upto(m2, m3, b2),
        b1 <= b2,
    ensures
        agrees_upto(m1, m3, b1),
{
    assert forall|k: i64|
        #![trigger m1.contains_key(k)]
        #![trigger m3.contains_key(k)]
        k <= b1 implies (m1.contains_key(k) == m3.contains_key(k) && (m1.contains_key(k) ==> m1[k]
        == m3[k])) by {
        assert(m1.contains_key(k) == m2.contains_key(k));
        assert(m2.contains_key(k) == m3.contains_key(k));
    }
}

pub open spec fn car_ref(o: LObj) -> i64 {
    match o {
        LObj::Cons(a, _) => a.0,
        _ => 0,
    }
}

pub open spec fn cdr_ref(o: LObj) -> i64 {
    match o {
        LObj::Cons(_, d) => d.0,
        _ => 0,
    }
}

/// The reference reached from `r` after following `i` cdr links; the walk
/// stays put once it reaches a cell that is not a cons.
pub open spec fn nth_tail(m: Map<i64, LObj>, r: i64, i: nat) -> i64
    decreases i,
{
    if i == 0 {
        r
    } else {
        let p = nth_tail(m, r, (i - 1) as nat);
        if get_obj(m, p) is Cons {
            cdr_ref(get_obj(m, p))
        } else {
            p
        }
    }
}

/// `r` starts a list of exactly `n` cons cells.
pub open spec fn list_len_is(m: Map<i64, LObj>, r: i64, n: nat) -> bool {
    &&& forall|i: nat| i < n ==> (#[trigger] get_obj(m, nth_tail(m, r, i))) is Cons
    &&& !(get_obj(m, nth_tail(m, r, n)) is Cons)
}

/// `r` starts a finite list: following cdr links ends at a non-cons.
pub open spec fn is_list(m: Map<i64, LObj>, r: i64) -> bool {
    exists|n: nat| list_len_is(m, r, n)
}

pub open spec fn list_len(m: Map<i64, LObj>, r: i64) -> nat {
    choose|n: nat| list_len_is(m, r, n)
}

/// The references held in the car of the first `n` cells of the list at `r`.
pub open spec fn list_cars(m: Map<i64, LObj>, r: i64, n: nat) -> Seq<i64> {
    Seq::new(n, |i: int| car_ref(get_obj(m, nth_tail(m, r, i as nat))))
}

pub proof fn lemma_nth_tail_add(m: Map<i64, LObj>, r: i64, a: nat, b: nat)
    ensures
        nth_tail(m, r, a + b) == nth_tail(m, nth_tail(m, r, a), b),
    decreases b,
{
    if b > 0 {
        lemma_nth_tail_add(m, r, a, (b - 1) as nat);
        assert((a + b - 1) as nat == a + (b - 1) as nat);
    }
}

/// Past the end of a list the walk stays at its last reference.
pub proof fn lemma_nth_tail_stays(m: Map<i64, LObj>, r: i64, n: nat, j: nat)
    requires
        !(get_obj(m, nth_tail(m, r, n)) is Cons),
        n <= j,
    ensures
        nth_tail(m, r, j) == nth_tail(m, r, n),
    decreases j,
{
    if j > n {
        lemma_nth_tail_stays(m, r, n, (j - 1) as nat);
    }
}

pub proof fn lemma_list_len_unique(m: Map<i64, LObj>, r: i64, n1: nat, n2: nat)
    requires
        list_len_is(m, r, n1),
        list_len_is(m, r, n2),
    ensures
        n1 == n2,
{
    if n1 < n2 {
        assert(get_obj(m, nth_tail(m, r, n1)) is Cons);
    } else if n2 < n1 {
        assert(get_obj(m, nth_tail(m, r, n2)) is Cons);
    }
}

pub proof fn lemma_list_len(m: Map<i64, LObj>, r: i64, n: nat)
    requires
        list_len_is(m, r, n),
    ensures
        is_list(m, r),
        list_len(m, r) == n,
{
    lemma_list_len_unique(m, r, n, list_len(m, r));
}

/// The cells of a finite list are pairwise distinct, and distinct from the
/// reference that ends it.
pub proof fn lemma_list_cells_distinct(m: Map<i64, LObj>, r: i64, n: nat, i: nat, j: nat)
    requires
        list_len_is(m, r, n),
        i < j <= n,
    ensures
        nth_tail(m, r, i) != nth_tail(m, r, j),
{
    if nth_tail(m, r, i) == nth_tail(m, r, j) {
        let k = (n - j) as nat;
        lemma_nth_tail_add(m, r, i, k);
        lemma_nth_tail_add(m, r, j, k);
        assert(nth_tail(m, r, j + k) == nth_tail(m, r, n));
        assert(get_obj(m, nth_tail(m, r, i + k)) is Cons);
    }
}

/// In a well-formed heap every reference reached from an issued reference
/// was issued.
pub proof fn lemma_nth_tail_bounded(m: Map<i64, LObj>, last: int, r: i64, i: nat)
    requires
        heap_wf(m, last),
        r <= last,
    ensures
        nth_tail(m, r, i) <= last,
    decreases i,
{
    if i > 0 {
        lemma_nth_tail_bounded(m, last, r, (i - 1) as nat);
        let p = nth_tail(m, r, (i - 1) as nat);
        if m.contains_key(p) {
            assert(refs_within(m[p], last));
        }
    }
}

/// Walks from an issued reference see only cells up to `last`, so they are
/// the same in any map that agrees up to `last`.
pub proof fn lemma_nth_tail_frame(m1: Map<i64, LObj>, m2: Map<i64, LObj>, last: int, r: i64, i: nat)
    requires
        heap_wf(m1, last),
        agrees_upto(m1, m2, last),
        r <= last,
    ensures
        nth_tail(m2, r, i) == nth_tail(m1, r, i),
        get_obj(m2, nth_tail(m1, r, i)) == get_obj(m1, nth_tail(m1, r, i)),
    decreases i,
{
    lemma_nth_tail_bounded(m1, last, r, i);
    if i > 0 {
        lemma_nth_tail_frame(m1, m2, last, r, (i - 1) as nat);
    }
    let p = nth_tail(m1, r, i);
    assert(m1.contains_key(p) == m2.contains_key(p));
}

pub proof fn lemma_list_frame(m1: Map<i64, LObj>, m2: Map<i64, LObj>, last: int, r: i64, n: nat)
    requires
        heap_wf(m1, last),
        agrees_upto(m1, m2, last),
        r <= last,
        list_len_is(m1, r, n),
    ensures
        list_len_is(m2, r, n),
        list_cars(m2, r, n) == list_cars(m1, r, n),
        forall|i: nat| #![trigger nth_tail(m2, r, i)] nth_tail(m2, r, i) == nth_tail(m1, r, i),
{
    assert forall|i: nat| #![trigger nth_tail(m2, r, i)] nth_tail(m2, r, i) == nth_tail(m1, r, i) by {
        lemma_nth_tail_frame(m1, m2, last, r, i);
    }
    assert forall|i: nat| i <= n implies get_obj(m2, nth_tail(m2, r, i)) == get_obj(
        m1,
        nth_tail(m1, r, i),
    ) by {
        lemma_nth_tail_frame(m1, m2, last, r, i);
    }
    assert(list_cars(m2, r, n) =~= list_cars(m1, r, n));
}

/// After reversal the `i`th cell of the list at `lst` links back to the cell
/// before it, and the first cell links to the fresh end cell `z`.
pub open spec fn rev_link(m: Map<i64, LObj>, lst: i64, z: i64, i: nat) -> i64 {
    if i == 0 {
        z
    } else {
        nth_tail(m, lst, (i - 1) as nat)
    }
}

/// `key` is one of the first `k` cells of the list at `lst`.
pub open spec fn is_cell_before(m: Map<i64, LObj>, lst: i64, key: i64, k: nat) -> bool {
    exists|i: nat| i < k && nth_tail(m, lst, i) == key
}

/// `m` is `m0` with a fresh `Nil` cell at `z` and the first `k` cells of the
/// list at `lst` relinked backwards.
#[verifier::opaque]
pub open spec fn relinked(m0: Map<i64, LObj>, lst: i64, z: i64, k: nat, m: Map<i64, LObj>) -> bool {
    &&& m.dom() == m0.dom().insert(z)
    &&& m[z] == LObj::Nil
    &&& forall|i: nat|
        i < k ==> m[#[trigger] nth_tail(m0, lst, i)] == LObj::Cons(
            LRef(car_ref(get_obj(m0, nth_tail(m0, lst, i)))),
            LRef(rev_link(m0, lst, z, i)),
        )
    &&& forall|key: i64|
        #[trigger] m.contains_key(key) && key != z && !is_cell_before(m0, lst, key, k) ==> m[key]
            == m0[key]
}

/// Walking the reversed list visits the old cells backwards.
pub proof fn lemma_relinked_walk(
    m0: Map<i64, LObj>,
    lst: i64,
    z: i64,
    n: nat,
    m: Map<i64, LObj>,
    j: nat,
)
    requires
        list_len_is(m0, lst, n),
        relinked(m0, lst, z, n, m),
        forall|i: nat| i < n ==> nth_tail(m0, lst, i) != z,
        j <= n,
    ensures
        nth_tail(m, rev_link(m0, lst, z, n), j) == rev_link(m0, lst, z, (n - j) as nat),
    decreases j,
{
    reveal(relinked);
    if j > 0 {
        lemma_relinked_walk(m0, lst, z, n, m, (j - 1) as nat);
        let k = (n - j) as nat;
        let c = nth_tail(m0, lst, k);
        assert(rev_link(m0, lst, z, (k + 1) as nat) == c);
        assert(m.contains_key(c));
    }
}

pub proof fn lemma_relinked_list(m0: Map<i64, LObj>, lst: i64, z: i64, n: nat, m: Map<i64, LObj>)
    requires
        list_len_is(m0, lst, n),
        relinked(m0, lst, z, n, m),
        forall|i: nat| i < n ==> nth_tail(m0, lst, i) != z,
    ensures
        list_len_is(m, rev_link(m0, lst, z, n), n),
        list_cars(m, rev_link(m0, lst, z, n), n) == list_cars(m0, lst, n).reverse(),
{
    reveal(relinked);
    let r = rev_link(m0, lst, z, n);
    assert forall|j: nat| j <= n implies nth_tail(m, r, j) == rev_link(m0, lst, z, (n - j) as nat) by {
        lemma_relinked_walk(m0, lst, z, n, m, j);
    }
    assert forall|j: nat| j < n implies (#[trigger] get_obj(m, nth_tail(m, r, j))) == LObj::Cons(
        LRef(car_ref(get_obj(m0, nth_tail(m0, lst, (n - 1 - j) as nat)))),
        LRef(rev_link(m0, lst, z, (n - 1 - j) as nat)),
    ) by {
        let k = (n - 1 - j) as nat;
        assert(rev_link(m0, lst, z, (n - j) as nat) == nth_tail(m0, lst, k));
        assert(m.contains_key(nth_tail(m0, lst, k)));
    }
    assert(nth_tail(m, r, n) == z);
    assert(m.contains_key(z));
    assert(list_cars(m, r, n) =~= list_cars(m0, lst, n).reverse());
}

/// Prepending a cell to a list of `n` cells gives a list of `n + 1` cells.
pub proof fn lemma_list_cons(m: Map<i64, LObj>, c: i64, x: i64, r: i64, n: nat)
    requires
        get_obj(m, c) == LObj::Cons(LRef(x), LRef(r)),
        list_len_is(m, r, n),
    ensures
        list_len_is(m, c, n + 1),
        list_cars(m, c, n + 1) == seq![x] + list_cars(m, r, n),
        forall|j: nat| #![trigger nth_tail(m, r, j)] nth_tail(m, c, j + 1) == nth_tail(m, r, j),
{
    assert(nth_tail(m, c, 0) == c);
    assert(nth_tail(m, c, 1) == r);
    assert forall|j: nat| #![trigger nth_tail(m, r, j)] nth_tail(m, c, j + 1) == nth_tail(m, r, j) by {
        lemma_nth_tail_add(m, c, 1, j);
    }
    assert forall|i: nat| i < n + 1 implies (#[trigger] get_obj(m, nth_tail(m, c, i))) is Cons by {
        if i > 0 {
            assert(nth_tail(m, c, ((i - 1) as nat) + 1) == nth_tail(m, r, (i - 1) as nat));
        }
    }
    assert(nth_tail(m, c, n + 1) == nth_tail(m, r, n));
    assert forall|i: int| 0 <= i < n + 1 implies #[trigger] list_cars(m, c, n + 1)[i] == (seq![x]
        + list_cars(m, r, n))[i] by {
        if i > 0 {
            assert(nth_tail(m, c, ((i - 1) as nat) + 1) == nth_tail(m, r, (i - 1) as nat));
        }
    }
    assert(list_cars(m, c, n + 1) =~= seq![x] + list_cars(m, r, n));
}

/// `a` and `b` run side by side for exactly `k` steps: both are cons cells at
/// every step before `k`, and at step `k` one of them is not.
pub open spec fn zip_len_is(m: Map<i64, LObj>, a: i64, b: i64, k: nat) -> bool {
    &&& forall|i: nat|
        i < k ==> (#[trigger] get_obj(m, nth_tail(m, a, i))) is Cons && get_obj(
            m,
            nth_tail(m, b, i),
        ) is Cons
    &&& !(get_obj(m, nth_tail(m, a, k)) is Cons && get_obj(m, nth_tail(m, b, k)) is Cons)
}

pub open spec fn zip_len(m: Map<i64, LObj>, a: i64, b: i64) -> nat {
    choose|k: nat| zip_len_is(m, a, b, k)
}

/// The pair of the `j`th cars of the lists at `a` and `b`.
pub open spec fn pair_of(m: Map<i64, LObj>, a: i64, b: i64, j: nat) -> LObj {
    LObj::Cons(
        LRef(car_ref(get_obj(m, nth_tail(m, a, j)))),
        LRef(car_ref(get_obj(m, nth_tail(m, b, j)))),
    )
}

/// A list built backwards in `i` steps with cells handed out from `base + 1`
/// on: a `Nil` cell at `base + 1`, then for each step `j` an item cell at
/// `base + 2 + 2j` holding `items(j)` and a spine cell at `base + 3 + 2j`; the
/// spine holds the items newest first.
#[verifier::opaque]
pub open spec fn spine(
    m: Map<i64, LObj>,
    ret: i64,
    i: nat,
    base: int,
    items: spec_fn(nat) -> LObj,
) -> bool {
    &&& list_len_is(m, ret, i)
    &&& nth_tail(m, ret, i) == base + 1
    &&& forall|t: nat| t < i ==> #[trigger] nth_tail(m, ret, t) == base + 3 + 2 * (i - 1 - t)
    &&& forall|t: int| 0 <= t < i ==> #[trigger] list_cars(m, ret, i)[t] == base + 2 + 2 * (i - 1 - t)
    &&& forall|j: nat|
        j < i ==> get_obj(m, (base + 2 + 2 * j) as i64) == #[trigger] items(j)
}

pub proof fn lemma_spine_step(
    m1: Map<i64, LObj>,
    ret1: i64,
    i: nat,
    base: int,
    items: spec_fn(nat) -> LObj,
    m3: Map<i64, LObj>,
)
    requires
        spine(m1, ret1, i, base, items),
        heap_wf(m1, base + 1 + 2 * i),
        ret1 <= base + 1 + 2 * i,
        base + 3 + 2 * i <= i64::MAX,
        m3 == m1.insert((base + 2 + 2 * i) as i64, items(i)).insert(
            (base + 3 + 2 * i) as i64,
            LObj::Cons(LRef((base + 2 + 2 * i) as i64), LRef(ret1)),
        ),
    ensures
        spine(m3, (base + 3 + 2 * i) as i64, i + 1, base, items),
        agrees_upto(m1, m3, base + 1 + 2 * i),
{
    reveal(spine);
    let ret = (base + 3 + 2 * i) as i64;
    assert(agrees_upto(m1, m3, base + 1 + 2 * i));
    lemma_list_frame(m1, m3, base + 1 + 2 * i, ret1, i);
    lemma_list_cons(m3, ret, (base + 2 + 2 * i) as i64, ret1, i);
    assert forall|t: nat| t < i + 1 implies #[trigger] nth_tail(m3, ret, t) == base + 3 + 2 * (i - t) by {
        if t > 0 {
            assert(nth_tail(m3, ret, ((t - 1) as nat) + 1) == nth_tail(m3, ret1, (t - 1) as nat));
            assert(nth_tail(m1, ret1, (t - 1) as nat) == base + 3 + 2 * (i - 1 - (t - 1)));
        } else {
            assert(nth_tail(m3, ret, 0) == ret);
        }
    }
    assert(nth_tail(m3, ret, i + 1) == nth_tail(m3, ret1, i));
    assert forall|t: int| 0 <= t < i + 1 implies #[trigger] list_cars(m3, ret, i + 1)[t] == base + 2
        + 2 * (i - t) by {
        if t > 0 {
            assert(list_cars(m3, ret, i + 1)[t] == list_cars(m1, ret1, i)[t - 1]);
        }
    }
    assert forall|j: nat| j < i + 1 implies get_obj(m3, (base + 2 + 2 * j) as i64) == #[trigger] items(j) by {
        if j < i {
            assert(get_obj(m1, (base + 2 + 2 * j) as i64) == items(j));
        }
    }
}

/// A cell of the spine is never at `key` when `key` is
/// at most `base` or is an item cell.
pub proof fn lemma_spine_cells(
    m4: Map<i64, LObj>,
    ret4: i64,
    k: nat,
    base: int,
    items: spec_fn(nat) -> LObj,
    key: i64,
    j: nat,
)
    requires
        spine(m4, ret4, k, base, items),
        key <= base || (j < k && key == base + 2 + 2 * j),
    ensures
        !is_cell_before(m4, ret4, key, k),
{
    reveal(spine);
    if is_cell_before(m4, ret4, key, k) {
        let t = choose|t: nat| t < k && nth_tail(m4, ret4, t) == key;
        assert(nth_tail(m4, ret4, t) == base + 3 + 2 * (k - 1 - t));
    }
}

/// After reversal, a cell that is not on the reversed spine keeps its object.
pub proof fn lemma_relinked_keeps(
    m4: Map<i64, LObj>,
    ret4: i64,
    z: i64,
    k: nat,
    m5: Map<i64, LObj>,
    key: i64,
)
    requires
        relinked(m4, ret4, z, k, m5),
        key != z,
        !is_cell_before(m4, ret4, key, k),
    ensures
        m5.contains_key(key) == m4.contains_key(key),
        get_obj(m5, key) == get_obj(m4, key),
{
    reveal(relinked);
    assert(m5.dom().contains(key) == m4.dom().insert(z).contains(key));
}

pub proof fn lemma_spine_item_kept(
    m4: Map<i64, LObj>,
    ret4: i64,
    k: nat,
    base: int,
    items: spec_fn(nat) -> LObj,
    m5: Map<i64, LObj>,
    r: i64,
    j: nat,
)
    requires
        spine(m4, ret4, k, base, items),
        0 <= base,
        base + 2 + 2 * k <= i64::MAX,
        relinked(m4, ret4, (base + 2 + 2 * k) as i64, k, m5),
        list_cars(m5, r, k) == list_cars(m4, ret4, k).reverse(),
        j < k,
    ensures
        get_obj(m5, list_cars(m5, r, k)[j as int]) == items(j),
{
    reveal(spine);
    let key = (base + 2 + 2 * j) as i64;
    assert(list_cars(m5, r, k)[j as int] == list_cars(m4, ret4, k).reverse()[j as int]);
    assert(list_cars(m4, ret4, k)[(k - 1 - j) as int] == key);
    lemma_spine_cells(m4, ret4, k, base, items, key, j);
    lemma_relinked_keeps(m4, ret4, (base + 2 + 2 * k) as i64, k, m5, key);
}

/// Reversing a finished spine leaves its item cells, and every
/// cell up to `base`, as they were.
pub proof fn lemma_spine_reversed(
    m4: Map<i64, LObj>,
    ret4: i64,
    k: nat,
    base: int,
    m0: Map<i64, LObj>,
    items: spec_fn(nat) -> LObj,
    m5: Map<i64, LObj>,
    r: i64,
)
    requires
        spine(m4, ret4, k, base, items),
        0 <= base,
        base + 2 + 2 * k <= i64::MAX,
        agrees_upto(m0, m4, base),
        relinked(m4, ret4, (base + 2 + 2 * k) as i64, k, m5),
        list_len_is(m5, r, k),
        list_cars(m5, r, k) == list_cars(m4, ret4, k).reverse(),
    ensures
        agrees_upto(m0, m5, base),
        forall|j: nat|
            j < k ==> get_obj(m5, #[trigger] list_cars(m5, r, k)[j as int]) == items(j),
{
    assert forall|j: nat| j < k implies get_obj(m5, #[trigger] list_cars(m5, r, k)[j as int])
        == items(j) by {
        lemma_spine_item_kept(m4, ret4, k, base, items, m5, r, j);
    }
    assert forall|key: i64|
        #![trigger m0.contains_key(key)]
        #![trigger m5.contains_key(key)]
        key <= base implies (m0.contains_key(key) == m5.contains_key(key) && (m0.contains_key(key)
        ==> m0[key] == m5[key])) by {
        assert(m4.contains_key(key) == m0.contains_key(key));
        lemma_spine_cells(m4, ret4, k, base, items, key, 0);
        lemma_relinked_keeps(m4, ret4, (base + 2 + 2 * k) as i64, k, m5, key);
    }
}

/// The reversed spine ends in the fresh `Nil` cell, and every one of its
/// cells, and every item cell, was handed out after `base`.
pub proof fn lemma_spine_reversed_cells(
    m4: Map<i64, LObj>,
    ret4: i64,
    k: nat,
    base: int,
    items: spec_fn(nat) -> LObj,
    m5: Map<i64, LObj>,
    r: i64,
)
    requires
        spine(m4, ret4, k, base, items),
        0 <= base,
        base + 2 + 2 * k <= i64::MAX,
        relinked(m4, ret4, (base + 2 + 2 * k) as i64, k, m5),
        r == rev_link(m4, ret4, (base + 2 + 2 * k) as i64, k),
        list_cars(m5, r, k) == list_cars(m4, ret4, k).reverse(),
    ensures
        nth_tail(m5, r, k) == base + 2 + 2 * k,
        get_obj(m5, (base + 2 + 2 * k) as i64) == LObj::Nil,
        forall|i: nat| i < k ==> base < #[trigger] nth_tail(m5, r, i) < base + 2 + 2 * k,
        forall|j: int| 0 <= j < k ==> base < #[trigger] list_cars(m5, r, k)[j] < base + 2 + 2 * k,
{
    reveal(spine);
    reveal(relinked);
    let z = (base + 2 + 2 * k) as i64;
    assert forall|i: nat| i < k implies nth_tail(m4, ret4, i) != z by {
        assert(nth_tail(m4, ret4, i) == base + 3 + 2 * (k - 1 - i));
    }
    lemma_relinked_walk(m4, ret4, z, k, m5, k);
    assert(m5.contains_key(z));
    assert forall|i: nat| i < k implies base < #[trigger] nth_tail(m5, r, i) < base + 2 + 2 * k by {
        lemma_relinked_walk(m4, ret4, z, k, m5, i);
        let t = (k - i - 1) as nat;
        assert(rev_link(m4, ret4, z, (k - i) as nat) == nth_tail(m4, ret4, t));
        assert(nth_tail(m4, ret4, t) == base + 3 + 2 * (k - 1 - t));
    }
    assert forall|j: int| 0 <= j < k implies base < #[trigger] list_cars(m5, r, k)[j] < base + 2 + 2 * k by {
        assert(list_cars(m5, r, k)[j] == list_cars(m4, ret4, k).reverse()[j]);
        assert(list_cars(m4, ret4, k)[k - 1 - j] == base + 2 + 2 * (k - 1 - (k - 1 - j)));
    }
}

/// The list at `r` runs through `p + q` distinct cons cells and then comes
/// back to its `p`th cell: a cycle of `q` cells after `p` others.
pub open spec fn rho(m: Map<i64, LObj>, r: i64, p: nat, q: nat) -> bool {
    &&& q >= 1
    &&& forall|i: nat| i < p + q ==> (#[trigger] get_obj(m, nth_tail(m, r, i))) is Cons
    &&& nth_tail(m, r, p + q) == nth_tail(m, r, p)
    &&& forall|i: nat, j: nat| i < j < p + q ==> nth_tail(m, r, i) != nth_tail(m, r, j)
}

proof fn lemma_all_cons(m: Map<i64, LObj>, r: i64, i: nat)
    requires
        !is_list(m, r),
    ensures
        forall|j: nat| j <= i ==> (#[trigger] get_obj(m, nth_tail(m, r, j))) is Cons,
    decreases i,
{
    if i > 0 {
        lemma_all_cons(m, r, (i - 1) as nat);
    }
    if !(get_obj(m, nth_tail(m, r, i)) is Cons) {
        assert(list_len_is(m, r, i));
    }
}

proof fn lemma_first_repeat(m: Map<i64, LObj>, r: i64, j: nat)
    requires
        m.dom().finite(),
        forall|i: nat| (#[trigger] get_obj(m, nth_tail(m, r, i))) is Cons,
        forall|a: nat, b: nat| a < b < j ==> nth_tail(m, r, a) != nth_tail(m, r, b),
        j <= m.dom().len() + 1,
    ensures
        exists|p: nat, q: nat| rho(m, r, p, q),
    decreases m.dom().len() + 1 - j,
{
    if j == m.dom().len() + 1 {
        let s = Seq::new(j, |i: int| nth_tail(m, r, i as nat));
        assert(s.no_duplicates()) by {
            assert forall|a: int, b: int| 0 <= a < s.len() && 0 <= b < s.len() && a != b implies s[a] != s[b] by {
                if a < b {
                    assert(nth_tail(m, r, a as nat) != nth_tail(m, r, b as nat));
                } else {
                    assert(nth_tail(m, r, b as nat) != nth_tail(m, r, a as nat));
                }
            }
        }
        s.unique_seq_to_set();
        assert forall|k: i64| s.to_set().contains(k) implies m.dom().contains(k) by {
            let i = choose|i: int| 0 <= i < s.len() && s[i] == k;
            assert(get_obj(m, nth_tail(m, r, i as nat)) is Cons);
        }
        vstd::set_lib::lemma_len_subset(s.to_set(), m.dom());
        assert(false);
    } else if exists|a: nat| a < j && nth_tail(m, r, a) == nth_tail(m, r, j) {
        let a = choose|a: nat| a < j && nth_tail(m, r, a) == nth_tail(m, r, j);
        assert(rho(m, r, a, (j - a) as nat));
    } else {
        lemma_first_repeat(m, r, j + 1);
    }
}

/// In a finite arena the cdr chain from `r` either ends, or runs into a cycle.
pub proof fn lemma_list_or_rho(m: Map<i64, LObj>, r: i64)
    requires
        m.dom().finite(),
    ensures
        is_list(m, r) || exists|p: nat, q: nat| rho(m, r, p, q),
{
    if !is_list(m, r) {
        assert forall|i: nat| (#[trigger] get_obj(m, nth_tail(m, r, i))) is Cons by {
            lemma_all_cons(m, r, i);
        }
        lemma_first_repeat(m, r, 0);
    }
}

/// The cdr that the `i`th cell of the cyclic list at `r` gets from reversal
/// in place: the cells before the cycle keep theirs, and the cycle runs
/// backwards.
pub open spec fn rho_link(m: Map<i64, LObj>, r: i64, p: nat, q: nat, i: nat) -> i64 {
    if i < p {
        nth_tail(m, r, i + 1)
    } else if i == p {
        nth_tail(m, r, (p + q - 1) as nat)
    } else {
        nth_tail(m, r, (i - 1) as nat)
    }
}

/// `m` is `m0` after reversing in place the cyclic list at `lst`, of `p`
/// cells and a cycle of `q`: a fresh `Nil` cell at `z`, each cell of the list
/// holding its car and its `rho_link`, every other cell as it was.
pub open spec fn rho_reversed(m0: Map<i64, LObj>, lst: i64, z: i64, p: nat, q: nat, m: Map<i64, LObj>) -> bool {
    &&& m.dom() == m0.dom().insert(z)
    &&& m[z] == LObj::Nil
    &&& forall|i: nat|
        i < p + q ==> m[#[trigger] nth_tail(m0, lst, i)] == LObj::Cons(
            LRef(car_ref(get_obj(m0, nth_tail(m0, lst, i)))),
            LRef(rho_link(m0, lst, p, q, i)),
        )
    &&& forall|key: i64|
        #[trigger] m.contains_key(key) && key != z && !is_cell_before(m0, lst, key, p + q) ==> m[key]
            == m0[key]
}

/// Halfway back through a reversed cycle: the cells before the `k`th still
/// link backwards, those from the `k`th on hold their final cdr.
#[verifier::opaque]
pub open spec fn rho_relinked(
    m0: Map<i64, LObj>,
    lst: i64,
    z: i64,
    p: nat,
    q: nat,
    k: nat,
    m: Map<i64, LObj>,
) -> bool {
    &&& m.dom() == m0.dom().insert(z)
    &&& m[z] == LObj::Nil
    &&& forall|i: nat|
        i < p + q ==> m[#[trigger] nth_tail(m0, lst, i)] == LObj::Cons(
            LRef(car_ref(get_obj(m0, nth_tail(m0, lst, i)))),
            LRef(
                if i < k {
                    rev_link(m0, lst, z, i)
                } else {
                    rho_link(m0, lst, p, q, i)
                },
            ),
        )
    &&& forall|key: i64|
        #[trigger] m.contains_key(key) && key != z && !is_cell_before(m0, lst, key, p + q) ==> m[key]
            == m0[key]
}

/// Relinking one more cell of the list at `lst` backwards.
proof fn lemma_relinked_step(
    m0: Map<i64, LObj>,
    lst: i64,
    z: i64,
    i: nat,
    prev: Map<i64, LObj>,
    m: Map<i64, LObj>,
)
    requires
        relinked(m0, lst, z, i, prev),
        get_obj(m0, nth_tail(m0, lst, i)) is Cons,
        nth_tail(m0, lst, i) != z,
        forall|j: nat| j < i ==> nth_tail(m0, lst, j) != nth_tail(m0, lst, i),
        m == prev.insert(
            nth_tail(m0, lst, i),
            LObj::Cons(LRef(car_ref(get_obj(m0, nth_tail(m0, lst, i)))), LRef(rev_link(m0, lst, z, i))),
        ),
    ensures
        relinked(m0, lst, z, i + 1, m),
        get_obj(prev, nth_tail(m0, lst, i)) == get_obj(m0, nth_tail(m0, lst, i)),
{
    reveal(relinked);
    let c = nth_tail(m0, lst, i);
    assert(m0.contains_key(c));
    assert(!is_cell_before(m0, lst, c, i));
    assert(prev.contains_key(c));
    assert forall|j: nat| j < i + 1 implies m[#[trigger] nth_tail(m0, lst, j)] == LObj::Cons(
        LRef(car_ref(get_obj(m0, nth_tail(m0, lst, j)))),
        LRef(rev_link(m0, lst, z, j)),
    ) by {
        if j < i {
            assert(nth_tail(m0, lst, j) != c);
        }
    }
    assert forall|key: i64|
        #[trigger] m.contains_key(key) && key != z && !is_cell_before(m0, lst, key, (i + 1) as nat)
            implies m[key] == m0[key] by {
        assert(key != c);
        assert(!is_cell_before(m0, lst, key, i));
    }
    assert(m.dom() =~= m0.dom().insert(z));
}

/// Past the end of the first pass, the cycle's first cell is relinked to
/// its last one.
proof fn lemma_rho_turn(
    m0: Map<i64, LObj>,
    lst: i64,
    z: i64,
    p: nat,
    q: nat,
    prev: Map<i64, LObj>,
    m: Map<i64, LObj>,
)
    requires
        rho(m0, lst, p, q),
        relinked(m0, lst, z, p + q, prev),
        forall|i: nat| i < p + q ==> nth_tail(m0, lst, i) != z,
        m == prev.insert(
            nth_tail(m0, lst, p),
            LObj::Cons(
                LRef(car_ref(get_obj(m0, nth_tail(m0, lst, p)))),
                LRef(rev_link(m0, lst, z, p + q)),
            ),
        ),
    ensures
        rho_relinked(m0, lst, z, p, q, p, m),
        get_obj(prev, nth_tail(m0, lst, p)) == LObj::Cons(
            LRef(car_ref(get_obj(m0, nth_tail(m0, lst, p)))),
            LRef(rev_link(m0, lst, z, p)),
        ),
{
    reveal(relinked);
    reveal(rho_relinked);
    let c = nth_tail(m0, lst, p);
    assert(prev.contains_key(c));
    assert(rev_link(m0, lst, z, p + q) == nth_tail(m0, lst, (p + q - 1) as nat));
    assert forall|i: nat| i < p + q implies m[#[trigger] nth_tail(m0, lst, i)] == LObj::Cons(
        LRef(car_ref(get_obj(m0, nth_tail(m0, lst, i)))),
        LRef(
            if i < p {
                rev_link(m0, lst, z, i)
            } else {
                rho_link(m0, lst, p, q, i)
            },
        ),
    ) by {
        if i != p {
            assert(nth_tail(m0, lst, i) != c);
        }
    }
    assert forall|key: i64|
        #[trigger] m.contains_key(key) && key != z && !is_cell_before(m0, lst, key, p + q) implies m[key]
            == m0[key] by {
        if key == c {
            assert(p < p + q);
        }
    }
    assert(m.dom() =~= m0.dom().insert(z));
}

/// One step back through the cells before the cycle.
proof fn lemma_rho_back(
    m0: Map<i64, LObj>,
    lst: i64,
    z: i64,
    p: nat,
    q: nat,
    k: nat,
    prev: Map<i64, LObj>,
    m: Map<i64, LObj>,
)
    requires
        rho(m0, lst, p, q),
        1 <= k <= p,
        rho_relinked(m0, lst, z, p, q, k, prev),
        m == prev.insert(
            nth_tail(m0, lst, (k - 1) as nat),
            LObj::Cons(
                LRef(car_ref(get_obj(m0, nth_tail(m0, lst, (k - 1) as nat)))),
                LRef(rho_link(m0, lst, p, q, (k - 1) as nat)),
            ),
        ),
    ensures
        rho_relinked(m0, lst, z, p, q, (k - 1) as nat, m),
        get_obj(prev, nth_tail(m0, lst, (k - 1) as nat)) == LObj::Cons(
            LRef(car_ref(get_obj(m0, nth_tail(m0, lst, (k - 1) as nat)))),
            LRef(rev_link(m0, lst, z, (k - 1) as nat)),
        ),
{
    reveal(rho_relinked);
    let j = (k - 1) as nat;
    let c = nth_tail(m0, lst, j);
    assert(prev.contains_key(c));
    assert forall|i: nat| i < p + q implies m[#[trigger] nth_tail(m0, lst, i)] == LObj::Cons(
        LRef(car_ref(get_obj(m0, nth_tail(m0, lst, i)))),
        LRef(
            if i < j {
                rev_link(m0, lst, z, i)
            } else {
                rho_link(m0, lst, p, q, i)
            },
        ),
    ) by {
        if i != j {
            assert(nth_tail(m0, lst, i) != c);
        }
    }
    assert forall|key: i64|
        #[trigger] m.contains_key(key) && key != z && !is_cell_before(m0, lst, key, p + q) implies m[key]
            == m0[key] by {
        if key == c {
            assert(j < p + q);
        }
    }
    assert(m.dom() =~= m0.dom().insert(z));
}

/// The arena of cells.
#[derive(Debug)]
pub struct Arena {
    pub last: i64,
    pub data: HashMap<i64, LObj>,
}

impl Arena {
    /// The object at reference `k`.
    pub open spec fn obj(&self, k: i64) -> LObj {
        get_obj(self.data@, k)
    }

    pub open spec fn wf(&self) -> bool {
        heap_wf(self.data@, self.last as int)
    }

    pub fn new() -> (a: Arena)
        ensures
            a.last == 0,
            a.data@ == Map::<i64, LObj>::empty(),
            a.wf(),
    {
        Arena { last: 0, data: HashMap::new() }
    }

    pub fn get(&self, key: &LRef) -> (r: LObj)
        ensures
            r == self.obj(key.0),
    {
        match self.data.get(&key.0) {
            Some(val) => val.clone(),
            _ => LObj::Nil,
        }
    }

    pub fn set(&mut self, key: LRef, val: LObj)
        ensures
            final(self).data@ == old(self).data@.insert(key.0, val),
            final(self).last == old(self).last,
            old(self).wf() && key.0 <= old(self).last && refs_within(val, old(self).last as int)
                ==> final(self).wf(),
    {
        self.data.insert(key.0, val);
    }

    pub fn make(&mut self, obj: LObj) -> (r: LRef)
        requires
            old(self).last < i64::MAX,
        ensures
            final(self).last == old(self).last + 1,
            r.0 == final(self).last,
            final(self).data@ == old(self).data@.insert(r.0, obj),
            old(self).wf() ==> !old(self).data@.contains_key(r.0),
            old(self).wf() ==> agrees_upto(old(self).data@, final(self).data@, old(self).last as int),
            old(self).wf() && refs_within(obj, final(self).last as int) ==> final(self).wf(),
    {
        self.last = self.last + 1;
        self.data.insert(self.last, obj);
        LRef(self.last)
    }

    /// Pairs the elements of two lists: a fresh list whose `j`th element is a
    /// fresh cell holding the `j`th cars of `lst1` and `lst2`, as long as both
    /// lists last.
    pub fn pairlis(&mut self, lst1: LRef, lst2: LRef) -> (r: LRef)
        requires
            old(self).wf(),
            lst1.0 <= old(self).last,
            lst2.0 <= old(self).last,
            exists|k: nat| zip_len_is(old(self).data@, lst1.0, lst2.0, k),
            old(self).last + 2 * zip_len(old(self).data@, lst1.0, lst2.0) + 2 <= i64::MAX,
        ensures
            final(self).wf(),
            final(self).last == old(self).last + 2 * zip_len(old(self).data@, lst1.0, lst2.0) + 2,
            agrees_upto(old(self).data@, final(self).data@, old(self).last as int),
            list_len_is(final(self).data@, r.0, zip_len(old(self).data@, lst1.0, lst2.0)),
            forall|j: nat|
                j < zip_len(old(self).data@, lst1.0, lst2.0) ==> get_obj(
                    final(self).data@,
                    #[trigger] list_cars(
                        final(self).data@,
                        r.0,
                        zip_len(old(self).data@, lst1.0, lst2.0),
                    )[j as int],
                ) == pair_of(old(self).data@, lst1.0, lst2.0, j),
            nth_tail(final(self).data@, r.0, zip_len(old(self).data@, lst1.0, lst2.0))
                == final(self).last,
            final(self).obj(final(self).last) == LObj::Nil,
            forall|i: nat|
                i < zip_len(old(self).data@, lst1.0, lst2.0) ==> old(self).last
                    < #[trigger] nth_tail(final(self).data@, r.0, i) <= final(self).last,
            forall|j: int|
                0 <= j < zip_len(old(self).data@, lst1.0, lst2.0) ==> old(self).last
                    < #[trigger] list_cars(
                    final(self).data@,
                    r.0,
                    zip_len(old(self).data@, lst1.0, lst2.0),
                )[j] <= final(self).last,
    {
        let ghost m0 = self.data@;
        let ghost a0 = lst1.0;
        let ghost b0 = lst2.0;
        let ghost last0 = self.last as int;
        let ghost k = zip_len(m0, a0, b0);
        let ghost items = |j: nat| pair_of(m0, a0, b0, j);
        let mut lst1 = lst1;
        let mut lst2 = lst2;
        let mut ret = self.make(LObj::Nil);
        let ghost mut i: nat = 0;
        proof {
            assert(zip_len_is(m0, a0, b0, k));
            assert(nth_tail(self.data@, ret.0, 0) == ret.0);
            assert(list_cars(self.data@, ret.0, 0) =~= Seq::<i64>::empty());
            reveal(spine);
        }
        loop
            invariant
                zip_len_is(m0, a0, b0, k),
                heap_wf(m0, last0),
                a0 <= last0,
                b0 <= last0,
                last0 + 2 * k + 2 <= i64::MAX,
                i <= k,
                lst1.0 == nth_tail(m0, a0, i),
                lst2.0 == nth_tail(m0, b0, i),
                self.last == last0 + 1 + 2 * i,
                self.wf(),
                agrees_upto(m0, self.data@, last0),
                ret.0 <= self.last,
                spine(self.data@, ret.0, i, last0, items),
                items == (|j: nat| pair_of(m0, a0, b0, j)),
            ensures
                i == k,
                self.last == last0 + 1 + 2 * k,
                self.wf(),
                agrees_upto(m0, self.data@, last0),
                spine(self.data@, ret.0, k, last0, items),
            decreases k - i,
        {
            proof {
                lemma_nth_tail_bounded(m0, last0, a0, i);
                lemma_nth_tail_bounded(m0, last0, b0, i);
                lemma_nth_tail_frame(m0, self.data@, last0, a0, i);
                lemma_nth_tail_frame(m0, self.data@, last0, b0, i);
            }
            match self.get(&lst1) {
                LObj::Cons(car1, cdr1) => {
                    match self.get(&lst2) {
                        LObj::Cons(car2, cdr2) => {
                            proof {
                                assert(i < k);
                            }
                            let ghost m1 = self.data@;
                            let ghost ret1 = ret.0;
                            let car = self.make(LObj::Cons(car1, car2));
                            ret = self.make(LObj::Cons(car, ret));
                            proof {
                                lemma_spine_step(m1, ret1, i, last0, items, self.data@);
                                assert forall|key: i64|
                                    #![trigger m0.contains_key(key)]
                                    #![trigger self.data@.contains_key(key)]
                                    key <= last0 implies (m0.contains_key(key)
                                        == self.data@.contains_key(key) && (m0.contains_key(key)
                                        ==> m0[key] == self.data@[key])) by {
                                    assert(m1.contains_key(key) == m0.contains_key(key));
                                    assert(m1.contains_key(key) == self.data@.contains_key(key));
                                }
                            }
                            lst1 = cdr1;
                            lst2 = cdr2;
                            proof {
                                i = i + 1;
                            }
                            continue ;
                        },
                        _ => {},
                    }
                },
                _ => {},
            }
            proof {
                if i < k {
                    assert(get_obj(m0, nth_tail(m0, a0, i)) is Cons);
                }
            }
            break ;
        }
        let ghost m4 = self.data@;
        let ghost ret4 = ret.0;
        proof {
            reveal(spine);
            lemma_list_len(m4, ret4, k);
        }
        let r = self.nreverse(ret);
        proof {
            lemma_spine_reversed(m4, ret4, k, last0, m0, items, self.data@, r.0);
            lemma_spine_reversed_cells(m4, ret4, k, last0, items, self.data@, r.0);
        }
        r
    }

    /// Reverses the list at `lst` in place by relinking its cells; a fresh
    /// `Nil` cell ends the reversed list. Returns its first cell. A list that
    /// runs into a cycle is walked forwards and then back: the cycle ends up
    /// reversed, the cells before it as they were, and the answer is `lst`.
    #[verifier::rlimit(40)]
    pub fn nreverse(&mut self, lst: LRef) -> (r: LRef)
        requires
            old(self).wf(),
            lst.0 <= old(self).last,
            old(self).last < i64::MAX,
        ensures
            final(self).last == old(self).last + 1,
            final(self).wf(),
            is_list(old(self).data@, lst.0) ==> {
                let n = list_len(old(self).data@, lst.0);
                &&& relinked(old(self).data@, lst.0, final(self).last, n, final(self).data@)
                &&& r.0 == rev_link(old(self).data@, lst.0, final(self).last, n)
                &&& list_len_is(final(self).data@, r.0, n)
                &&& list_cars(final(self).data@, r.0, n) == list_cars(old(self).data@, lst.0, n).reverse()
            },
            !is_list(old(self).data@, lst.0) ==> r == lst && exists|p: nat, q: nat|
                rho(old(self).data@, lst.0, p, q) && rho_reversed(
                    old(self).data@,
                    lst.0,
                    final(self).last,
                    p,
                    q,
                    final(self).data@,
                ),
    {
        reveal(relinked);
        let ghost m0 = self.data@;
        let ghost lst0 = lst.0;
        let ghost last0 = self.last as int;
        let ghost cyc = !is_list(m0, lst0);
        let ghost n: nat = 0;
        let ghost p: nat = 0;
        let ghost q: nat = 0;
        proof {
            lemma_list_or_rho(m0, lst0);
            if cyc {
                let (p1, q1) = choose|p1: nat, q1: nat| rho(m0, lst0, p1, q1);
                p = p1;
                q = q1;
            } else {
                n = list_len(m0, lst0);
                assert(list_len_is(m0, lst0, n));
            }
            assert forall|i: nat| #![trigger nth_tail(m0, lst0, i)] nth_tail(m0, lst0, i) <= last0 by {
                lemma_nth_tail_bounded(m0, last0, lst0, i);
            }
        }
        let ghost bound: nat = if cyc { 2 * p + q + 1 } else { n };
        let mut lst = lst;
        let mut ret = self.make(LObj::Nil);
        let ghost z = ret.0;
        let ghost mut i: nat = 0;
        proof {
            assert(self.data@.dom() =~= m0.dom().insert(z));
        }
        loop
            invariant
                heap_wf(m0, last0),
                lst0 <= last0,
                forall|i: nat| #![trigger nth_tail(m0, lst0, i)] nth_tail(m0, lst0, i) <= last0,
                z == last0 + 1,
                self.last == z,
                cyc == !is_list(m0, lst0),
                bound == if cyc { 2 * p + q + 1 } else { n },
                i <= bound,
                !cyc ==> list_len_is(m0, lst0, n),
                cyc ==> rho(m0, lst0, p, q),
                i <= (if cyc { p + q } else { n }) ==> {
                    &&& lst.0 == nth_tail(m0, lst0, i)
                    &&& ret.0 == rev_link(m0, lst0, z, i)
                    &&& relinked(m0, lst0, z, i, self.data@)
                },
                cyc && i > p + q ==> {
                    let k = (bound - i) as nat;
                    &&& lst.0 == rev_link(m0, lst0, z, k)
                    &&& ret.0 == if k == 0 {
                        lst0
                    } else {
                        rho_link(m0, lst0, p, q, (k - 1) as nat)
                    }
                    &&& rho_relinked(m0, lst0, z, p, q, k, self.data@)
                },
            ensures
                i == bound,
                self.last == z,
                !cyc ==> ret.0 == rev_link(m0, lst0, z, n) && relinked(m0, lst0, z, n, self.data@),
                cyc ==> ret.0 == lst0 && rho_relinked(m0, lst0, z, p, q, 0, self.data@),
            decreases bound - i,
        {
            let ghost prev = self.data@;
            proof {
                reveal(relinked);
                reveal(rho_relinked);
                if i < bound {
                    if !cyc || i < p + q {
                        assert(get_obj(m0, nth_tail(m0, lst0, i)) is Cons);
                        assert(nth_tail(m0, lst0, i) != z);
                        assert forall|j: nat| j < i implies nth_tail(m0, lst0, j) != nth_tail(m0, lst0, i) by {
                            if !cyc {
                                lemma_list_cells_distinct(m0, lst0, n, j, i);
                            }
                        }
                        assert(prev.contains_key(nth_tail(m0, lst0, i)));
                        assert(!is_cell_before(m0, lst0, nth_tail(m0, lst0, i), i));
                        assert(get_obj(prev, nth_tail(m0, lst0, i)) == get_obj(m0, nth_tail(m0, lst0, i)));
                    } else if i == p + q {
                        assert(nth_tail(m0, lst0, p + q) == nth_tail(m0, lst0, p));
                        assert(p < p + q);
                        assert(prev.contains_key(nth_tail(m0, lst0, p)));
                    } else {
                        let k = (bound - i) as nat;
                        assert(rev_link(m0, lst0, z, k) == nth_tail(m0, lst0, (k - 1) as nat));
                        assert((k - 1) < p + q);
                        assert(prev.contains_key(nth_tail(m0, lst0, (k - 1) as nat)));
                    }
                } else {
                    if !cyc {
                        assert(!(get_obj(m0, nth_tail(m0, lst0, n)) is Cons));
                        if m0.contains_key(nth_tail(m0, lst0, n)) {
                            assert(!is_cell_before(m0, lst0, nth_tail(m0, lst0, n), n)) by {
                                if is_cell_before(m0, lst0, nth_tail(m0, lst0, n), n) {
                                    let j = choose|j: nat| j < n && nth_tail(m0, lst0, j) == nth_tail(m0, lst0, n);
                                    lemma_list_cells_distinct(m0, lst0, n, j, n);
                                }
                            }
                        }
                    } else {
                        assert(lst.0 == z);
                    }
                }
            }
            match self.get(&lst) {
                LObj::Cons(car, cdr) => {
                    proof {
                        assert(i < bound);
                    }
                    self.set(lst, LObj::Cons(car, ret));
                    proof {
                        if !cyc || i < p + q {
                            lemma_relinked_step(m0, lst0, z, i, prev, self.data@);
                            assert(cdr.0 == nth_tail(m0, lst0, i + 1));
                            if cyc && i + 1 == p + q {
                                assert(nth_tail(m0, lst0, p + q) == nth_tail(m0, lst0, p));
                            }
                        } else if i == p + q {
                            lemma_rho_turn(m0, lst0, z, p, q, prev, self.data@);
                        } else {
                            lemma_rho_back(m0, lst0, z, p, q, (bound - i) as nat, prev, self.data@);
                        }
                    }
                    ret = lst;
                    lst = cdr;
                    proof {
                        i = i + 1;
                    }
                },
                _ => {
                    proof {
                        assert(i == bound);
                    }
                    break ;
                },
            }
        }
        proof {
            reveal(relinked);
            reveal(rho_relinked);
            if !cyc {
                lemma_relinked_list(m0, lst0, z, n, self.data@);
                lemma_list_len(m0, lst0, n);
                assert forall|k: i64| #[trigger] self.data@.contains_key(k) implies k <= self.last
                    && refs_within(self.data@[k], self.last as int) by {
                    if k == z {
                    } else if is_cell_before(m0, lst0, k, n) {
                        let j = choose|j: nat| j < n && nth_tail(m0, lst0, j) == k;
                        assert(self.data@[nth_tail(m0, lst0, j)] == LObj::Cons(
                            LRef(car_ref(get_obj(m0, nth_tail(m0, lst0, j)))),
                            LRef(rev_link(m0, lst0, z, j)),
                        ));
                        assert(m0.contains_key(k));
                        assert(refs_within(m0[k], last0));
                        if j > 0 {
                            assert(nth_tail(m0, lst0, (j - 1) as nat) <= last0);
                        }
                    } else {
                        assert(m0.contains_key(k));
                    }
                }
            } else {
                assert(rho_reversed(m0, lst0, z, p, q, self.data@));
                assert forall|k: i64| #[trigger] self.data@.contains_key(k) implies k <= self.last
                    && refs_within(self.data@[k], self.last as int) by {
                    if k == z {
                    } else if is_cell_before(m0, lst0, k, p + q) {
                        let j = choose|j: nat| j < p + q && nth_tail(m0, lst0, j) == k;
                        assert(self.data@[nth_tail(m0, lst0, j)] == LObj::Cons(
                            LRef(car_ref(get_obj(m0, nth_tail(m0, lst0, j)))),
                            LRef(rho_link(m0, lst0, p, q, j)),
                        ));
                        assert(m0.contains_key(k));
                        assert(refs_within(m0[k], last0));
                        assert(nth_tail(m0, lst0, j + 1) <= last0);
                        assert(nth_tail(m0, lst0, (p + q - 1) as nat) <= last0);
                        if j > 0 {
                            assert(nth_tail(m0, lst0, (j - 1) as nat) <= last0);
                        }
                    } else {
                        assert(m0.contains_key(k));
                    }
                }
            }
        }
        ret
    }
}

} // verus!
