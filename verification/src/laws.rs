//! Properties that relate several operations of the library.
use vstd::prelude::*;

use crate::arena::{car_ref, cdr_ref, get_obj, heap_wf, list_cars, list_len_is, refs_within, Arena};
use crate::evaluator::{
    binding_matches, env_added, lemma_lookup, lemma_search_alist_monotone, lemma_search_monotone,
    lookup, lookup_ends, search_alist, search_env,
};
use crate::gc::{child, is_path, lemma_path_concat, lemma_reach_subset, reach, reaches};
use crate::evaluator::prims_defined;
use crate::builtin::{abs, arith_spec, call_heap, call_result, trunc_div, trunc_rem, ArithOp};
use crate::object::{car_obj, is_sym, obj_eq, primitives, LObj, LRef, SubFn};
use crate::printer::{printable, show, show_list, tree_of};
use crate::reader::{
    atom_tree, is_delim, lemma_atom_len, read_list_spec, read_spec, trim, ws_len, ReadError,
};
use crate::sexp::{den, denotes, lemma_den_unique, Sexp};
use crate::text::{
    all_digits, decimal, digit_char, digit_val, digits_val, is_digit, is_ws, nat_digits,
    parse_i64_spec,
};

verus! {

/// A reference that `make` hands out was not in use, and reading it gives
/// back the object stored; every other reference reads as before.
pub proof fn law_make_then_get(a: Arena, b: Arena, obj: LObj, r: LRef)
    requires
        a.wf(),
        b.data@ == a.data@.insert(r.0, obj),
        r.0 == a.last + 1,
    ensures
        !a.data@.contains_key(r.0),
        b.obj(r.0) == obj,
        forall|k: i64| k != r.0 ==> #[trigger] b.obj(k) == a.obj(k),
{
}

/// Reading a reference after `set` gives the object stored there; every
/// other reference reads as before.
pub proof fn law_set_then_get(a: Arena, b: Arena, key: LRef, val: LObj)
    requires
        b.data@ == a.data@.insert(key.0, val),
    ensures
        b.obj(key.0) == val,
        forall|k: i64| k != key.0 ==> #[trigger] b.obj(k) == a.obj(k),
{
}

/// Reversing a list twice gives back its elements in their first order.
pub proof fn law_nreverse_twice(
    m0: Map<i64, LObj>,
    lst: i64,
    n: nat,
    m1: Map<i64, LObj>,
    r1: i64,
    m2: Map<i64, LObj>,
    r2: i64,
)
    requires
        list_len_is(m0, lst, n),
        list_len_is(m1, r1, n),
        list_cars(m1, r1, n) == list_cars(m0, lst, n).reverse(),
        list_len_is(m2, r2, n),
        list_cars(m2, r2, n) == list_cars(m1, r1, n).reverse(),
    ensures
        list_cars(m2, r2, n) == list_cars(m0, lst, n),
{
    assert(list_cars(m0, lst, n).reverse().reverse() =~= list_cars(m0, lst, n));
}

/// After `add_to_env` binds `sym` to `val`, looking `sym` up in the global
/// environment finds the fresh cell that holds `val`.
pub proof fn law_define_then_lookup(m: Map<i64, LObj>, last: int, genv: i64, sym: LObj, val: LObj)
    requires
        get_obj(m, genv) is Cons,
        genv <= last,
        0 <= last,
        last + 4 <= i64::MAX,
    ensures
        lookup_ends(env_added(m, last, genv, sym, val), sym, genv),
        lookup(env_added(m, last, genv, sym, val), sym, genv) == Some((last + 2) as i64),
        get_obj(env_added(m, last, genv, sym, val), (last + 2) as i64) == val,
{
    let m2 = env_added(m, last, genv, sym, val);
    let frame = get_obj(m, genv);
    assert(get_obj(m2, genv) == LObj::Cons(LRef((last + 4) as i64), LRef(
        crate::arena::cdr_ref(frame),
    )));
    assert(get_obj(m2, (last + 4) as i64) == LObj::Cons(LRef((last + 3) as i64), LRef(
        crate::arena::car_ref(frame),
    )));
    assert(get_obj(m2, (last + 3) as i64) == LObj::Cons(LRef((last + 1) as i64), LRef((last + 2) as i64)));
    assert(get_obj(m2, (last + 1) as i64) == sym);
    assert(obj_eq(sym, sym));
    assert(binding_matches(m2, sym, (last + 3) as i64));
    assert(search_alist(m2, sym, (last + 4) as i64, crate::arena::cdr_ref(frame), 2) == Some(
        Some((last + 2) as i64),
    ));
    assert(search_env(m2, sym, genv, 3) == Some(Some((last + 2) as i64)));
    lemma_lookup(m2, sym, genv, 3);
}

/// The lookup of `sym` from the frame at `alist`, then the frames at `rest`,
/// within `fuel` steps uses the cell `g` at most as an environment: never as
/// a frame cell, a binding, a key or the answer.
pub open spec fn alist_search_avoids(
    m: Map<i64, LObj>,
    sym: LObj,
    alist: i64,
    rest: i64,
    fuel: nat,
    g: i64,
) -> bool
    decreases fuel, 0nat,
{
    if fuel == 0 {
        true
    } else {
        &&& alist != g
        &&& match get_obj(m, alist) {
            LObj::Cons(kv, next) => {
                &&& kv.0 != g
                &&& (get_obj(m, kv.0) matches LObj::Cons(key, _) ==> key.0 != g)
                &&& if binding_matches(m, sym, kv.0) {
                    cdr_ref(get_obj(m, kv.0)) != g
                } else {
                    alist_search_avoids(m, sym, next.0, rest, (fuel - 1) as nat, g)
                }
            },
            _ => env_search_avoids(m, sym, rest, (fuel - 1) as nat, g),
        }
    }
}

/// The lookup of `sym` in the environment at `env` within `fuel` steps uses
/// the cell `g` at most as an environment.
pub open spec fn env_search_avoids(m: Map<i64, LObj>, sym: LObj, env: i64, fuel: nat, g: i64) -> bool
    decreases fuel, 1nat,
{
    if fuel == 0 {
        true
    } else {
        match get_obj(m, env) {
            LObj::Cons(alist, rest) => alist_search_avoids(m, sym, alist.0, rest.0, (fuel - 1) as nat, g),
            _ => true,
        }
    }
}

/// `m2` holds what `m` holds at every key up to `last` but `g`, and the frame
/// at `g` has gained, in front, one binding that does not match `sym`.
pub open spec fn frame_grown(m: Map<i64, LObj>, m2: Map<i64, LObj>, last: int, g: i64, sym: LObj) -> bool {
    &&& forall|k: i64| k <= last && k != g ==> #[trigger] get_obj(m2, k) == get_obj(m, k)
    &&& get_obj(m, g) is Cons
    &&& match get_obj(m2, g) {
        LObj::Cons(front, rest) => rest.0 == cdr_ref(get_obj(m, g)) && match get_obj(m2, front.0) {
            LObj::Cons(kv, next) => next.0 == car_ref(get_obj(m, g)) && !binding_matches(m2, sym, kv.0),
            _ => false,
        },
        _ => false,
    }
}

proof fn lemma_search_env_grown(
    m: Map<i64, LObj>,
    m2: Map<i64, LObj>,
    last: int,
    g: i64,
    sym: LObj,
    env: i64,
    fuel: nat,
)
    requires
        heap_wf(m, last),
        frame_grown(m, m2, last, g, sym),
        env <= last,
        env_search_avoids(m, sym, env, fuel, g),
        search_env(m, sym, env, fuel) is Some,
    ensures
        search_env(m2, sym, env, 2 * fuel) == search_env(m, sym, env, fuel),
        search_env(m, sym, env, fuel) matches Some(Some(w)) ==> w != g && w <= last,
    decreases fuel, 1nat,
{
    if let LObj::Cons(alist, rest) = get_obj(m, env) {
        assert(m.contains_key(env));
        assert(refs_within(m[env], last));
        let f1 = (fuel - 1) as nat;
        lemma_search_alist_grown(m, m2, last, g, sym, alist.0, rest.0, f1);
        if env == g {
            let front = car_ref(get_obj(m2, g));
            assert(search_alist(m2, sym, front, rest.0, (2 * fuel - 1) as nat) == search_alist(
                m2,
                sym,
                alist.0,
                rest.0,
                (2 * fuel - 2) as nat,
            ));
            assert(search_env(m2, sym, env, 2 * fuel) == search_alist(m2, sym, front, rest.0, (2 * fuel - 1) as nat));
        } else {
            assert(get_obj(m2, env) == get_obj(m, env));
            lemma_search_alist_monotone(m2, sym, alist.0, rest.0, 2 * f1, (2 * fuel - 1) as nat);
        }
    } else {
        assert(env != g);
        assert(get_obj(m2, env) == get_obj(m, env));
    }
}

proof fn lemma_search_alist_grown(
    m: Map<i64, LObj>,
    m2: Map<i64, LObj>,
    last: int,
    g: i64,
    sym: LObj,
    alist: i64,
    rest: i64,
    fuel: nat,
)
    requires
        heap_wf(m, last),
        frame_grown(m, m2, last, g, sym),
        alist <= last,
        rest <= last,
        alist_search_avoids(m, sym, alist, rest, fuel, g),
        search_alist(m, sym, alist, rest, fuel) is Some,
    ensures
        search_alist(m2, sym, alist, rest, 2 * fuel) == search_alist(m, sym, alist, rest, fuel),
        search_alist(m, sym, alist, rest, fuel) matches Some(Some(w)) ==> w != g && w <= last,
    decreases fuel, 0nat,
{
    assert(get_obj(m2, alist) == get_obj(m, alist));
    let f1 = (fuel - 1) as nat;
    match get_obj(m, alist) {
        LObj::Cons(kv, next) => {
            assert(m.contains_key(alist));
            assert(refs_within(m[alist], last));
            assert(get_obj(m2, kv.0) == get_obj(m, kv.0));
            if let LObj::Cons(key, val) = get_obj(m, kv.0) {
                assert(m.contains_key(kv.0));
                assert(refs_within(m[kv.0], last));
                assert(get_obj(m2, key.0) == get_obj(m, key.0));
            }
            assert(binding_matches(m2, sym, kv.0) == binding_matches(m, sym, kv.0));
            if !binding_matches(m, sym, kv.0) {
                lemma_search_alist_grown(m, m2, last, g, sym, next.0, rest, f1);
                lemma_search_alist_monotone(m2, sym, next.0, rest, 2 * f1, (2 * fuel - 1) as nat);
            }
        },
        _ => {
            lemma_search_env_grown(m, m2, last, g, sym, rest, f1);
            lemma_search_monotone(m2, sym, rest, 2 * f1, (2 * fuel - 1) as nat);
        },
    }
}

/// After `add_to_env` binds `sym` to `val`, every other symbol looks up as
/// before, to the same cell holding the same object, as long as its lookup
/// meets the global environment's own cell only as an environment.
pub proof fn law_define_keeps_other_lookups(
    m: Map<i64, LObj>,
    last: int,
    genv: i64,
    sym: LObj,
    val: LObj,
    other: LObj,
)
    requires
        heap_wf(m, last),
        get_obj(m, genv) is Cons,
        genv <= last,
        last + 4 <= i64::MAX,
        !obj_eq(sym, other),
        lookup_ends(m, other, genv),
        forall|f: nat| #[trigger] env_search_avoids(m, other, genv, f, genv),
    ensures
        lookup_ends(env_added(m, last, genv, sym, val), other, genv),
        lookup(env_added(m, last, genv, sym, val), other, genv) == lookup(m, other, genv),
        lookup(m, other, genv) matches Some(w) ==> get_obj(env_added(m, last, genv, sym, val), w)
            == get_obj(m, w),
{
    let m2 = env_added(m, last, genv, sym, val);
    let f = choose|f: nat| #[trigger] search_env(m, other, genv, f) is Some;
    lemma_lookup(m, other, genv, f);
    assert(get_obj(m2, (last + 3) as i64) == LObj::Cons(LRef((last + 1) as i64), LRef((last + 2) as i64)));
    assert(get_obj(m2, (last + 1) as i64) == sym);
    assert(!binding_matches(m2, other, (last + 3) as i64));
    assert(frame_grown(m, m2, last, genv, other));
    assert(env_search_avoids(m, other, genv, f, genv));
    lemma_search_env_grown(m, m2, last, genv, other, genv, f);
    lemma_lookup(m2, other, genv, 2 * f);
}

/// `x` is in the reachable set `r`, or has no cell.
pub open spec fn kept_or_absent(m: Map<i64, LObj>, r: Set<i64>, x: i64) -> bool {
    r.contains(x) || !m.contains_key(x)
}

proof fn lemma_reach_child(m: Map<i64, LObj>, genv: i64, x: i64, y: i64)
    requires
        kept_or_absent(m, reach(m, m.dom(), genv), x),
        child(m, x, y),
    ensures
        kept_or_absent(m, reach(m, m.dom(), genv), y),
{
    let r = reach(m, m.dom(), genv);
    if m.contains_key(y) {
        assert(m.contains_key(x));
        let p = choose|p: Seq<i64>| #[trigger] is_path(m, m.dom(), p) && p[0] == genv && p.last() == x;
        let q = seq![x, y];
        assert(child(m, q[0], q[0int + 1]));
        assert(is_path(m, m.dom(), q));
        lemma_path_concat(m, m.dom(), p, q);
        assert(reaches(m, m.dom(), genv, y));
    }
}

proof fn lemma_gc_search_env(m: Map<i64, LObj>, genv: i64, sym: LObj, env: i64, f: nat)
    requires
        kept_or_absent(m, reach(m, m.dom(), genv), env),
    ensures
        search_env(m.restrict(reach(m, m.dom(), genv)), sym, env, f) == search_env(m, sym, env, f),
    decreases f,
{
    let r = reach(m, m.dom(), genv);
    let m2 = m.restrict(r);
    assert(get_obj(m2, env) == get_obj(m, env));
    if f > 0 {
        if let LObj::Cons(alist, rest) = get_obj(m, env) {
            lemma_reach_child(m, genv, env, alist.0);
            lemma_reach_child(m, genv, env, rest.0);
            lemma_gc_search_alist(m, genv, sym, alist.0, rest.0, (f - 1) as nat);
        }
    }
}

proof fn lemma_gc_search_alist(m: Map<i64, LObj>, genv: i64, sym: LObj, alist: i64, rest: i64, f: nat)
    requires
        kept_or_absent(m, reach(m, m.dom(), genv), alist),
        kept_or_absent(m, reach(m, m.dom(), genv), rest),
    ensures
        search_alist(m.restrict(reach(m, m.dom(), genv)), sym, alist, rest, f) == search_alist(
            m,
            sym,
            alist,
            rest,
            f,
        ),
    decreases f,
{
    let r = reach(m, m.dom(), genv);
    let m2 = m.restrict(r);
    assert(get_obj(m2, alist) == get_obj(m, alist));
    if f > 0 {
        match get_obj(m, alist) {
            LObj::Cons(kv, next) => {
                lemma_reach_child(m, genv, alist, kv.0);
                lemma_reach_child(m, genv, alist, next.0);
                assert(get_obj(m2, kv.0) == get_obj(m, kv.0));
                if let LObj::Cons(key, _) = get_obj(m, kv.0) {
                    lemma_reach_child(m, genv, kv.0, key.0);
                    assert(get_obj(m2, key.0) == get_obj(m, key.0));
                }
                assert(binding_matches(m2, sym, kv.0) == binding_matches(m, sym, kv.0));
                lemma_gc_search_alist(m, genv, sym, next.0, rest, (f - 1) as nat);
            },
            _ => {
                lemma_gc_search_env(m, genv, sym, rest, (f - 1) as nat);
            },
        }
    }
}

/// Garbage collection does not change what a symbol is bound to in the
/// global environment: every lookup from `genv` gives the same answer in the
/// collected arena.
pub proof fn law_gc_preserves_lookup(m: Map<i64, LObj>, genv: i64, sym: LObj)
    requires
        m.contains_key(genv),
    ensures
        forall|f: nat|
            #[trigger] search_env(m.restrict(reach(m, m.dom(), genv)), sym, genv, f) == search_env(
                m,
                sym,
                genv,
                f,
            ),
        lookup_ends(m, sym, genv) ==> lookup_ends(m.restrict(reach(m, m.dom(), genv)), sym, genv)
            && lookup(m.restrict(reach(m, m.dom(), genv)), sym, genv) == lookup(m, sym, genv),
{
    let r = reach(m, m.dom(), genv);
    assert(is_path(m, m.dom(), seq![genv]));
    assert(reaches(m, m.dom(), genv, genv));
    assert forall|f: nat| #[trigger] search_env(m.restrict(r), sym, genv, f) == search_env(m, sym, genv, f) by {
        lemma_gc_search_env(m, genv, sym, genv, f);
    }
    if lookup_ends(m, sym, genv) {
        let f = choose|f: nat| #[trigger] search_env(m, sym, genv, f) is Some;
        lemma_lookup(m, sym, genv, f);
        lemma_lookup(m.restrict(r), sym, genv, f);
    }
}

/// Collecting twice removes nothing that the first collection kept: in the
/// collected arena every cell is still reachable from the global environment.
pub proof fn law_gc_idempotent(m: Map<i64, LObj>, genv: i64)
    ensures
        ({
            let m1 = m.restrict(reach(m, m.dom(), genv));
            m1.restrict(reach(m1, m1.dom(), genv)) == m1
        }),
{
    let r = reach(m, m.dom(), genv);
    let m1 = m.restrict(r);
    lemma_reach_subset(m, m.dom(), genv);
    assert(m1.dom() =~= r);
    lemma_reach_subset(m1, m1.dom(), genv);
    assert forall|x: i64| r.contains(x) implies #[trigger] reach(m1, m1.dom(), genv).contains(x) by {
        let p = choose|p: Seq<i64>| #[trigger] is_path(m, m.dom(), p) && p[0] == genv && p.last() == x;
        assert forall|i: int| 0 <= i < p.len() implies #[trigger] r.contains(p[i]) by {
            lemma_path_prefix(m, m.dom(), p, i + 1);
            assert(p.subrange(0, i + 1).last() == p[i]);
            assert(reaches(m, m.dom(), genv, p[i]));
        }
        assert forall|i: int| 0 <= i < p.len() - 1 implies #[trigger] child(m1, p[i], p[i + 1]) by {
            assert(child(m, p[i], p[i + 1]));
            assert(r.contains(p[i]));
            assert(get_obj(m1, p[i]) == get_obj(m, p[i]));
        }
        assert(is_path(m1, m1.dom(), p));
        assert(reaches(m1, m1.dom(), genv, x));
    }
    assert(reach(m1, m1.dom(), genv) =~= r);
    assert(m1.restrict(reach(m1, m1.dom(), genv)) =~= m1);
}

proof fn lemma_path_prefix(m: Map<i64, LObj>, u: Set<i64>, p: Seq<i64>, j: int)
    requires
        is_path(m, u, p),
        0 < j <= p.len(),
    ensures
        is_path(m, u, p.subrange(0, j)),
        p.subrange(0, j)[0] == p[0],
{
    let q = p.subrange(0, j);
    assert forall|k: int| 0 <= k < q.len() implies #[trigger] u.contains(q[k]) by {
        assert(q[k] == p[k]);
    }
    assert forall|k: int| 0 <= k < q.len() - 1 implies #[trigger] child(m, q[k], q[k + 1]) by {
        assert(q[k] == p[k]);
        assert(q[k + 1] == p[k + 1]);
    }
}

proof fn lemma_nat_digits(k: nat)
    ensures
        nat_digits(k).len() >= 1,
        all_digits(nat_digits(k)),
        digits_val(nat_digits(k)) == k,
    decreases k,
{
    if k >= 10 {
        lemma_nat_digits(k / 10);
        let s = nat_digits(k);
        assert(s.drop_last() =~= nat_digits(k / 10));
        assert(s.last() == digit_char((k % 10) as int));
        assert(digit_val(digit_char((k % 10) as int)) == k % 10);
        assert((k / 10) * 10 + k % 10 == k);
        assert(digits_val(s) == digits_val(s.drop_last()) * 10 + digit_val(s.last()));
        assert forall|i: int| 0 <= i < s.len() implies is_digit(#[trigger] s[i]) by {
            if i < s.len() - 1 {
                assert(s[i] == nat_digits(k / 10)[i]);
            }
        }
    } else {
        assert(digit_val(digit_char(k as int)) == k);
        assert(nat_digits(k).drop_last() =~= Seq::<char>::empty());
        assert(digits_val(Seq::<char>::empty()) == 0);
    }
}

/// Reading the text that the printer writes for a number gives back the
/// number.
pub proof fn law_number_text_roundtrip(n: i64)
    ensures
        parse_i64_spec(decimal(n as int)) == Some(n),
{
    if n < 0 {
        let d = nat_digits((-n) as nat);
        lemma_nat_digits((-n) as nat);
        let s = decimal(n as int);
        assert(s[0] == '-');
        assert(s.drop_first() =~= d);
    } else {
        lemma_nat_digits(n as nat);
        let s = decimal(n as int);
        assert(is_digit(s[0]));
    }
}

/// Tells the names of the primitives apart: by length, then first, then
/// second character.
pub open spec fn name_key(s: Seq<char>) -> (nat, char, char) {
    (s.len(), s[0], if s.len() > 1 { s[1] } else { ' ' })
}

/// The primitives have pairwise different names.
pub proof fn lemma_prim_names_distinct(i: int, j: int)
    requires
        0 <= i < 14,
        0 <= j < 14,
        i != j,
    ensures
        primitives()[i].1@ != primitives()[j].1@,
{
    reveal_strlit("car");
    reveal_strlit("cdr");
    reveal_strlit("cons");
    reveal_strlit("eq");
    reveal_strlit("atom");
    reveal_strlit("numberp");
    reveal_strlit("symbolp");
    reveal_strlit("+");
    reveal_strlit("-");
    reveal_strlit("*");
    reveal_strlit("/");
    reveal_strlit("mod");
    reveal_strlit("t");
    reveal_strlit("set!");
    assert(name_key(primitives()[i].1@) != name_key(primitives()[j].1@));
}


proof fn lemma_prims_search(m: Map<i64, LObj>, o: LObj, j: int, i: int, f: nat)
    requires
        prims_defined(map![1i64 => LObj::Nil, 2i64 => LObj::Cons(LRef(1), LRef(1))], 2, 2, 14, m),
        0 <= j <= i < 14,
        is_sym(o, primitives()[j].1@),
        f > i - j,
    ensures
        search_alist(m, o, (6 + 4 * i) as i64, 1, f) == Some(Some((4 + 4 * j) as i64)),
    decreases i - j,
{
    let kv = (5 + 4 * i) as i64;
    assert(primitives()[i] == primitives()[i]);
    assert(get_obj(m, (6 + 4 * i) as i64) == LObj::Cons(
        LRef(kv),
        LRef(if i == 0 { 1i64 } else { (2 + 4 * i) as i64 }),
    ));
    assert(get_obj(m, kv) == LObj::Cons(LRef((3 + 4 * i) as i64), LRef((4 + 4 * i) as i64)));
    assert(is_sym(get_obj(m, (3 + 4 * i) as i64), primitives()[i].1@));
    if i == j {
        assert(binding_matches(m, o, kv));
    } else {
        lemma_prim_names_distinct(i, j);
        assert(!binding_matches(m, o, kv));
        lemma_prims_search(m, o, j, i - 1, (f - 1) as nat);
        assert((6 + 4 * (i - 1)) as i64 == (2 + 4 * i) as i64);
    }
}

/// In a fresh evaluator every primitive's name is bound, in the global
/// environment, to a cell that holds that primitive.
pub proof fn law_primitives_bound(m: Map<i64, LObj>, o: LObj, j: int)
    requires
        prims_defined(map![1i64 => LObj::Nil, 2i64 => LObj::Cons(LRef(1), LRef(1))], 2, 2, 14, m),
        0 <= j < 14,
        is_sym(o, primitives()[j].1@),
    ensures
        lookup_ends(m, o, 2),
        lookup(m, o, 2) == Some((4 + 4 * j) as i64),
        get_obj(m, (4 + 4 * j) as i64) == LObj::Subr(primitives()[j].0),
{
    assert(primitives()[j] == primitives()[j]);
    assert(get_obj(m, 2) == LObj::Cons(LRef(58), LRef(1)));
    lemma_prims_search(m, o, j, 13, 14);
    assert(search_env(m, o, 2, 15) == Some(Some((4 + 4 * j) as i64)));
    lemma_lookup(m, o, 2, 15);
}

/// Reading a quote followed by any text reads the expression after the
/// quote and wraps it as the one element of a list headed by the symbol
/// `quote`: `'e` reads as `(quote e)`, and an error after the quote is the
/// error of the whole.
pub proof fn law_read_quote(s: Seq<char>)
    ensures
        read_spec(seq!['\''] + s) == match read_spec(s) {
            Ok((e, rest)) => Ok::<(Sexp, Seq<char>), ReadError>(
                (
                    Sexp::Cons(
                        Box::new(Sexp::Sym(seq!['q', 'u', 'o', 't', 'e'])),
                        Box::new(Sexp::Cons(Box::new(e), Box::new(Sexp::Nil))),
                    ),
                    rest,
                ),
            ),
            Err(err) => Err(err),
        },
{
    reveal_strlit("quote");
    let t = seq!['\''] + s;
    assert(is_ws('\'') == false);
    lemma_trim_id(t);
    assert(t.drop_first() =~= s);
    assert("quote"@ =~= seq!['q', 'u', 'o', 't', 'e']);
}

/// The name each primitive is known by.
pub open spec fn prim_name(f: SubFn) -> Seq<char> {
    match f {
        SubFn::Car => seq!['c', 'a', 'r'],
        SubFn::Cdr => seq!['c', 'd', 'r'],
        SubFn::Cons => seq!['c', 'o', 'n', 's'],
        SubFn::Eq => seq!['e', 'q'],
        SubFn::Atom => seq!['a', 't', 'o', 'm'],
        SubFn::Numberp => seq!['n', 'u', 'm', 'b', 'e', 'r', 'p'],
        SubFn::Symbolp => seq!['s', 'y', 'm', 'b', 'o', 'l', 'p'],
        SubFn::Add => seq!['+'],
        SubFn::Sub => seq!['-'],
        SubFn::Mul => seq!['*'],
        SubFn::Div => seq!['/'],
        SubFn::Mod => seq!['m', 'o', 'd'],
        SubFn::T => seq!['t'],
        SubFn::SetBang => seq!['s', 'e', 't', '!'],
    }
}

/// The table of primitives pairs each primitive with its own name, and lists
/// every primitive.
pub proof fn law_primitives_named()
    ensures
        primitives().len() == 14,
        forall|j: int| 0 <= j < 14 ==> (#[trigger] primitives()[j]).1@ == prim_name(primitives()[j].0),
        forall|f: SubFn| 0 <= #[trigger] prim_pos(f) < 14 && primitives()[prim_pos(f)].0 == f,
{
    reveal_strlit("car");
    reveal_strlit("cdr");
    reveal_strlit("cons");
    reveal_strlit("eq");
    reveal_strlit("atom");
    reveal_strlit("numberp");
    reveal_strlit("symbolp");
    reveal_strlit("+");
    reveal_strlit("-");
    reveal_strlit("*");
    reveal_strlit("/");
    reveal_strlit("mod");
    reveal_strlit("t");
    reveal_strlit("set!");
    assert forall|j: int| 0 <= j < 14 implies (#[trigger] primitives()[j]).1@ == prim_name(primitives()[j].0) by {
        assert(primitives()[j].1@ =~= prim_name(primitives()[j].0));
    }
}

/// Where a primitive stands in the table.
pub open spec fn prim_pos(f: SubFn) -> int {
    match f {
        SubFn::Car => 0,
        SubFn::Cdr => 1,
        SubFn::Cons => 2,
        SubFn::Eq => 3,
        SubFn::Atom => 4,
        SubFn::Numberp => 5,
        SubFn::Symbolp => 6,
        SubFn::Add => 7,
        SubFn::Sub => 8,
        SubFn::Mul => 9,
        SubFn::Div => 10,
        SubFn::Mod => 11,
        SubFn::T => 12,
        SubFn::SetBang => 13,
    }
}

/// In a fresh evaluator, looking up the name of any primitive finds a cell
/// that holds that very primitive.
pub proof fn law_fresh_lookup_finds_primitive(m: Map<i64, LObj>, o: LObj, f: SubFn)
    requires
        prims_defined(map![1i64 => LObj::Nil, 2i64 => LObj::Cons(LRef(1), LRef(1))], 2, 2, 14, m),
        is_sym(o, prim_name(f)),
    ensures
        lookup_ends(m, o, 2),
        lookup(m, o, 2) matches Some(w) && get_obj(m, w) == LObj::Subr(f),
{
    law_primitives_named();
    let j = prim_pos(f);
    assert(primitives()[j].0 == f);
    assert(primitives()[j].1@ == prim_name(f));
    law_primitives_bound(m, o, j);
}

/// Two objects are equal exactly when they are the same object, except that
/// two symbols are equal when their names are.
pub proof fn law_obj_eq(a: LObj, b: LObj)
    ensures
        a == b ==> obj_eq(a, b),
        obj_eq(a, b) && !(a is Sym) ==> a == b,
        a is Sym && b is Sym ==> (obj_eq(a, b) <==> a->Sym_0@ == b->Sym_0@),
        obj_eq(a, b) == obj_eq(b, a),
{
}

/// Addition, subtraction and multiplication give the exact result whenever
/// it fits in 64 bits, and fail otherwise.
pub proof fn law_arith_exact(x: i64, y: i64)
    ensures
        arith_spec(ArithOp::Add, x, y) == if i64::MIN <= x + y <= i64::MAX { Some((x + y) as i64) } else { None },
        arith_spec(ArithOp::Sub, x, y) == if i64::MIN <= x - y <= i64::MAX { Some((x - y) as i64) } else { None },
        arith_spec(ArithOp::Mul, x, y) == if i64::MIN <= x * y <= i64::MAX { Some((x * y) as i64) } else { None },
{
}

/// Division and remainder are those of division that rounds toward zero:
/// both are defined exactly when `y` is not zero and the quotient fits, and
/// then `x == q * y + r` with `|r| < |y|` and `r` zero or of the sign of
/// `x`. These conditions fix `q` and `r`.
pub proof fn law_div_mod(x: i64, y: i64)
    ensures
        (arith_spec(ArithOp::Div, x, y) is Some) == (y != 0 && !(x == i64::MIN && y == -1)),
        (arith_spec(ArithOp::Mod, x, y) is Some) == (y != 0 && !(x == i64::MIN && y == -1)),
        arith_spec(ArithOp::Div, x, y) matches Some(q) ==> arith_spec(ArithOp::Mod, x, y) matches Some(r)
            && x == q * y + r
            && abs(r as int) < abs(y as int)
            && (r == 0 || (r < 0) == (x < 0)),
{
    if y != 0 && !(x == i64::MIN && y == -1) {
        let a = abs(x as int);
        let b = abs(y as int);
        let q0 = a / b;
        let r0 = a % b;
        assert(a == q0 * b + r0 && 0 <= r0 < b) by (nonlinear_arith)
            requires
                b > 0,
                q0 == a / b,
                r0 == a % b,
        ;
        assert(0 <= q0 <= a) by (nonlinear_arith)
            requires
                b >= 1,
                a >= 0,
                q0 == a / b,
        ;
        let q = trunc_div(x as int, y as int);
        let r = trunc_rem(x as int, y as int);
        if x >= 0 && y > 0 {
            assert(q * y == q0 * b);
        } else if x >= 0 {
            assert(q * y == q0 * b) by (nonlinear_arith)
                requires
                    q == -q0,
                    y == -b,
            ;
        } else if y > 0 {
            assert(q * y == -(q0 * b)) by (nonlinear_arith)
                requires
                    q == -q0,
                    y == b,
            ;
        } else {
            assert(q * y == -(q0 * b)) by (nonlinear_arith)
                requires
                    q == q0,
                    y == -b,
            ;
        }
        assert(x == q * y + r);
        assert(i64::MIN <= q <= i64::MAX) by {
            if x == i64::MIN && b >= 2 {
                assert(q0 <= a / 2) by (nonlinear_arith)
                    requires
                        b >= 2,
                        a >= 0,
                        q0 == a / b,
                ;
            }
        }
    }
}


/// Taking the car and the cdr of what `cons` built gives back its two
/// arguments: in any arena that keeps the cells `cons` left, `car` of a list
/// whose first element is the new pair answers the first argument of `cons`,
/// and `cdr` answers the second.
pub proof fn law_car_cdr_of_cons(
    m: Map<i64, LObj>,
    last: int,
    args: i64,
    pair: LObj,
    m2: Map<i64, LObj>,
    last2: int,
    args2: i64,
    rc: LObj,
    rd: LObj,
)
    requires
        heap_wf(m, last),
        last + 1 <= i64::MAX,
        get_obj(m, args) is Cons,
        call_result(SubFn::Cons, m, last, args, pair),
        forall|k: i64| k <= last + 1 ==> #[trigger] get_obj(m2, k) == get_obj(call_heap(m, last, args), k),
        get_obj(m2, args2) matches LObj::Cons(first, _) && get_obj(m2, first.0) == pair,
        call_result(SubFn::Car, m2, last2, args2, rc),
        call_result(SubFn::Cdr, m2, last2, args2, rd),
    ensures
        rc == get_obj(m, car_ref(get_obj(m, args))),
        rd == car_obj(m, get_obj(m, cdr_ref(get_obj(m, args)))),
{
    assert(m.contains_key(args));
    assert(refs_within(m[args], last));
    let a = car_ref(get_obj(m, args));
    assert(a <= last);
    assert(pair == LObj::Cons(LRef(a), LRef((last + 1) as i64)));
    assert(get_obj(m2, a) == get_obj(call_heap(m, last, args), a));
    assert(get_obj(call_heap(m, last, args), a) == get_obj(m, a));
    assert(get_obj(m2, (last + 1) as i64) == get_obj(call_heap(m, last, args), (last + 1) as i64));
}

/// The predicates answer `t` or `nil` by the kind of their first argument:
/// `atom` is `t` exactly when it is no pair, `numberp` and `symbolp` exactly
/// when it is a number, `eq` exactly when the two arguments are equal, and
/// `t` always.
pub proof fn law_predicates(m: Map<i64, LObj>, last: int, args: i64, f: SubFn, r: LObj)
    requires
        get_obj(m, args) is Cons,
        call_result(f, m, last, args, r),
    ensures
        ({
            let x = get_obj(m, car_ref(get_obj(m, args)));
            let y = car_obj(m, get_obj(m, cdr_ref(get_obj(m, args))));
            let t = is_sym(r, seq!['t']);
            let nil = r == LObj::Nil;
            &&& f == SubFn::Atom ==> (t <==> !(x is Cons)) && (nil <==> x is Cons)
            &&& f == SubFn::Numberp ==> (t <==> x is Num) && (nil <==> !(x is Num))
            &&& f == SubFn::Symbolp ==> (t <==> x is Num) && (nil <==> !(x is Num))
            &&& f == SubFn::Eq ==> (t <==> obj_eq(x, y)) && (nil <==> !obj_eq(x, y))
            &&& f == SubFn::T ==> t
        }),
{
    reveal_strlit("t");
    assert("t"@ =~= seq!['t']);
}


/// A tree that the printer writes in the one form the reader reads back: a
/// number; a symbol whose name is not empty, holds no delimiter and does not
/// read as a number; or a proper, non-empty list of such trees.
pub open spec fn canonical(t: Sexp) -> bool
    decreases t,
{
    match t {
        Sexp::Cons(a, d) => canonical(*a) && (*d is Nil || (*d is Cons && canonical(*d))),
        _ => canonical_atom(t),
    }
}

/// A number, or a symbol whose name is not empty, holds no delimiter and does
/// not read as a number.
pub open spec fn canonical_atom(t: Sexp) -> bool {
    match t {
        Sexp::Num(_) => true,
        Sexp::Sym(s) => s.len() > 0 && (forall|i: int| 0 <= i < s.len() ==> !is_delim(#[trigger] s[i]))
            && parse_i64_spec(s) is None,
        _ => false,
    }
}

/// A canonical atom, or a non-empty list of such trees whose last cdr is
/// `Nil` or a canonical atom.
pub open spec fn canonical_dotted(t: Sexp) -> bool
    decreases t,
{
    match t {
        Sexp::Cons(a, d) => canonical_dotted(*a) && (*d is Nil || canonical_atom(*d) || (*d is Cons
            && canonical_dotted(*d))),
        _ => canonical_atom(t),
    }
}

/// What reading back the printed text of a tree gives: a list whose last cdr
/// is an atom other than `Nil` reads as a proper list that ends with the
/// symbol `.` and that atom.
pub open spec fn dot_read(t: Sexp) -> Sexp
    decreases t,
{
    match t {
        Sexp::Cons(a, d) => Sexp::Cons(
            Box::new(dot_read(*a)),
            Box::new(
                if *d is Nil {
                    Sexp::Nil
                } else if *d is Cons {
                    dot_read(*d)
                } else {
                    Sexp::Cons(Box::new(Sexp::Sym(seq!['.'])), Box::new(Sexp::Cons(d, Box::new(Sexp::Nil))))
                },
            ),
        ),
        _ => t,
    }
}

proof fn lemma_canonical_dotted(t: Sexp)
    requires
        canonical(t),
    ensures
        canonical_dotted(t),
        dot_read(t) == t,
    decreases t,
{
    if let Sexp::Cons(a, d) = t {
        lemma_canonical_dotted(*a);
        if *d is Cons {
            lemma_canonical_dotted(*d);
        }
    }
}

proof fn lemma_trim_id(s: Seq<char>)
    requires
        s.len() > 0,
        !is_ws(s[0]),
    ensures
        trim(s) == s,
{
    assert(ws_len(s) == 0);
    assert(s.skip(0) =~= s);
}

/// The text of an atom is the atom's own token.
proof fn lemma_show_atom(t: Sexp)
    requires
        canonical_atom(t),
    ensures
        show(t).len() > 0,
        forall|i: int| 0 <= i < show(t).len() ==> !is_delim(#[trigger] show(t)[i]),
        atom_tree(show(t)) == t,
{
    if let Sexp::Num(n) = t {
        let k: nat = if n < 0 { (-n) as nat } else { n as nat };
        lemma_nat_digits(k);
        let d = nat_digits(k);
        assert forall|i: int| 0 <= i < show(t).len() implies !is_delim(#[trigger] show(t)[i]) by {
            if n < 0 {
                if i > 0 {
                    assert(show(t)[i] == d[i - 1]);
                    assert(is_digit(d[i - 1]));
                }
            } else {
                assert(is_digit(d[i]));
            }
        }
        law_number_text_roundtrip(n);
    }
}

/// The first character of the text of a canonical tree starts it: it is no
/// whitespace, no `)` and no quote.
proof fn lemma_show_start(t: Sexp)
    requires
        canonical_dotted(t),
    ensures
        show(t).len() > 0,
        !is_ws(show(t)[0]),
        show(t)[0] != ')',
        show(t)[0] != '\'',
        t is Cons ==> show(t)[0] == '(',
        !(t is Cons) ==> show(t)[0] != '(',
{
    if t is Cons {
        reveal_strlit("(");
        reveal_strlit(")");
        assert(show(t) == "("@ + show_list(t) + ")"@);
        assert(show(t)[0] == '(');
    } else {
        lemma_show_atom(t);
        assert(!is_delim(show(t)[0]));
    }
}

/// Reading the text of a tree, followed by text that starts with a
/// delimiter or is empty, gives back what the tree reads as and that text.
proof fn lemma_read_show(t: Sexp, rest: Seq<char>)
    requires
        canonical_dotted(t),
        rest.len() == 0 || is_delim(rest[0]),
    ensures
        read_spec(show(t) + rest) == Ok::<(Sexp, Seq<char>), ReadError>((dot_read(t), rest)),
    decreases t, 1nat,
{
    let s = show(t) + rest;
    lemma_show_start(t);
    assert(s[0] == show(t)[0]);
    lemma_trim_id(s);
    if t is Cons {
        reveal_strlit("(");
        reveal_strlit(")");
        assert(s.drop_first() =~= show_list(t) + ")"@ + rest);
        lemma_read_show_list(t, rest);
    } else {
        let a = show(t);
        lemma_show_atom(t);
        assert forall|j: int| 0 <= j < a.len() implies !is_delim(#[trigger] s[j]) by {
            assert(s[j] == a[j]);
        }
        if rest.len() > 0 {
            assert(s[a.len() as int] == rest[0]);
        }
        lemma_atom_len(s, a.len());
        assert(s.take(a.len() as int) =~= a);
        assert(s.skip(a.len() as int) =~= rest);
    }
}

/// Reading ` . ` then the text of an atom, then a closing parenthesis, reads
/// the list of the symbol `.` and the atom.
proof fn lemma_read_dot_tail(d: Sexp, rest: Seq<char>)
    requires
        canonical_atom(d),
    ensures
        read_list_spec(" . "@ + show(d) + ")"@ + rest) == Ok::<(Sexp, Seq<char>), ReadError>(
            (
                Sexp::Cons(Box::new(Sexp::Sym(seq!['.'])), Box::new(Sexp::Cons(Box::new(d), Box::new(Sexp::Nil)))),
                rest,
            ),
        ),
    decreases d, 2nat,
{
    reveal_strlit(" . ");
    reveal_strlit(" ");
    reveal_strlit(")");
    let rest1 = " . "@ + show(d) + ")"@ + rest;
    let v = rest1.drop_first();
    let rest2 = v.drop_first();
    let w = show(d) + ")"@ + rest;
    assert(is_ws(' '));
    assert(!is_ws('.'));
    assert(v =~= seq!['.'] + rest2);
    assert(rest2 =~= " "@ + w);
    assert(ws_len(rest1) == 1 + ws_len(v));
    lemma_trim_id(v);
    assert(trim(rest1) =~= v);
    assert(!is_delim(v[0]));
    assert(is_delim(v[1]));
    lemma_atom_len(v, 1);
    assert(v.take(1) =~= seq!['.']);
    assert(v.skip(1) =~= rest2);
    assert(!is_digit('.'));
    assert(parse_i64_spec(seq!['.']) is None);
    assert(read_spec(v) == Ok::<(Sexp, Seq<char>), ReadError>((Sexp::Sym(seq!['.']), rest2)));
    lemma_show_start(d);
    assert(w[0] == show(d)[0]);
    lemma_trim_id(w);
    assert(rest2.drop_first() =~= w);
    assert(ws_len(rest2) == 1 + ws_len(w));
    assert(trim(rest2) =~= w);
    assert(is_delim((")"@ + rest)[0]));
    lemma_read_show(d, ")"@ + rest);
    assert(show(d) + (")"@ + rest) =~= w);
    let r3 = ")"@ + rest;
    lemma_trim_id(r3);
    assert(r3.drop_first() =~= rest);
    assert(read_list_spec(r3) == Ok::<(Sexp, Seq<char>), ReadError>((Sexp::Nil, rest)));
    assert(read_list_spec(rest2) == Ok::<(Sexp, Seq<char>), ReadError>(
        (Sexp::Cons(Box::new(d), Box::new(Sexp::Nil)), rest),
    ));
}

/// Reading the elements of a list, then its closing parenthesis, gives back
/// what the list reads as and the text after it.
proof fn lemma_read_show_list(t: Sexp, rest: Seq<char>)
    requires
        canonical_dotted(t),
        t is Cons,
    ensures
        read_list_spec(show_list(t) + ")"@ + rest) == Ok::<(Sexp, Seq<char>), ReadError>(
            (dot_read(t), rest),
        ),
    decreases t, 0nat,
{
    reveal_strlit(")");
    reveal_strlit(" ");
    reveal_strlit(" . ");
    if let Sexp::Cons(a, d) = t {
        let sa = show(*a);
        lemma_show_start(*a);
        let tail: Seq<char> = if *d is Nil {
            Seq::empty()
        } else if *d is Cons {
            " "@ + show_list(*d)
        } else {
            " . "@ + show(*d)
        };
        assert(show_list(t) == sa + tail);
        let rest1 = tail + ")"@ + rest;
        let s = show_list(t) + ")"@ + rest;
        assert(s =~= sa + rest1);
        assert(rest1[0] == ' ' || rest1[0] == ')');
        assert(is_ws(' '));
        lemma_read_show(*a, rest1);
        assert(s[0] == sa[0]);
        lemma_trim_id(s);
        assert(read_spec(s) == Ok::<(Sexp, Seq<char>), ReadError>((dot_read(*a), rest1)));
        if *d is Nil {
            assert(rest1 =~= ")"@ + rest);
            lemma_trim_id(rest1);
            assert(rest1.drop_first() =~= rest);
            assert(read_list_spec(rest1) == Ok::<(Sexp, Seq<char>), ReadError>((Sexp::Nil, rest)));
        } else if *d is Cons {
            let u = show_list(*d) + ")"@ + rest;
            lemma_read_show_list(*d, rest);
            assert(canonical_dotted(*d));
            if let Sexp::Cons(a2, _) = *d {
                lemma_show_start(*a2);
                assert(show_list(*d)[0] == show(*a2)[0]);
            }
            assert(u[0] == show_list(*d)[0]);
            lemma_trim_id(u);
            assert(rest1 =~= " "@ + u);
            assert(rest1.drop_first() =~= u);
            assert(ws_len(rest1) == 1 + ws_len(u));
            assert(trim(rest1) =~= u);
            assert(read_list_spec(rest1) == read_list_spec(u));
        } else {
            lemma_read_dot_tail(*d, rest);
            assert(rest1 =~= " . "@ + show(*d) + ")"@ + rest);
        }
    }
}

/// Printing what was read gives the text back: the text that the printer
/// writes for a canonical tree reads back as that very tree, with nothing
/// left over.
pub proof fn law_print_then_read(t: Sexp)
    requires
        canonical(t),
    ensures
        read_spec(show(t)) == Ok::<(Sexp, Seq<char>), ReadError>((t, Seq::empty())),
{
    lemma_canonical_dotted(t);
    lemma_read_show(t, Seq::empty());
    assert(show(t) + Seq::<char>::empty() =~= show(t));
}

/// A list whose last cdr is an atom prints that atom after a dot: reading
/// the text back gives the list with the symbol `.` before its last cdr.
pub proof fn law_print_dotted(t: Sexp)
    requires
        canonical_dotted(t),
    ensures
        read_spec(show(t)) == Ok::<(Sexp, Seq<char>), ReadError>((dot_read(t), Seq::empty())),
{
    lemma_read_show(t, Seq::empty());
    assert(show(t) + Seq::<char>::empty() =~= show(t));
}

/// A pair whose cdr is an atom prints otherwise than the list of its two
/// halves: `(a . b)` is never written as `(a b)`.
pub proof fn law_pair_prints_apart(a: Sexp, b: Sexp)
    requires
        canonical_dotted(a),
        canonical_atom(b),
    ensures
        show(Sexp::Cons(Box::new(a), Box::new(b))) != show(
            Sexp::Cons(Box::new(a), Box::new(Sexp::Cons(Box::new(b), Box::new(Sexp::Nil)))),
        ),
{
    let t1 = Sexp::Cons(Box::new(a), Box::new(b));
    let t2 = Sexp::Cons(Box::new(a), Box::new(Sexp::Cons(Box::new(b), Box::new(Sexp::Nil))));
    let l = Sexp::Cons(Box::new(b), Box::new(Sexp::Nil));
    assert(canonical_dotted(b));
    assert(canonical_dotted(l));
    law_print_dotted(t1);
    law_print_dotted(t2);
    assert(dot_read(b) == b);
    assert(dot_read(l) == l);
    let x = dot_read(t1);
    let y = dot_read(t2);
    assert(x->Cons_1 == Box::new(Sexp::Cons(Box::new(Sexp::Sym(seq!['.'])), Box::new(l))));
    assert(y->Cons_1 == Box::new(l));
    assert(l->Cons_1 == Box::new(Sexp::Nil));
    assert(x != y);
}

/// An object that stands for a tree within some bounds stands for it.
proof fn lemma_den_full(m: Map<i64, LObj>, o: LObj, t: Sexp, lo: int, hi: int)
    requires
        den(m, o, t, lo, hi),
    ensures
        denotes(m, o, t),
    decreases t,
{
    if let Sexp::Cons(a, d) = t {
        if let LObj::Cons(x, y) = o {
            lemma_den_full(m, get_obj(m, x.0), *a, lo, hi);
            lemma_den_full(m, get_obj(m, y.0), *d, lo, hi);
        }
    }
}

/// Reading the text of a canonical tree into the arena and printing the
/// object read writes that text again.
pub proof fn law_read_then_print(t: Sexp, m: Map<i64, LObj>, k: i64, lo: int, hi: int)
    requires
        canonical(t),
        read_spec(show(t)) is Ok,
        den(m, get_obj(m, k), read_spec(show(t))->Ok_0.0, lo, hi),
    ensures
        printable(m, k),
        show(tree_of(m, k)) == show(t),
{
    law_print_then_read(t);
    lemma_den_full(m, get_obj(m, k), t, lo, hi);
    assert(denotes(m, get_obj(m, k), t));
    lemma_den_unique(m, get_obj(m, k), t, tree_of(m, k), i64::MIN - 1, i64::MAX as int, i64::MIN - 1, i64::MAX as int);
}

} // verus!
