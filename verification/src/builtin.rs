//! Arithmetic on numbers and the left fold that the arithmetic primitives use.
use vstd::prelude::*;

use crate::arena::{
    agrees_upto, car_ref, cdr_ref, get_obj, heap_wf, lemma_nth_tail_add, lemma_nth_tail_bounded,
    lemma_nth_tail_frame, nth_tail, refs_within, Arena,
};
use crate::evaluator::Evaluator;
use crate::object::{car_obj, cdr_obj, is_sym, obj_eq, LObj, LRef, SubFn};

verus! {

/// The arithmetic operations of the language.
#[derive(Clone, Copy, PartialEq, Eq, Structural, Debug)]
pub enum ArithOp {
    Add,
    Sub,
    Mul,
    Div,
    Mod,
}

pub open spec fn abs(x: int) -> nat {
    if x < 0 {
        (-x) as nat
    } else {
        x as nat
    }
}

/// Division that rounds toward zero.
pub open spec fn trunc_div(x: int, y: int) -> int {
    let q = (abs(x) / abs(y)) as int;
    if (x < 0) != (y < 0) {
        -q
    } else {
        q
    }
}

/// The remainder of `trunc_div`; it takes the sign of `x`.
pub open spec fn trunc_rem(x: int, y: int) -> int {
    let r = (abs(x) % abs(y)) as int;
    if x < 0 {
        -r
    } else {
        r
    }
}

pub open spec fn in_i64(v: int) -> bool {
    i64::MIN <= v <= i64::MAX
}

/// The result of an operation on two numbers, or `None` where the machine
/// operation fails: on overflow and on division by zero.
pub open spec fn arith_spec(op: ArithOp, x: i64, y: i64) -> Option<i64> {
    let v: int = match op {
        ArithOp::Add => x + y,
        ArithOp::Sub => x - y,
        ArithOp::Mul => x * y,
        ArithOp::Div => if y == 0 {
            0
        } else {
            trunc_div(x as int, y as int)
        },
        ArithOp::Mod => if y == 0 {
            0
        } else {
            trunc_rem(x as int, y as int)
        },
    };
    if (op == ArithOp::Div || op == ArithOp::Mod) && (y == 0 || (x == i64::MIN && y == -1)) {
        None
    } else if in_i64(v) {
        Some(v as i64)
    } else {
        None
    }
}

fn magnitude(x: i64) -> (r: u64)
    ensures
        r == abs(x as int),
{
    if x < 0 {
        (-(x as i128)) as u64
    } else {
        x as u64
    }
}

/// Applies `op`; defined wherever the machine operation does not fail.
pub fn arith(op: ArithOp, x: i64, y: i64) -> (r: i64)
    requires
        arith_spec(op, x, y) is Some,
    ensures
        r == arith_spec(op, x, y).unwrap(),
{
    match op {
        ArithOp::Add => x + y,
        ArithOp::Sub => x - y,
        ArithOp::Mul => {
            assert(in_i64(x * y));
            x * y
        },
        ArithOp::Div => {
            let q = magnitude(x) / magnitude(y);
            proof {
                assert(q <= abs(x as int)) by (nonlinear_arith)
                    requires
                        q == abs(x as int) / abs(y as int),
                        abs(y as int) >= 1,
                ;
            }
            let neg = (x < 0) != (y < 0);
            let v: i128 = if neg {
                -(q as i128)
            } else {
                q as i128
            };
            v as i64
        },
        ArithOp::Mod => {
            let m = magnitude(x) % magnitude(y);
            proof {
                assert(m <= abs(x as int)) by (nonlinear_arith)
                    requires
                        m == abs(x as int) % abs(y as int),
                        abs(y as int) >= 1,
                ;
            }
            let v: i128 = if x < 0 {
                -(m as i128)
            } else {
                m as i128
            };
            v as i64
        },
    }
}

/// The cell `c` is a cons whose car holds a number.
pub open spec fn is_num_cell(m: Map<i64, LObj>, c: i64) -> bool {
    get_obj(m, c) is Cons && get_obj(m, car_ref(get_obj(m, c))) is Num
}

/// The number held in the car of the `i`th cell of the list at `r`.
pub open spec fn num_at(m: Map<i64, LObj>, r: i64, i: nat) -> i64 {
    get_obj(m, car_ref(get_obj(m, nth_tail(m, r, i))))->Num_0
}

/// The list at `r` starts with exactly `k` cells whose cars hold numbers.
pub open spec fn num_run_is(m: Map<i64, LObj>, r: i64, k: nat) -> bool {
    &&& forall|i: nat| i < k ==> #[trigger] is_num_cell(m, nth_tail(m, r, i))
    &&& !is_num_cell(m, nth_tail(m, r, k))
}

pub open spec fn num_run(m: Map<i64, LObj>, r: i64) -> nat {
    choose|k: nat| num_run_is(m, r, k)
}

/// The first `k` numbers of the list at `r`.
pub open spec fn nums(m: Map<i64, LObj>, r: i64, k: nat) -> Seq<i64> {
    Seq::new(k, |i: int| num_at(m, r, i as nat))
}

/// `f` can be applied from `acc` on to each of `ys` in turn, whatever each
/// application answers.
pub open spec fn fold_defined<F: Fn(i64, i64) -> i64>(f: F, acc: i64, ys: Seq<i64>) -> bool
    decreases ys.len(),
{
    ys.len() > 0 ==> {
        &&& call_requires(f, (acc, ys[0]))
        &&& forall|v: i64|
            #[trigger] call_ensures(f, (acc, ys[0]), v) ==> fold_defined(f, v, ys.drop_first())
    }
}

/// `v` is what folding `f` from the left over `acc` and `ys` can answer, each
/// application answering what `f` may answer.
pub open spec fn fold_gives<F: Fn(i64, i64) -> i64>(f: F, acc: i64, ys: Seq<i64>, v: i64) -> bool
    decreases ys.len(),
{
    if ys.len() == 0 {
        v == acc
    } else {
        exists|w: i64| #[trigger] call_ensures(f, (acc, ys[0]), w) && fold_gives(f, w, ys.drop_first(), v)
    }
}

/// Folds `op` from the left over `acc` and `ys`; `None` when a step fails.
pub open spec fn arith_fold(op: ArithOp, acc: i64, ys: Seq<i64>) -> Option<i64>
    decreases ys.len(),
{
    if ys.len() == 0 {
        Some(acc)
    } else {
        match arith_spec(op, acc, ys[0]) {
            Some(a) => arith_fold(op, a, ys.drop_first()),
            None => None,
        }
    }
}

/// `f` computes `op` wherever `op` is defined.
pub open spec fn computes<F: Fn(i64, i64) -> i64>(f: F, op: ArithOp) -> bool {
    &&& forall|a: i64, b: i64| arith_spec(op, a, b) is Some ==> #[trigger] call_requires(f, (a, b))
    &&& forall|a: i64, b: i64, w: i64|
        #[trigger] call_ensures(f, (a, b), w) ==> arith_spec(op, a, b) == Some(w)
}

/// A function that computes `op` folds as `op` does.
pub proof fn lemma_fold_computes<F: Fn(i64, i64) -> i64>(f: F, op: ArithOp, acc: i64, ys: Seq<i64>)
    requires
        computes(f, op),
    ensures
        arith_fold(op, acc, ys) is Some ==> fold_defined(f, acc, ys),
        forall|v: i64| #[trigger] fold_gives(f, acc, ys, v) ==> arith_fold(op, acc, ys) == Some(v),
    decreases ys.len(),
{
    if ys.len() > 0 {
        assert forall|v: i64| #[trigger] call_ensures(f, (acc, ys[0]), v) implies arith_fold(op, v, ys.drop_first())
            == arith_fold(op, acc, ys) && (arith_fold(op, acc, ys) is Some ==> fold_defined(
            f,
            v,
            ys.drop_first(),
        )) && (forall|u: i64| #[trigger] fold_gives(f, v, ys.drop_first(), u) ==> arith_fold(op, v, ys.drop_first()) == Some(u)) by {
            lemma_fold_computes(f, op, v, ys.drop_first());
        }
        assert forall|v: i64| #[trigger] fold_gives(f, acc, ys, v) implies arith_fold(op, acc, ys) == Some(v) by {
            let w = choose|w: i64| #[trigger] call_ensures(f, (acc, ys[0]), w) && fold_gives(f, w, ys.drop_first(), v);
            assert(call_ensures(f, (acc, ys[0]), w));
        }
    }
}

/// `fold` can run from `car` over `cdr` in `m`: when `car` holds a number,
/// the run of numbers at `cdr` ends, `f` can be applied at every step and
/// there is room for one new cell per step.
pub open spec fn fold_ok<F: Fn(i64, i64) -> i64>(f: F, m: Map<i64, LObj>, last: int, car: i64, cdr: i64) -> bool {
    get_obj(m, car) matches LObj::Num(x) ==> {
        &&& exists|k: nat| num_run_is(m, cdr, k)
        &&& fold_defined(f, x, nums(m, cdr, num_run(m, cdr)))
        &&& last + num_run(m, cdr) <= i64::MAX
    }
}

/// `r` is what `fold` can answer: `Nil` when `car` holds no number or the run
/// of numbers stops at a cell whose car is not a number; otherwise a number
/// that folding `f` over the number in `car` and the run can give.
pub open spec fn fold_answer<F: Fn(i64, i64) -> i64>(f: F, m: Map<i64, LObj>, car: i64, cdr: i64, r: LObj) -> bool {
    match get_obj(m, car) {
        LObj::Num(x) => if get_obj(m, nth_tail(m, cdr, num_run(m, cdr))) is Cons {
            r == LObj::Nil
        } else {
            r matches LObj::Num(v) && fold_gives(f, x, nums(m, cdr, num_run(m, cdr)), v)
        },
        _ => r == LObj::Nil,
    }
}

/// `fold` can run `op` from `car` over `cdr` in `m`: the run of numbers ends,
/// every step of the fold is defined and there is room for the new cells.
pub open spec fn arith_fold_ok(op: ArithOp, m: Map<i64, LObj>, last: int, car: i64, cdr: i64) -> bool {
    get_obj(m, car) matches LObj::Num(x) ==> {
        &&& exists|k: nat| num_run_is(m, cdr, k)
        &&& arith_fold(op, x, nums(m, cdr, num_run(m, cdr))) is Some
        &&& last + num_run(m, cdr) <= i64::MAX
    }
}

/// What folding `op` from `car` over `cdr` answers.
pub open spec fn arith_fold_result(op: ArithOp, m: Map<i64, LObj>, car: i64, cdr: i64) -> LObj {
    match get_obj(m, car) {
        LObj::Num(x) => if get_obj(m, nth_tail(m, cdr, num_run(m, cdr))) is Cons {
            LObj::Nil
        } else {
            LObj::Num(arith_fold(op, x, nums(m, cdr, num_run(m, cdr))).unwrap())
        },
        _ => LObj::Nil,
    }
}

/// The number of cells `fold` adds to the arena.
pub open spec fn fold_cost(m: Map<i64, LObj>, car: i64, cdr: i64) -> nat {
    if get_obj(m, car) is Num {
        num_run(m, cdr)
    } else {
        0
    }
}

pub proof fn lemma_num_run_unique(m: Map<i64, LObj>, r: i64, k1: nat, k2: nat)
    requires
        num_run_is(m, r, k1),
        num_run_is(m, r, k2),
    ensures
        k1 == k2,
{
    if k1 < k2 {
        assert(is_num_cell(m, nth_tail(m, r, k1)));
    } else if k2 < k1 {
        assert(is_num_cell(m, nth_tail(m, r, k2)));
    }
}

/// One step of the fold: the run continues from the cdr of the first cell,
/// with the first number taken off.
pub proof fn lemma_fold_step(m: Map<i64, LObj>, r: i64, k: nat)
    requires
        num_run_is(m, r, k + 1),
    ensures
        num_run_is(m, cdr_ref(get_obj(m, r)), k),
        nums(m, r, k + 1).drop_first() == nums(m, cdr_ref(get_obj(m, r)), k),
        nums(m, r, k + 1)[0] == num_at(m, r, 0),
        nth_tail(m, r, k + 1) == nth_tail(m, cdr_ref(get_obj(m, r)), k),
{
    let r1 = cdr_ref(get_obj(m, r));
    assert(nth_tail(m, r, 0) == r);
    assert(is_num_cell(m, nth_tail(m, r, 0)));
    assert(nth_tail(m, r, 1) == r1);
    assert forall|j: nat| #![trigger nth_tail(m, r1, j)] nth_tail(m, r, j + 1) == nth_tail(m, r1, j) by {
        lemma_nth_tail_add(m, r, 1, j);
    }
    assert forall|i: nat| i < k implies #[trigger] is_num_cell(m, nth_tail(m, r1, i)) by {
        assert(is_num_cell(m, nth_tail(m, r, i + 1)));
    }
    assert(nth_tail(m, r, k + 1) == nth_tail(m, r1, k));
    assert forall|i: int| 0 <= i < k implies #[trigger] nums(m, r, k + 1).drop_first()[i] == nums(m, r1, k)[i] by {
        assert(nth_tail(m, r, (i + 1) as nat) == nth_tail(m, r1, i as nat));
    }
    assert(nums(m, r, k + 1).drop_first() =~= nums(m, r1, k));
}

/// The cell at `c` reads the same in both maps, and so does its car.
proof fn lemma_cell_frame(m1: Map<i64, LObj>, m2: Map<i64, LObj>, last: int, c: i64)
    requires
        heap_wf(m1, last),
        agrees_upto(m1, m2, last),
        c <= last,
    ensures
        get_obj(m2, c) == get_obj(m1, c),
        get_obj(m1, c) is Cons ==> get_obj(m2, car_ref(get_obj(m2, c))) == get_obj(
            m1,
            car_ref(get_obj(m1, c)),
        ),
        is_num_cell(m2, c) == is_num_cell(m1, c),
{
    assert(m1.contains_key(c) == m2.contains_key(c));
    if get_obj(m1, c) is Cons {
        assert(refs_within(m1[c], last));
        let a = car_ref(get_obj(m1, c));
        assert(m1.contains_key(a) == m2.contains_key(a));
    }
}

/// In a well-formed heap a run of numbers reached from an issued reference,
/// and its numbers, are the same in any map that agrees up to `last`.
pub proof fn lemma_num_run_frame(
    m1: Map<i64, LObj>,
    m2: Map<i64, LObj>,
    last: int,
    r: i64,
    k: nat,
)
    requires
        heap_wf(m1, last),
        agrees_upto(m1, m2, last),
        r <= last,
        num_run_is(m1, r, k),
    ensures
        num_run_is(m2, r, k),
        num_run(m2, r) == k,
        nth_tail(m2, r, k) == nth_tail(m1, r, k),
        get_obj(m2, nth_tail(m2, r, k)) == get_obj(m1, nth_tail(m1, r, k)),
        nums(m2, r, k) == nums(m1, r, k),
{
    assert forall|i: nat| #![trigger nth_tail(m1, r, i)] nth_tail(m2, r, i) == nth_tail(m1, r, i)
        && is_num_cell(m2, nth_tail(m2, r, i)) == is_num_cell(m1, nth_tail(m1, r, i)) && (
    get_obj(m1, nth_tail(m1, r, i)) is Cons ==> num_at(m2, r, i) == num_at(m1, r, i)) by {
        lemma_nth_tail_frame(m1, m2, last, r, i);
        lemma_nth_tail_bounded(m1, last, r, i);
        lemma_cell_frame(m1, m2, last, nth_tail(m1, r, i));
    }
    assert forall|i: nat| i < k implies #[trigger] is_num_cell(m2, nth_tail(m2, r, i)) by {
        assert(is_num_cell(m1, nth_tail(m1, r, i)));
    }
    assert(nth_tail(m2, r, k) == nth_tail(m1, r, k));
    assert(num_run_is(m2, r, k));
    lemma_num_run_unique(m2, r, k, num_run(m2, r));
    lemma_nth_tail_bounded(m1, last, r, k);
    lemma_cell_frame(m1, m2, last, nth_tail(m1, r, k));
    assert forall|i: int| 0 <= i < k implies #[trigger] nums(m2, r, k)[i] == nums(m1, r, k)[i] by {
        assert(is_num_cell(m1, nth_tail(m1, r, i as nat)));
    }
    assert(nums(m2, r, k) =~= nums(m1, r, k));
}

impl SubFn {
    /// Folds `f` from the left over the number in `car` and the numbers of
    /// the list at `cdr`, one new cell per step; see `fold_answer`.
    pub fn fold<F: Fn(i64, i64) -> i64>(arena: &mut Arena, car: &LRef, cdr: &LRef, f: &F) -> (r: LObj)
        requires
            old(arena).wf(),
            car.0 <= old(arena).last,
            cdr.0 <= old(arena).last,
            fold_ok(*f, old(arena).data@, old(arena).last as int, car.0, cdr.0),
        ensures
            fold_answer(*f, old(arena).data@, car.0, cdr.0, r),
            final(arena).last == old(arena).last + fold_cost(old(arena).data@, car.0, cdr.0),
            agrees_upto(old(arena).data@, final(arena).data@, old(arena).last as int),
            final(arena).wf(),
        decreases fold_cost(old(arena).data@, car.0, cdr.0),
    {
        let ghost m = arena.data@;
        let ghost last = arena.last as int;
        if let LObj::Num(x) = arena.get(car) {
            let ghost k = num_run(m, cdr.0);
            proof {
                assert(num_run_is(m, cdr.0, k));
                assert(nth_tail(m, cdr.0, 0) == cdr.0);
            }
            if let LObj::Cons(cdar, cddr) = arena.get(cdr) {
                if let LObj::Num(y) = arena.get(&cdar) {
                    let ghost ys = nums(m, cdr.0, k);
                    proof {
                        assert(is_num_cell(m, nth_tail(m, cdr.0, 0)));
                        assert(k >= 1);
                        lemma_fold_step(m, cdr.0, (k - 1) as nat);
                        assert(ys[0] == y);
                        assert(m.contains_key(cdr.0));
                        assert(refs_within(m[cdr.0], last));
                    }
                    let v = f(x, y);
                    let sum = &arena.make(LObj::Num(v));
                    proof {
                        lemma_num_run_frame(m, arena.data@, last, cddr.0, (k - 1) as nat);
                        assert(fold_defined(*f, v, ys.drop_first()));
                    }
                    let r = Self::fold(arena, sum, &cddr, f);
                    proof {
                        if let LObj::Num(u) = r {
                            assert(call_ensures(*f, (x, ys[0]), v) && fold_gives(*f, v, ys.drop_first(), u));
                        }
                    }
                    return r;
                }
                proof {
                    assert(!is_num_cell(m, nth_tail(m, cdr.0, 0)));
                    lemma_num_run_unique(m, cdr.0, k, 0);
                }
            } else {
                proof {
                    assert(!is_num_cell(m, nth_tail(m, cdr.0, 0)));
                    lemma_num_run_unique(m, cdr.0, k, 0);
                    assert(nums(m, cdr.0, 0).len() == 0);
                }
                return arena.get(car);
            }
        }
        LObj::Nil
    }
}

/// The arithmetic primitives and the operation each folds with.
pub open spec fn arith_of(f: SubFn) -> Option<ArithOp> {
    match f {
        SubFn::Add => Some(ArithOp::Add),
        SubFn::Sub => Some(ArithOp::Sub),
        SubFn::Mul => Some(ArithOp::Mul),
        SubFn::Div => Some(ArithOp::Div),
        SubFn::Mod => Some(ArithOp::Mod),
        _ => None,
    }
}

/// The arena in which a primitive runs on the argument list at `args`: the
/// second argument has been copied into the fresh cell `last + 1`.
pub open spec fn call_heap(m: Map<i64, LObj>, last: int, args: i64) -> Map<i64, LObj> {
    m.insert((last + 1) as i64, car_obj(m, get_obj(m, cdr_ref(get_obj(m, args)))))
}

/// `call` can run `f` on the arguments at `args`: there is room for the copy
/// of the second argument, and an arithmetic fold can run.
pub open spec fn call_ok(f: SubFn, m: Map<i64, LObj>, last: int, args: i64) -> bool {
    get_obj(m, args) matches LObj::Cons(car, cdr) ==> {
        &&& last + 1 <= i64::MAX
        &&& arith_of(f) matches Some(op) ==> arith_fold_ok(
            op,
            call_heap(m, last, args),
            last + 1,
            car.0,
            cdr.0,
        )
    }
}

/// The number of cells `call` adds to the arena.
pub open spec fn call_cost(f: SubFn, m: Map<i64, LObj>, last: int, args: i64) -> nat {
    match get_obj(m, args) {
        LObj::Cons(car, cdr) => match arith_of(f) {
            Some(op) => 1 + fold_cost(call_heap(m, last, args), car.0, cdr.0),
            None => 1,
        },
        _ => 0,
    }
}

/// What `call` answers for `f` on the arguments at `args`; `t` is any symbol
/// named `t`.
pub open spec fn call_result(f: SubFn, m: Map<i64, LObj>, last: int, args: i64, r: LObj) -> bool {
    match get_obj(m, args) {
        LObj::Cons(car, cdr) => {
            let h = call_heap(m, last, args);
            let x = get_obj(m, car.0);
            let second = get_obj(h, (last + 1) as i64);
            match f {
                SubFn::Car => r == car_obj(m, x),
                SubFn::Cdr => r == cdr_obj(m, x),
                SubFn::Cons => r == LObj::Cons(car, LRef((last + 1) as i64)),
                SubFn::Eq => if obj_eq(x, second) {
                    is_sym(r, "t"@)
                } else {
                    r == LObj::Nil
                },
                SubFn::Atom => if x is Cons {
                    r == LObj::Nil
                } else {
                    is_sym(r, "t"@)
                },
                SubFn::Numberp => if x is Num {
                    is_sym(r, "t"@)
                } else {
                    r == LObj::Nil
                },
                SubFn::Symbolp => if x is Num {
                    is_sym(r, "t"@)
                } else {
                    r == LObj::Nil
                },
                SubFn::T => is_sym(r, "t"@),
                SubFn::SetBang => r == LObj::Nil,
                _ => r == arith_fold_result(arith_of(f).unwrap(), h, car.0, cdr.0),
            }
        },
        _ => r == LObj::Nil,
    }
}

impl SubFn {
    /// Folds the arithmetic operation `op`, as a function on two numbers,
    /// over the number in `car` and the numbers of the list at `cdr`.
    fn fold_arith(arena: &mut Arena, car: &LRef, cdr: &LRef, op: ArithOp) -> (r: LObj)
        requires
            old(arena).wf(),
            car.0 <= old(arena).last,
            cdr.0 <= old(arena).last,
            arith_fold_ok(op, old(arena).data@, old(arena).last as int, car.0, cdr.0),
        ensures
            r == arith_fold_result(op, old(arena).data@, car.0, cdr.0),
            final(arena).last == old(arena).last + fold_cost(old(arena).data@, car.0, cdr.0),
            agrees_upto(old(arena).data@, final(arena).data@, old(arena).last as int),
            final(arena).wf(),
    {
        let ghost m = arena.data@;
        let f = move |x: i64, y: i64| -> (v: i64)
            requires
                arith_spec(op, x, y) is Some,
            ensures
                arith_spec(op, x, y) == Some(v),
            { arith(op, x, y) };
        proof {
            assert forall|a: i64, b: i64| arith_spec(op, a, b) is Some implies #[trigger] call_requires(
                f,
                (a, b),
            ) by {}
            assert(computes(f, op));
            if let LObj::Num(x) = get_obj(m, car.0) {
                lemma_fold_computes(f, op, x, nums(m, cdr.0, num_run(m, cdr.0)));
            }
        }
        Self::fold(arena, car, cdr, &f)
    }
    /// Applies the primitive to the evaluated arguments in the list at `args`.
    pub fn call(&self, evaluator: &mut Evaluator, args: &LRef) -> (r: LObj)
        requires
            old(evaluator).inv(),
            call_ok(*self, old(evaluator).arena.data@, old(evaluator).arena.last as int, args.0),
        ensures
            call_result(*self, old(evaluator).arena.data@, old(evaluator).arena.last as int, args.0, r),
            final(evaluator).arena.last == old(evaluator).arena.last + call_cost(
                *self,
                old(evaluator).arena.data@,
                old(evaluator).arena.last as int,
                args.0,
            ),
            agrees_upto(
                old(evaluator).arena.data@,
                final(evaluator).arena.data@,
                old(evaluator).arena.last as int,
            ),
            final(evaluator).genv == old(evaluator).genv,
            final(evaluator).inv(),
            get_obj(old(evaluator).arena.data@, args.0) is Cons && arith_of(*self) is None
                ==> final(evaluator).arena.data@ == call_heap(
                old(evaluator).arena.data@,
                old(evaluator).arena.last as int,
                args.0,
            ),
            get_obj(old(evaluator).arena.data@, args.0) is Cons && arith_of(*self) is Some
                ==> agrees_upto(
                call_heap(old(evaluator).arena.data@, old(evaluator).arena.last as int, args.0),
                final(evaluator).arena.data@,
                old(evaluator).arena.last + 1,
            ),
            !(get_obj(old(evaluator).arena.data@, args.0) is Cons) ==> *final(evaluator) == *old(
                evaluator,
            ),
    {
        let ghost m = evaluator.arena.data@;
        let ghost last = evaluator.arena.last as int;
        if let LObj::Cons(ref car, ref cdr) = evaluator.arena.get(args) {
            proof {
                assert(m.contains_key(args.0));
                assert(refs_within(m[args.0], last));
                let d = get_obj(m, cdr.0);
                if m.contains_key(cdr.0) {
                    assert(refs_within(m[cdr.0], last));
                }
                let x = get_obj(m, car.0);
                if m.contains_key(car.0) {
                    assert(refs_within(m[car.0], last));
                }
            }
            let cdar = evaluator.arena.get(cdr).car(&evaluator.arena);
            let cdar = evaluator.arena.make(cdar);
            proof {
                let x = get_obj(m, car.0);
                assert(get_obj(evaluator.arena.data@, car.0) == x);
                if x is Cons {
                    assert(get_obj(evaluator.arena.data@, car_ref(x)) == get_obj(m, car_ref(x)));
                    assert(get_obj(evaluator.arena.data@, cdr_ref(x)) == get_obj(m, cdr_ref(x)));
                }
                assert(evaluator.arena.data@ == call_heap(m, last, args.0));
                assert(m.contains_key(evaluator.genv.0));
            }
            return match *self {
                SubFn::Car => evaluator.arena.get(car).car(&evaluator.arena),
                SubFn::Cdr => evaluator.arena.get(car).cdr(&evaluator.arena),
                SubFn::Cons => LObj::Cons(car.clone(), cdar),
                SubFn::Eq => {
                    match evaluator.arena.get(car) == evaluator.arena.get(&cdar) {
                        true => LObj::t(),
                        _ => LObj::Nil,
                    }
                },
                SubFn::Atom => {
                    match evaluator.arena.get(car) {
                        LObj::Cons(_, _) => LObj::Nil,
                        _ => LObj::t(),
                    }
                },
                SubFn::Numberp => {
                    match evaluator.arena.get(car) {
                        LObj::Num(_) => LObj::t(),
                        _ => LObj::Nil,
                    }
                },
                SubFn::Symbolp => {
                    match evaluator.arena.get(car) {
                        LObj::Num(_) => LObj::t(),
                        _ => LObj::Nil,
                    }
                },
                SubFn::Add => Self::fold_arith(&mut evaluator.arena, car, cdr, ArithOp::Add),
                SubFn::Sub => Self::fold_arith(&mut evaluator.arena, car, cdr, ArithOp::Sub),
                SubFn::Mul => Self::fold_arith(&mut evaluator.arena, car, cdr, ArithOp::Mul),
                SubFn::Div => Self::fold_arith(&mut evaluator.arena, car, cdr, ArithOp::Div),
                SubFn::Mod => Self::fold_arith(&mut evaluator.arena, car, cdr, ArithOp::Mod),
                SubFn::T => LObj::t(),
                SubFn::SetBang => {
                    let genv = evaluator.genv.clone();
                    if let LObj::Cons(_sym, val) = evaluator.arena.get(&args) {
                        let val = evaluator.arena.get(&val).car(&evaluator.arena);
                        let val = evaluator.eval(val, genv.clone()).unwrap();
                        return LObj::Nil;
                    } else {
                        return LObj::Nil;
                    }
                },
            };
        }
        LObj::Nil
    }
}

} // verus!
