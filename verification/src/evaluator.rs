//! The evaluator: a global environment of bindings kept in the arena, and the
//! lookup, definition and application of functions.
use vstd::prelude::*;

use crate::arena::{
    agrees_upto, car_ref, cdr_ref, get_obj, heap_wf, is_list, lemma_list_len, lemma_list_len_unique, lemma_nth_tail_bounded,
    lemma_nth_tail_frame, lemma_spine_reversed, lemma_spine_reversed_cells, lemma_spine_step, list_cars, list_len, list_len_is,
    nth_tail, refs_within, spine, Arena,
};
use crate::object::{car_obj, is_sym, obj_eq, primitives, LObj, LRef, SubFn};
use crate::text::str_eq;

verus! {

/// The cell `kv` is a binding `(key . value)` whose key object equals `sym`.
pub open spec fn binding_matches(m: Map<i64, LObj>, sym: LObj, kv: i64) -> bool {
    get_obj(m, kv) matches LObj::Cons(key, _) && obj_eq(get_obj(m, key.0), sym)
}

/// Looks `sym` up in the environment at `env`, a list of frames each of which
/// is a list of bindings, with at most `fuel` steps. `None` when the fuel runs
/// out; `Some(None)` when `sym` is unbound; `Some(Some(v))` when the first
/// binding of `sym` holds `v` in its cdr.
pub open spec fn search_env(m: Map<i64, LObj>, sym: LObj, env: i64, fuel: nat) -> Option<
    Option<i64>,
>
    decreases fuel,
{
    if fuel == 0 {
        None
    } else {
        match get_obj(m, env) {
            LObj::Cons(alist, rest) => search_alist(m, sym, alist.0, rest.0, (fuel - 1) as nat),
            _ => Some(None),
        }
    }
}

/// Looks `sym` up in the frame at `alist`, then in the frames at `rest`.
pub open spec fn search_alist(m: Map<i64, LObj>, sym: LObj, alist: i64, rest: i64, fuel: nat) -> Option<
    Option<i64>,
>
    decreases fuel,
{
    if fuel == 0 {
        None
    } else {
        match get_obj(m, alist) {
            LObj::Cons(kv, next) => if binding_matches(m, sym, kv.0) {
                Some(Some(cdr_ref(get_obj(m, kv.0))))
            } else {
                search_alist(m, sym, next.0, rest, (fuel - 1) as nat)
            },
            _ => search_env(m, sym, rest, (fuel - 1) as nat),
        }
    }
}

/// The lookup of `sym` in `env` ends.
pub open spec fn lookup_ends(m: Map<i64, LObj>, sym: LObj, env: i64) -> bool {
    exists|f: nat| #[trigger] search_env(m, sym, env, f) is Some
}

pub proof fn lemma_search_monotone(m: Map<i64, LObj>, sym: LObj, env: i64, f1: nat, f2: nat)
    requires
        search_env(m, sym, env, f1) is Some,
        f1 <= f2,
    ensures
        search_env(m, sym, env, f2) == search_env(m, sym, env, f1),
    decreases f1,
{
    if f1 > 0 {
        if let LObj::Cons(alist, rest) = get_obj(m, env) {
            lemma_search_alist_monotone(m, sym, alist.0, rest.0, (f1 - 1) as nat, (f2 - 1) as nat);
        }
    }
}

pub proof fn lemma_search_alist_monotone(
    m: Map<i64, LObj>,
    sym: LObj,
    alist: i64,
    rest: i64,
    f1: nat,
    f2: nat,
)
    requires
        search_alist(m, sym, alist, rest, f1) is Some,
        f1 <= f2,
    ensures
        search_alist(m, sym, alist, rest, f2) == search_alist(m, sym, alist, rest, f1),
    decreases f1,
{
    if f1 > 0 {
        match get_obj(m, alist) {
            LObj::Cons(kv, next) => {
                if !binding_matches(m, sym, kv.0) {
                    lemma_search_alist_monotone(m, sym, next.0, rest, (f1 - 1) as nat, (f2 - 1) as nat);
                }
            },
            _ => {
                lemma_search_monotone(m, sym, rest, (f1 - 1) as nat, (f2 - 1) as nat);
            },
        }
    }
}

/// The result of looking `sym` up in `env`, when the lookup ends.
pub open spec fn lookup(m: Map<i64, LObj>, sym: LObj, env: i64) -> Option<i64> {
    search_env(m, sym, env, choose|f: nat| #[trigger] search_env(m, sym, env, f) is Some).unwrap()
}

pub proof fn lemma_lookup(m: Map<i64, LObj>, sym: LObj, env: i64, f: nat)
    requires
        search_env(m, sym, env, f) is Some,
    ensures
        lookup_ends(m, sym, env),
        lookup(m, sym, env) == search_env(m, sym, env, f).unwrap(),
{
    let g = choose|f: nat| #[trigger] search_env(m, sym, env, f) is Some;
    if f <= g {
        lemma_search_monotone(m, sym, env, f, g);
    } else {
        lemma_search_monotone(m, sym, env, g, f);
    }
}

pub open spec fn as_ref(o: Option<i64>) -> Option<LRef> {
    match o {
        Some(v) => Some(LRef(v)),
        None => None,
    }
}

/// The arena after `add_to_env` binds `sym` to `val` in the first frame of the
/// global environment at `genv`: four fresh cells for the symbol, the value,
/// the binding and the new head of the frame, and `genv` pointing at it.
pub open spec fn env_added(m: Map<i64, LObj>, last: int, genv: i64, sym: LObj, val: LObj) -> Map<
    i64,
    LObj,
> {
    let frame = get_obj(m, genv);
    m.insert((last + 1) as i64, sym).insert((last + 2) as i64, val).insert(
        (last + 3) as i64,
        LObj::Cons(LRef((last + 1) as i64), LRef((last + 2) as i64)),
    ).insert((last + 4) as i64, LObj::Cons(LRef((last + 3) as i64), LRef(car_ref(frame)))).insert(
        genv,
        LObj::Cons(LRef((last + 4) as i64), LRef(cdr_ref(frame))),
    )
}

/// The special forms of the language.
pub enum Form {
    Quote,
    If,
    Define,
    Lambda,
    Application,
}

/// The special form a symbol names; any other object starts an application.
pub open spec fn form_of(o: LObj) -> Form {
    match o {
        LObj::Sym(s) => if s@ == "quote"@ {
            Form::Quote
        } else if s@ == "if"@ {
            Form::If
        } else if s@ == "define"@ {
            Form::Define
        } else if s@ == "lambda"@ {
            Form::Lambda
        } else {
            Form::Application
        },
        _ => Form::Application,
    }
}

/// `apply` can run on `f` and `args`: a definition has room for its four
/// cells, and the arguments of an application form a finite list with room
/// for their evaluated copies.
pub open spec fn apply_ok(m: Map<i64, LObj>, last: int, f: i64, args: i64) -> bool {
    match form_of(get_obj(m, f)) {
        Form::Define => last + 4 <= i64::MAX,
        Form::Application => is_list(m, args) && last + 2 * list_len(m, args) + 2 <= i64::MAX,
        _ => true,
    }
}

/// After `k` primitives were defined into the frame at `genv`, counting from
/// an arena `m0` whose counter was at `last`: primitive `j` has its name in
/// the cell `last + 4j + 1`, its value in `last + 4j + 2`, the binding in
/// `last + 4j + 3` and the head of the frame in `last + 4j + 4`, which links
/// to the head before it; `genv` holds the newest head; every other cell up to
/// `last` is as it was, and there is no cell beyond `last + 4k`.
pub open spec fn prims_defined(m0: Map<i64, LObj>, last: int, genv: i64, k: nat, m: Map<i64, LObj>) -> bool {
    let frame = get_obj(m0, genv);
    &&& forall|j: int|
        0 <= j < k ==> {
            &&& is_sym(get_obj(m, (last + 4 * j + 1) as i64), (#[trigger] primitives()[j]).1@)
            &&& get_obj(m, (last + 4 * j + 2) as i64) == LObj::Subr(primitives()[j].0)
            &&& get_obj(m, (last + 4 * j + 3) as i64) == LObj::Cons(
                LRef((last + 4 * j + 1) as i64),
                LRef((last + 4 * j + 2) as i64),
            )
            &&& get_obj(m, (last + 4 * j + 4) as i64) == LObj::Cons(
                LRef((last + 4 * j + 3) as i64),
                LRef(
                    if j == 0 {
                        car_ref(frame)
                    } else {
                        (last + 4 * j) as i64
                    },
                ),
            )
        }
    &&& get_obj(m, genv) == if k == 0 {
        frame
    } else {
        LObj::Cons(LRef((last + 4 * k) as i64), LRef(cdr_ref(frame)))
    }
    &&& forall|key: i64|
        #![trigger m.contains_key(key)]
        #![trigger m0.contains_key(key)]
        key <= last && key != genv ==> (m.contains_key(key) == m0.contains_key(key) && get_obj(m, key)
            == get_obj(m0, key))
    &&& forall|key: i64| #![trigger m.contains_key(key)] last + 4 * k < key ==> !m.contains_key(key)
    &&& m.contains_key(genv) == (k > 0 || m0.contains_key(genv))
}

/// An interpreter: the arena and the reference of the global environment.
#[derive(Debug)]
pub struct Evaluator {
    pub arena: Arena,
    pub genv: LRef,
}

impl Evaluator {
    /// The arena is well formed and the global environment is a cons cell.
    pub open spec fn inv(&self) -> bool {
        &&& self.arena.wf()
        &&& self.genv.0 <= self.arena.last
        &&& self.arena.obj(self.genv.0) is Cons
    }

    /// Binds `sym` to `val` in the first frame of the global environment.
    pub fn add_to_env(&mut self, sym: LObj, val: LObj)
        requires
            old(self).arena.obj(old(self).genv.0) is Cons,
            old(self).arena.last + 4 <= i64::MAX,
        ensures
            final(self).genv == old(self).genv,
            final(self).arena.last == old(self).arena.last + 4,
            final(self).arena.data@ == env_added(
                old(self).arena.data@,
                old(self).arena.last as int,
                old(self).genv.0,
                sym,
                val,
            ),
            old(self).inv() && refs_within(sym, old(self).arena.last as int) && refs_within(
                val,
                old(self).arena.last as int,
            ) ==> final(self).inv(),
    {
        if let LObj::Cons(car, cdr) = self.arena.get(&self.genv) {
            let ghost m0 = self.arena.data@;
            let ghost last0 = self.arena.last as int;
            proof {
                if self.inv() {
                    assert(m0.contains_key(self.genv.0));
                    assert(refs_within(m0[self.genv.0], last0));
                }
            }
            let sym = self.arena.make(sym);
            let val = self.arena.make(val);
            let result = self.arena.make(LObj::Cons(sym, val));
            let result = self.arena.make(LObj::Cons(result, car));
            self.arena.set(self.genv.clone(), LObj::Cons(result, cdr));
        }
    }

    /// A fresh interpreter: an arena whose cell 1 is `Nil`, the global
    /// environment at cell 2 with one frame, and every primitive defined.
    pub fn new() -> (e: Evaluator)
        ensures
            e.inv(),
            e.genv == LRef(2),
            e.arena.last == 58,
            prims_defined(
                map![1i64 => LObj::Nil, 2i64 => LObj::Cons(LRef(1), LRef(1))],
                2,
                2,
                14,
                e.arena.data@,
            ),
    {
        let mut evaluator = Evaluator { arena: Arena::new(), genv: LRef(0) };
        let nil = evaluator.arena.make(LObj::Nil);
        evaluator.genv = evaluator.arena.make(LObj::Cons(nil.clone(), nil.clone()));
        proof {
            assert(evaluator.arena.data@ =~= map![1i64 => LObj::Nil, 2i64 => LObj::Cons(LRef(1), LRef(1))]);
        }
        evaluator.define_sub_fn();
        evaluator
    }

    /// Binds every primitive to its name in the global environment, in the
    /// order of `SubFn::all`.
    pub fn define_sub_fn(&mut self)
        requires
            old(self).inv(),
            old(self).arena.last + 56 <= i64::MAX,
        ensures
            final(self).inv(),
            final(self).genv == old(self).genv,
            final(self).arena.last == old(self).arena.last + 56,
            prims_defined(
                old(self).arena.data@,
                old(self).arena.last as int,
                old(self).genv.0,
                14,
                final(self).arena.data@,
            ),
    {
        let ghost m0 = self.arena.data@;
        let ghost last0 = self.arena.last as int;
        let ghost genv0 = self.genv;
        let prims = SubFn::all();
        let mut i: usize = 0;
        proof {
            assert(prims@.len() == 14);
        }
        while i < prims.len()
            invariant
                prims@ == primitives(),
                i <= 14,
                self.inv(),
                self.genv == genv0,
                self.arena.last == last0 + 4 * i,
                last0 + 56 <= i64::MAX,
                0 <= last0,
                genv0.0 <= last0,
                m0.contains_key(genv0.0),
                m0[genv0.0] is Cons,
                heap_wf(m0, last0),
                prims_defined(m0, last0, genv0.0, i as nat, self.arena.data@),
            decreases 14 - i,
        {
            let (subr, name) = prims[i];
            let ghost m1 = self.arena.data@;
            self.add_to_env(LObj::sym(name), LObj::Subr(subr));
            proof {
                let m2 = self.arena.data@;
                let frame = get_obj(m0, genv0.0);
                assert(m1.contains_key(genv0.0));
                assert forall|j: int| 0 <= j < i + 1 implies {
                    &&& is_sym(get_obj(m2, (last0 + 4 * j + 1) as i64), (#[trigger] primitives()[j]).1@)
                    &&& get_obj(m2, (last0 + 4 * j + 2) as i64) == LObj::Subr(primitives()[j].0)
                    &&& get_obj(m2, (last0 + 4 * j + 3) as i64) == LObj::Cons(
                        LRef((last0 + 4 * j + 1) as i64),
                        LRef((last0 + 4 * j + 2) as i64),
                    )
                    &&& get_obj(m2, (last0 + 4 * j + 4) as i64) == LObj::Cons(
                        LRef((last0 + 4 * j + 3) as i64),
                        LRef(
                            if j == 0 {
                                car_ref(frame)
                            } else {
                                (last0 + 4 * j) as i64
                            },
                        ),
                    )
                } by {
                }
                assert forall|key: i64|
                    #![trigger m2.contains_key(key)]
                    #![trigger m0.contains_key(key)]
                    key <= last0 && key != genv0.0 implies (m2.contains_key(key) == m0.contains_key(key)
                    && get_obj(m2, key) == get_obj(m0, key)) by {
                    assert(m1.contains_key(key) == m0.contains_key(key));
                }
                assert forall|key: i64| #![trigger m2.contains_key(key)] last0 + 4 * (i + 1) < key implies !m2.contains_key(key) by {
                    assert(!m1.contains_key(key));
                }
            }
            i = i + 1;
        }
    }

    /// Evaluates `obj` in `env`. Evaluation answers `Nil` for every object and
    /// leaves the interpreter as it was.
    pub fn eval(&mut self, obj: LObj, env: LRef) -> (r: Result<LObj, String>)
        ensures
            r == Ok::<LObj, String>(LObj::Nil),
            *final(self) == *old(self),
    {
        Ok(LObj::Nil)
    }

    /// Evaluates each element of the list at `lst`; returns a fresh list of
    /// the results, one per element.
    pub fn evlis(&mut self, lst: LRef, env: LRef) -> (r: Result<LRef, String>)
        requires
            old(self).inv(),
            is_list(old(self).arena.data@, lst.0),
            old(self).arena.last + 2 * list_len(old(self).arena.data@, lst.0) + 2 <= i64::MAX,
        ensures
            r matches Ok(x) && {
                let n = list_len(old(self).arena.data@, lst.0);
                &&& final(self).inv()
                &&& final(self).genv == old(self).genv
                &&& final(self).arena.last == old(self).arena.last + 2 * n + 2
                &&& agrees_upto(
                    old(self).arena.data@,
                    final(self).arena.data@,
                    old(self).arena.last as int,
                )
                &&& list_len_is(final(self).arena.data@, x.0, n)
                &&& forall|j: nat|
                    j < n ==> get_obj(
                        final(self).arena.data@,
                        #[trigger] list_cars(final(self).arena.data@, x.0, n)[j as int],
                    ) == LObj::Nil
                &&& nth_tail(final(self).arena.data@, x.0, n) == final(self).arena.last
                &&& final(self).arena.obj(final(self).arena.last) == LObj::Nil
                &&& forall|i: nat|
                    i < n ==> old(self).arena.last < #[trigger] nth_tail(
                        final(self).arena.data@,
                        x.0,
                        i,
                    ) <= final(self).arena.last
                &&& forall|j: int|
                    0 <= j < n ==> old(self).arena.last < #[trigger] list_cars(
                        final(self).arena.data@,
                        x.0,
                        n,
                    )[j] <= final(self).arena.last
            },
    {
        let ghost m0 = self.arena.data@;
        let ghost l0 = lst.0;
        let ghost last0 = self.arena.last as int;
        let ghost n = list_len(m0, l0);
        let ghost genv0 = self.genv;
        let ghost items = |j: nat| LObj::Nil;
        let mut lst = lst;
        let mut ret = self.arena.make(LObj::Nil);
        let ghost mut i: nat = 0;
        proof {
            assert(list_len_is(m0, l0, n));
            if l0 > last0 {
                assert(!m0.contains_key(l0));
                assert(nth_tail(m0, l0, 0) == l0);
                assert(list_len_is(m0, l0, 0));
                lemma_list_len_unique(m0, l0, n, 0);
            }
            assert(nth_tail(self.arena.data@, ret.0, 0) == ret.0);
            assert(list_cars(self.arena.data@, ret.0, 0) =~= Seq::<i64>::empty());
            reveal(spine);
        }
        loop
            invariant
                list_len_is(m0, l0, n),
                heap_wf(m0, last0),
                l0 <= last0 || n == 0,
                last0 + 2 * n + 2 <= i64::MAX,
                i <= n,
                lst.0 == nth_tail(m0, l0, i),
                self.arena.last == last0 + 1 + 2 * i,
                self.arena.wf(),
                self.genv == genv0,
                genv0.0 <= last0,
                m0[genv0.0] is Cons,
                m0.contains_key(genv0.0),
                agrees_upto(m0, self.arena.data@, last0),
                ret.0 <= self.arena.last,
                spine(self.arena.data@, ret.0, i, last0, items),
                items == (|j: nat| LObj::Nil),
            ensures
                i == n,
                self.arena.last == last0 + 1 + 2 * n,
                self.arena.wf(),
                self.genv == genv0,
                agrees_upto(m0, self.arena.data@, last0),
                spine(self.arena.data@, ret.0, n, last0, items),
            decreases n - i,
        {
            proof {
                if l0 <= last0 {
                    lemma_nth_tail_bounded(m0, last0, l0, i);
                    lemma_nth_tail_frame(m0, self.arena.data@, last0, l0, i);
                } else {
                    reveal(spine);
                    assert(nth_tail(m0, l0, 0) == l0);
                    assert(nth_tail(self.arena.data@, ret.0, i) == last0 + 1);
                    if self.arena.data@.contains_key(l0) {
                        assert(l0 == last0 + 1);
                    }
                    assert(!(get_obj(self.arena.data@, l0) is Cons));
                }
            }
            match self.arena.get(&lst) {
                LObj::Cons(car, cdr) => {
                    proof {
                        assert(i < n);
                    }
                    let car = self.arena.get(&car);
                    let elm = self.eval(car, env)?;
                    let ghost m1 = self.arena.data@;
                    let ghost ret1 = ret.0;
                    let elm = self.arena.make(elm);
                    ret = self.arena.make(LObj::Cons(elm, ret));
                    proof {
                        lemma_spine_step(m1, ret1, i, last0, items, self.arena.data@);
                        assert forall|key: i64|
                            #![trigger m0.contains_key(key)]
                            #![trigger self.arena.data@.contains_key(key)]
                            key <= last0 implies (m0.contains_key(key)
                                == self.arena.data@.contains_key(key) && (m0.contains_key(key)
                                ==> m0[key] == self.arena.data@[key])) by {
                            assert(m1.contains_key(key) == m0.contains_key(key));
                            assert(m1.contains_key(key) == self.arena.data@.contains_key(key));
                        }
                    }
                    lst = cdr;
                    proof {
                        i = i + 1;
                    }
                },
                _ => {
                    proof {
                        if i < n {
                            assert(get_obj(m0, nth_tail(m0, l0, i)) is Cons);
                        }
                    }
                    break ;
                },
            }
        }
        let ghost m4 = self.arena.data@;
        let ghost ret4 = ret.0;
        proof {
            reveal(spine);
            lemma_list_len(m4, ret4, n);
        }
        let r = self.arena.nreverse(ret);
        proof {
            lemma_spine_reversed(m4, ret4, n, last0, m0, items, self.arena.data@, r.0);
            lemma_spine_reversed_cells(m4, ret4, n, last0, items, self.arena.data@, r.0);
            assert(m0.contains_key(genv0.0));
        }
        Ok(r)
    }

    /// Evaluates the expressions of the list at `body` in turn and answers the
    /// value of the last one, `Nil` for an empty body.
    pub fn progn(&mut self, body: LRef, env: LRef) -> (r: Result<LObj, String>)
        requires
            is_list(old(self).arena.data@, body.0),
        ensures
            r == Ok::<LObj, String>(LObj::Nil),
            *final(self) == *old(self),
    {
        let ghost s0 = *self;
        let ghost m = self.arena.data@;
        let ghost b0 = body.0;
        let ghost n = list_len(m, b0);
        let ghost mut i: nat = 0;
        let mut body = body;
        let mut ret = LObj::Nil;
        proof {
            assert(list_len_is(m, b0, n));
        }
        loop
            invariant
                *self == s0,
                self.arena.data@ == m,
                list_len_is(m, b0, n),
                i <= n,
                body.0 == nth_tail(m, b0, i),
                ret == LObj::Nil,
            ensures
                *self == s0,
                ret == LObj::Nil,
            decreases n - i,
        {
            match self.arena.get(&body) {
                LObj::Cons(car, cdr) => {
                    proof {
                        assert(i < n);
                    }
                    let car = self.arena.get(&car);
                    ret = self.eval(car, env)?;
                    body = cdr;
                    proof {
                        i = i + 1;
                    }
                },
                _ => {
                    break ;
                },
            }
        }
        Ok(ret)
    }

    /// Applies `f` to `args` in `env`. `quote`, `if`, `define` and `lambda`
    /// are special forms; anything else is evaluated, with its arguments, and
    /// applied when it is a function.
    pub fn apply(&mut self, f: LRef, args: LRef, env: LRef) -> (r: Result<LObj, String>)
        requires
            old(self).inv(),
            env.0 <= old(self).arena.last,
            apply_ok(old(self).arena.data@, old(self).arena.last as int, f.0, args.0),
        ensures
            final(self).inv(),
            final(self).genv == old(self).genv,
            ({
                let m = old(self).arena.data@;
                let last = old(self).arena.last as int;
                match form_of(get_obj(m, f.0)) {
                    Form::Quote => r == Ok::<LObj, String>(car_obj(m, get_obj(m, args.0)))
                        && *final(self) == *old(self),
                    Form::If => r == Ok::<LObj, String>(LObj::Nil) && *final(self) == *old(self),
                    Form::Define => match get_obj(m, args.0) {
                        LObj::Cons(car, cdr) => r == Ok::<LObj, String>(get_obj(m, car.0))
                            && final(self).arena.last == last + 4 && final(self).arena.data@
                            == env_added(m, last, old(self).genv.0, get_obj(m, car.0), LObj::Expr(cdr, env)),
                        _ => r == Ok::<LObj, String>(LObj::Nil) && *final(self) == *old(self),
                    },
                    Form::Lambda => r == Ok::<LObj, String>(LObj::Expr(args, env)) && *final(self)
                        == *old(self),
                    Form::Application => r matches Err(msg) && msg@ == "not function"@
                        && final(self).arena.last == last + 2 * list_len(m, args.0) + 2
                        && agrees_upto(m, final(self).arena.data@, last),
                }
            }),
    {
        let ghost m = self.arena.data@;
        let ghost last = self.arena.last as int;
        proof {
            assert(m.contains_key(self.genv.0));
            if m.contains_key(args.0) {
                assert(refs_within(m[args.0], last));
            }
        }
        if let LObj::Sym(name) = self.arena.get(&f) {
            if str_eq(name.as_str(), "quote") {
                return Ok(self.arena.get(&args).car(&self.arena));
            } else if str_eq(name.as_str(), "if") {
                if let LObj::Cons(car, cdr) = self.arena.get(&args) {
                    let car = self.arena.get(&car);
                    let cond = self.eval(car, env.clone())?;
                    let ret = match cond != LObj::Nil {
                        true => self.arena.get(&cdr).car(&self.arena),
                        _ => self.arena.get(&cdr).cdr(&self.arena).car(&self.arena),
                    };
                    return self.eval(ret, env);
                } else {
                    return Ok(LObj::Nil);
                }
            } else if str_eq(name.as_str(), "define") {
                if let LObj::Cons(car, cdr) = self.arena.get(&args) {
                    let car = self.arena.get(&car);
                    proof {
                        let c = car_ref(m[args.0]);
                        if m.contains_key(c) {
                            assert(refs_within(m[c], last));
                        }
                    }
                    self.add_to_env(car.clone(), LObj::Expr(cdr, env));
                    return Ok(car);
                } else {
                    return Ok(LObj::Nil);
                }
            } else if str_eq(name.as_str(), "lambda") {
                return Ok(LObj::Expr(args, env));
            }
        }
        let fobj = self.arena.get(&f);
        let fval = self.eval(fobj, env.clone())?;
        let args = self.evlis(args, env.clone())?;
        return Ok(
            match fval {
                LObj::Subr(subr) => subr.call(self, &args),
                LObj::Expr(body, env) => {
                    match self.arena.get(&body) {
                        LObj::Cons(car, cdr) => {
                            let args = self.arena.pairlis(car, args);
                            let car = self.arena.make(LObj::Cons(args, env));
                            self.progn(cdr, car)?
                        },
                        _ => LObj::Nil,
                    }
                },
                _ => return Err("not function".to_owned()),
            },
        );
    }

    /// Looks `sym` up in `env`: the cell holding the value of its first
    /// binding, or `None` when `sym` is unbound.
    pub fn find_var(&self, sym: &LObj, env: LRef) -> (r: Option<LRef>)
        requires
            lookup_ends(self.arena.data@, *sym, env.0),
        ensures
            r == as_ref(lookup(self.arena.data@, *sym, env.0)),
    {
        let ghost m = self.arena.data@;
        let ghost env0 = env.0;
        let ghost f0 = choose|f: nat| #[trigger] search_env(m, *sym, env.0, f) is Some;
        let ghost res = search_env(m, *sym, env.0, f0).unwrap();
        proof {
            lemma_lookup(m, *sym, env.0, f0);
        }
        let ghost mut f: nat = f0;
        let mut cur = env;
        loop
            invariant
                self.arena.data@ == m,
                search_env(m, *sym, cur.0, f) == Some(res),
                res == lookup(m, *sym, env0),
                env0 == env.0,
            decreases f,
        {
            match self.arena.get(&cur) {
                LObj::Cons(car, cdr) => {
                    let mut alist = car;
                    let ghost mut g: nat = (f - 1) as nat;
                    loop
                        invariant
                            self.arena.data@ == m,
                            search_alist(m, *sym, alist.0, cdr.0, g) == Some(res),
                            res == lookup(m, *sym, env0),
                            env0 == env.0,
                            g < f,
                        ensures
                            search_alist(m, *sym, alist.0, cdr.0, g) == Some(res),
                            !(get_obj(m, alist.0) is Cons),
                            g < f,
                        decreases g,
                    {
                        match self.arena.get(&alist) {
                            LObj::Cons(kv, next) => {
                                if let LObj::Cons(key, val) = self.arena.get(&kv) {
                                    if self.arena.get(&key) == *sym {
                                        proof {
                                            assert(binding_matches(m, *sym, kv.0));
                                            assert(g > 0);
                                            assert(res == Some(val.0));
                                        }
                                        return Some(val);
                                    }
                                }
                                alist = next;
                                proof {
                                    g = (g - 1) as nat;
                                }
                            },
                            _ => {
                                break ;
                            },
                        }
                    }
                    proof {
                        f = (g - 1) as nat;
                    }
                    cur = cdr;
                },
                _ => {
                    proof {
                        assert(f > 0);
                        assert(res == None::<i64>);
                    }
                    return None;
                },
            }
        }
    }
}

} // verus!
