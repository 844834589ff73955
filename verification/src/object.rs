//! The values that live in the arena: references, objects and primitives.
use vstd::prelude::*;

use crate::arena::{get_obj, Arena};

verus! {

/// A reference to a cell of the arena.
#[derive(Clone, Copy, PartialEq, Eq, Structural, Hash, Debug)]
pub struct LRef(pub i64);

/// The primitive functions of the language.
#[derive(Clone, Copy, PartialEq, Eq, Structural, Debug)]
pub enum SubFn {
    Car,
    Cdr,
    Cons,
    Eq,
    Atom,
    Numberp,
    Symbolp,
    Add,
    Mul,
    Sub,
    Div,
    Mod,
    T,
    SetBang,
}

/// An object stored in a cell of the arena.
#[derive(Debug)]
pub enum LObj {
    Nil,
    Sym(String),
    Num(i64),
    Subr(SubFn),
    Expr(LRef, LRef),
    Cons(LRef, LRef),
}

/// Equality of objects as `==` computes it: symbols compare by their text,
/// everything else by its fields.
pub open spec fn obj_eq(a: LObj, b: LObj) -> bool {
    match (a, b) {
        (LObj::Nil, LObj::Nil) => true,
        (LObj::Sym(x), LObj::Sym(y)) => x@ == y@,
        (LObj::Num(x), LObj::Num(y)) => x == y,
        (LObj::Subr(x), LObj::Subr(y)) => x == y,
        (LObj::Expr(a1, d1), LObj::Expr(a2, d2)) => a1 == a2 && d1 == d2,
        (LObj::Cons(a1, d1), LObj::Cons(a2, d2)) => a1 == a2 && d1 == d2,
        _ => false,
    }
}

impl PartialEq for LObj {
    fn eq(&self, other: &LObj) -> (r: bool) {
        match (self, other) {
            (LObj::Nil, LObj::Nil) => true,
            (LObj::Sym(x), LObj::Sym(y)) => *x == *y,
            (LObj::Num(x), LObj::Num(y)) => *x == *y,
            (LObj::Subr(x), LObj::Subr(y)) => *x == *y,
            (LObj::Expr(a1, d1), LObj::Expr(a2, d2)) => *a1 == *a2 && *d1 == *d2,
            (LObj::Cons(a1, d1), LObj::Cons(a2, d2)) => *a1 == *a2 && *d1 == *d2,
            _ => false,
        }
    }
}

impl vstd::std_specs::cmp::PartialEqSpecImpl for LObj {
    open spec fn obeys_eq_spec() -> bool {
        true
    }

    open spec fn eq_spec(&self, other: &LObj) -> bool {
        obj_eq(*self, *other)
    }
}

impl Clone for LObj {
    fn clone(&self) -> (r: LObj)
        ensures
            r == *self,
    {
        match self {
            LObj::Nil => LObj::Nil,
            LObj::Sym(s) => LObj::Sym(s.clone()),
            LObj::Num(n) => LObj::Num(*n),
            LObj::Subr(f) => LObj::Subr(*f),
            LObj::Expr(a, d) => LObj::Expr(*a, *d),
            LObj::Cons(a, d) => LObj::Cons(*a, *d),
        }
    }
}

/// `o` is the symbol whose name is `name`.
pub open spec fn is_sym(o: LObj, name: Seq<char>) -> bool {
    o matches LObj::Sym(x) && x@ == name
}

/// The object held in the car of `o` when `o` is a cons, else `Nil`.
pub open spec fn car_obj(m: Map<i64, LObj>, o: LObj) -> LObj {
    match o {
        LObj::Cons(a, _) => get_obj(m, a.0),
        _ => LObj::Nil,
    }
}

/// The object held in the cdr of `o` when `o` is a cons, else `Nil`.
pub open spec fn cdr_obj(m: Map<i64, LObj>, o: LObj) -> LObj {
    match o {
        LObj::Cons(_, d) => get_obj(m, d.0),
        _ => LObj::Nil,
    }
}

impl LObj {
    /// The symbol named `s`.
    pub fn sym(s: &str) -> (r: LObj)
        ensures
            is_sym(r, s@),
    {
        LObj::Sym(s.to_owned())
    }

    /// The symbol `t`, the language's true value.
    pub fn t() -> (r: LObj)
        ensures
            is_sym(r, "t"@),
    {
        LObj::sym("t")
    }

    pub fn car(&self, arena: &Arena) -> (r: LObj)
        ensures
            r == car_obj(arena.data@, *self),
    {
        match self {
            LObj::Cons(x, _) => arena.get(x),
            _ => LObj::Nil,
        }
    }

    pub fn cdr(&self, arena: &Arena) -> (r: LObj)
        ensures
            r == cdr_obj(arena.data@, *self),
    {
        match self {
            LObj::Cons(_, x) => arena.get(x),
            _ => LObj::Nil,
        }
    }
}

/// Each primitive with the name it is bound to in the global environment.
pub open spec fn primitives() -> Seq<(SubFn, &'static str)> {
    seq![
        (SubFn::Car, "car"),
        (SubFn::Cdr, "cdr"),
        (SubFn::Cons, "cons"),
        (SubFn::Eq, "eq"),
        (SubFn::Atom, "atom"),
        (SubFn::Numberp, "numberp"),
        (SubFn::Symbolp, "symbolp"),
        (SubFn::Add, "+"),
        (SubFn::Sub, "-"),
        (SubFn::Mul, "*"),
        (SubFn::Div, "/"),
        (SubFn::Mod, "mod"),
        (SubFn::T, "t"),
        (SubFn::SetBang, "set!"),
    ]
}

impl SubFn {
    /// All primitives with their names.
    pub fn all() -> (r: Vec<(SubFn, &'static str)>)
        ensures
            r@ == primitives(),
    {
        vec![
            (SubFn::Car, "car"),
            (SubFn::Cdr, "cdr"),
            (SubFn::Cons, "cons"),
            (SubFn::Eq, "eq"),
            (SubFn::Atom, "atom"),
            (SubFn::Numberp, "numberp"),
            (SubFn::Symbolp, "symbolp"),
            (SubFn::Add, "+"),
            (SubFn::Sub, "-"),
            (SubFn::Mul, "*"),
            (SubFn::Div, "/"),
            (SubFn::Mod, "mod"),
            (SubFn::T, "t"),
            (SubFn::SetBang, "set!"),
        ]
    }
}

} // verus!
