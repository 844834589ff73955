use lib::arena::Arena;
use lib::object::{LObj, LRef, SubFn};

fn list(arena: &mut Arena, items: Vec<LObj>) -> LRef {
    let mut cells = Vec::new();
    for item in items {
        cells.push(arena.make(item));
    }
    let mut tail = arena.make(LObj::Nil);
    for cell in cells.into_iter().rev() {
        tail = arena.make(LObj::Cons(cell, tail));
    }
    tail
}

fn elements(arena: &Arena, r: LRef) -> Vec<LObj> {
    let mut out = Vec::new();
    let mut cur = arena.get(&r);
    while let LObj::Cons(a, d) = cur {
        out.push(arena.get(&a));
        cur = arena.get(&d);
    }
    out
}

#[test]
fn make_hands_out_fresh_references() {
    let mut arena = Arena::new();
    let a = arena.make(LObj::Num(5));
    let b = arena.make(LObj::sym("x"));
    assert_eq!(a, LRef(1));
    assert_eq!(b, LRef(2));
    assert_eq!(arena.last, 2);
    assert_eq!(arena.get(&a), LObj::Num(5));
    assert_eq!(arena.get(&b), LObj::sym("x"));
}

#[test]
fn get_of_unknown_reference_is_nil() {
    let arena = Arena::new();
    assert_eq!(arena.get(&LRef(42)), LObj::Nil);
    assert_eq!(arena.get(&LRef(0)), LObj::Nil);
}

#[test]
fn set_then_get() {
    let mut arena = Arena::new();
    let a = arena.make(LObj::Num(1));
    let b = arena.make(LObj::Num(2));
    arena.set(a, LObj::Num(10));
    assert_eq!(arena.get(&a), LObj::Num(10));
    assert_eq!(arena.get(&b), LObj::Num(2));
    assert_eq!(arena.last, 2);
}

#[test]
fn car_and_cdr_of_cons_and_atoms() {
    let mut arena = Arena::new();
    let a = arena.make(LObj::Num(1));
    let b = arena.make(LObj::Num(2));
    let c = LObj::Cons(a, b);
    assert_eq!(c.car(&arena), LObj::Num(1));
    assert_eq!(c.cdr(&arena), LObj::Num(2));
    assert_eq!(LObj::Num(3).car(&arena), LObj::Nil);
    assert_eq!(LObj::Nil.cdr(&arena), LObj::Nil);
}

#[test]
fn sym_and_t() {
    assert_eq!(LObj::sym("abc"), LObj::Sym("abc".to_string()));
    assert_eq!(LObj::t(), LObj::Sym("t".to_string()));
}

#[test]
fn equality_of_objects() {
    assert_eq!(LObj::Num(3), LObj::Num(3));
    assert_ne!(LObj::Num(3), LObj::Num(4));
    assert_ne!(LObj::Nil, LObj::Num(0));
    assert_eq!(LObj::Cons(LRef(1), LRef(2)), LObj::Cons(LRef(1), LRef(2)));
    assert_ne!(LObj::Cons(LRef(1), LRef(2)), LObj::Expr(LRef(1), LRef(2)));
    assert_eq!(LObj::Subr(SubFn::Car), LObj::Subr(SubFn::Car));
    assert_ne!(LObj::Subr(SubFn::Car), LObj::Subr(SubFn::Cdr));
}

#[test]
fn nreverse_reverses_in_place() {
    let mut arena = Arena::new();
    let l = list(&mut arena, vec![LObj::Num(1), LObj::Num(2), LObj::Num(3)]);
    let last_before = arena.last;
    let r = arena.nreverse(l);
    assert_eq!(arena.last, last_before + 1);
    assert_eq!(elements(&arena, r), vec![LObj::Num(3), LObj::Num(2), LObj::Num(1)]);
}

#[test]
fn nreverse_of_empty_list_is_fresh_nil() {
    let mut arena = Arena::new();
    let l = arena.make(LObj::Nil);
    let r = arena.nreverse(l);
    assert_eq!(r, LRef(2));
    assert_eq!(arena.get(&r), LObj::Nil);
}

#[test]
fn nreverse_twice_restores_order() {
    let mut arena = Arena::new();
    let l = list(&mut arena, vec![LObj::Num(1), LObj::sym("a"), LObj::Num(3)]);
    let r = arena.nreverse(l);
    let r2 = arena.nreverse(r);
    assert_eq!(elements(&arena, r2), vec![LObj::Num(1), LObj::sym("a"), LObj::Num(3)]);
}

#[test]
fn pairlis_pairs_up_to_the_shorter_list() {
    let mut arena = Arena::new();
    let keys = list(&mut arena, vec![LObj::sym("a"), LObj::sym("b"), LObj::sym("c")]);
    let vals = list(&mut arena, vec![LObj::Num(1), LObj::Num(2)]);
    let last_before = arena.last;
    let r = arena.pairlis(keys, vals);
    assert_eq!(arena.last, last_before + 2 * 2 + 2);
    let pairs = elements(&arena, r);
    assert_eq!(pairs.len(), 2);
    assert_eq!(pairs[0].car(&arena), LObj::sym("a"));
    assert_eq!(pairs[0].cdr(&arena), LObj::Num(1));
    assert_eq!(pairs[1].car(&arena), LObj::sym("b"));
    assert_eq!(pairs[1].cdr(&arena), LObj::Num(2));
}

#[test]
fn to_string_of_atoms() {
    let mut arena = Arena::new();
    let n = arena.make(LObj::Nil);
    let s = arena.make(LObj::sym("foo"));
    let x = arena.make(LObj::Num(-42));
    let f = arena.make(LObj::Subr(SubFn::Add));
    let e = arena.make(LObj::Expr(n, n));
    assert_eq!(arena.to_string(&n), "nil");
    assert_eq!(arena.to_string(&s), "foo");
    assert_eq!(arena.to_string(&x), "-42");
    assert_eq!(arena.to_string(&f), "<subr>");
    assert_eq!(arena.to_string(&e), "<expr>");
}

#[test]
fn to_string_of_lists_and_pairs() {
    let mut arena = Arena::new();
    let l = list(&mut arena, vec![LObj::Num(1), LObj::sym("b"), LObj::Num(3)]);
    assert_eq!(arena.to_string(&l), "(1 b 3)");
    assert_eq!(arena.to_list_string(&l), "1 b 3");
    let a = arena.make(LObj::Num(1));
    let b = arena.make(LObj::Num(2));
    let p = arena.make(LObj::Cons(a, b));
    assert_eq!(arena.to_string(&p), "(1 . 2)");
    let inner = list(&mut arena, vec![LObj::Num(7)]);
    let outer = list(&mut arena, vec![LObj::sym("x")]);
    let nested_items = elements(&arena, outer);
    assert_eq!(nested_items, vec![LObj::sym("x")]);
    let c = arena.make(LObj::Cons(inner, inner));
    assert_eq!(arena.to_string(&c), "((7) 7)");
}

#[test]
fn to_list_string_of_non_list() {
    let mut arena = Arena::new();
    let n = arena.make(LObj::Num(1));
    assert_eq!(arena.to_list_string(&n), "<internal error>");
}

#[test]
fn primitives_in_order() {
    let all = SubFn::all();
    assert_eq!(all.len(), 14);
    assert_eq!(all[0], (SubFn::Car, "car"));
    assert_eq!(all[7], (SubFn::Add, "+"));
    assert_eq!(all[8], (SubFn::Sub, "-"));
    assert_eq!(all[13], (SubFn::SetBang, "set!"));
}

#[test]
fn pairlis_prints_as_a_proper_list_of_fresh_pairs() {
    let mut arena = Arena::new();
    let n = arena.make(LObj::Nil);
    let c = arena.make(LObj::sym("c"));
    let x3 = arena.make(LObj::Cons(c, n));
    let b = arena.make(LObj::sym("b"));
    let x2 = arena.make(LObj::Cons(b, x3));
    let a = arena.make(LObj::sym("a"));
    let x1 = arena.make(LObj::Cons(a, x2));
    let two = arena.make(LObj::Num(2));
    let y2 = arena.make(LObj::Cons(two, n));
    let one = arena.make(LObj::Num(1));
    let y1 = arena.make(LObj::Cons(one, y2));
    let last_before = arena.last;
    let r = arena.pairlis(x1, y1);
    assert_eq!(arena.to_string(&r), "((a . 1) (b . 2))");
    let mut cur = r;
    while let LObj::Cons(pair, next) = arena.get(&cur) {
        assert!(cur.0 > last_before && cur.0 <= arena.last);
        assert!(pair.0 > last_before && pair.0 <= arena.last);
        cur = next;
    }
    assert_eq!(cur.0, arena.last);
    assert_eq!(arena.get(&cur), LObj::Nil);
}

#[test]
fn pairlis_of_an_empty_list_is_a_fresh_nil() {
    let mut arena = Arena::new();
    let keys = arena.make(LObj::Nil);
    let vals = list(&mut arena, vec![LObj::Num(1)]);
    let r = arena.pairlis(keys, vals);
    assert_eq!(r.0, arena.last);
    assert_eq!(arena.to_string(&r), "nil");
}

fn cdr_of(arena: &Arena, r: LRef) -> LRef {
    match arena.get(&r) {
        LObj::Cons(_, d) => d,
        _ => panic!("not a cons"),
    }
}

#[test]
fn nreverse_of_a_list_with_a_cycle_reverses_the_cycle() {
    let mut arena = Arena::new();
    let cars: Vec<LRef> = (1..=4).map(|k| arena.make(LObj::Num(k))).collect();
    let a = arena.make(LObj::Nil);
    let b = arena.make(LObj::Nil);
    let c = arena.make(LObj::Nil);
    let d = arena.make(LObj::Nil);
    arena.set(a, LObj::Cons(cars[0], b));
    arena.set(b, LObj::Cons(cars[1], c));
    arena.set(c, LObj::Cons(cars[2], d));
    arena.set(d, LObj::Cons(cars[3], b));
    let before = arena.last;
    let r = arena.nreverse(a);
    assert_eq!(r, a);
    assert_eq!(arena.last, before + 1);
    assert_eq!(arena.get(&LRef(arena.last)), LObj::Nil);
    assert_eq!(cdr_of(&arena, a), b);
    assert_eq!(cdr_of(&arena, b), d);
    assert_eq!(cdr_of(&arena, c), b);
    assert_eq!(cdr_of(&arena, d), c);
    assert_eq!(arena.get(&a).car(&arena), LObj::Num(1));
    assert_eq!(arena.get(&d).car(&arena), LObj::Num(4));
}

#[test]
fn nreverse_of_a_pure_cycle() {
    let mut arena = Arena::new();
    let x = arena.make(LObj::sym("x"));
    let a = arena.make(LObj::Nil);
    let b = arena.make(LObj::Nil);
    let c = arena.make(LObj::Nil);
    arena.set(a, LObj::Cons(x, b));
    arena.set(b, LObj::Cons(x, c));
    arena.set(c, LObj::Cons(x, a));
    let r = arena.nreverse(a);
    assert_eq!(r, a);
    assert_eq!(cdr_of(&arena, a), c);
    assert_eq!(cdr_of(&arena, b), a);
    assert_eq!(cdr_of(&arena, c), b);
}
