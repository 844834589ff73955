use lib::arena::Arena;
use lib::evaluator::Evaluator;
use lib::object::{LObj, LRef, SubFn};
use lib::process;

fn list(arena: &mut Arena, items: Vec<LObj>) -> LRef {
    let mut cells = Vec::new();
    for item in items {
        cells.push(arena.make(item));
    }
    let mut tail = arena.make(LObj::Nil);
    for cell in cells.into_iter().rev() {
        tail = arena.make(LObj::Cons(cell, tail));
    }
    tail
}

fn call(f: SubFn, items: Vec<LObj>) -> LObj {
    let mut ev = Evaluator::new();
    let args = list(&mut ev.arena, items);
    f.call(&mut ev, &args)
}

#[test]
fn new_evaluator_binds_every_primitive() {
    let ev = Evaluator::new();
    assert_eq!(ev.genv, LRef(2));
    assert_eq!(ev.arena.last, 58);
    for (j, (f, name)) in SubFn::all().into_iter().enumerate() {
        let r = ev.find_var(&LObj::sym(name), ev.genv).unwrap();
        assert_eq!(r, LRef(4 + 4 * j as i64));
        assert_eq!(ev.arena.get(&r), LObj::Subr(f));
    }
    assert_eq!(ev.find_var(&LObj::sym("undefined"), ev.genv), None);
}

#[test]
fn define_then_lookup() {
    let mut ev = Evaluator::new();
    ev.add_to_env(LObj::sym("x"), LObj::Num(5));
    let r = ev.find_var(&LObj::sym("x"), ev.genv).unwrap();
    assert_eq!(r, LRef(60));
    assert_eq!(ev.arena.get(&r), LObj::Num(5));
    ev.add_to_env(LObj::sym("x"), LObj::Num(6));
    let r2 = ev.find_var(&LObj::sym("x"), ev.genv).unwrap();
    assert_eq!(ev.arena.get(&r2), LObj::Num(6));
}

#[test]
fn eval_answers_nil() {
    let mut ev = Evaluator::new();
    let env = ev.genv;
    assert_eq!(ev.eval(LObj::Num(3), env), Ok(LObj::Nil));
}

#[test]
fn evlis_and_progn() {
    let mut ev = Evaluator::new();
    let l = list(&mut ev.arena, vec![LObj::Num(1), LObj::Num(2), LObj::Num(3)]);
    let env = ev.genv;
    let before = ev.arena.last;
    let r = ev.evlis(l, env).unwrap();
    assert_eq!(ev.arena.last, before + 2 * 3 + 2);
    assert_eq!(ev.arena.to_string(&r), "(nil nil nil)");
    assert_eq!(ev.progn(l, env), Ok(LObj::Nil));
}

#[test]
fn arithmetic_primitives() {
    assert_eq!(call(SubFn::Add, vec![LObj::Num(1), LObj::Num(2), LObj::Num(3)]), LObj::Num(6));
    assert_eq!(call(SubFn::Sub, vec![LObj::Num(10), LObj::Num(3), LObj::Num(2)]), LObj::Num(5));
    assert_eq!(call(SubFn::Mul, vec![LObj::Num(4), LObj::Num(-5)]), LObj::Num(-20));
    assert_eq!(call(SubFn::Div, vec![LObj::Num(-7), LObj::Num(2)]), LObj::Num(-3));
    assert_eq!(call(SubFn::Mod, vec![LObj::Num(-7), LObj::Num(2)]), LObj::Num(-1));
    assert_eq!(call(SubFn::Add, vec![LObj::Num(1)]), LObj::Num(1));
    assert_eq!(call(SubFn::Add, vec![LObj::Num(1), LObj::sym("a")]), LObj::Nil);
    assert_eq!(call(SubFn::Add, vec![LObj::sym("a"), LObj::Num(1)]), LObj::Nil);
}

#[test]
fn list_primitives() {
    let mut ev = Evaluator::new();
    let inner = list(&mut ev.arena, vec![LObj::Num(1), LObj::Num(2)]);
    let inner_obj = ev.arena.get(&inner);
    let args = list(&mut ev.arena, vec![inner_obj.clone()]);
    assert_eq!(SubFn::Car.call(&mut ev, &args), LObj::Num(1));
    let args = list(&mut ev.arena, vec![inner_obj.clone()]);
    let d = SubFn::Cdr.call(&mut ev, &args);
    assert!(matches!(d, LObj::Cons(_, _)));
    let args = list(&mut ev.arena, vec![LObj::Num(1), LObj::Num(2)]);
    let c = SubFn::Cons.call(&mut ev, &args);
    assert_eq!(c.car(&ev.arena), LObj::Num(1));
    assert_eq!(c.cdr(&ev.arena), LObj::Num(2));
}

#[test]
fn predicates() {
    assert_eq!(call(SubFn::Eq, vec![LObj::Num(1), LObj::Num(1)]), LObj::t());
    assert_eq!(call(SubFn::Eq, vec![LObj::Num(1), LObj::Num(2)]), LObj::Nil);
    assert_eq!(call(SubFn::Eq, vec![LObj::sym("a"), LObj::sym("a")]), LObj::t());
    assert_eq!(call(SubFn::Atom, vec![LObj::Num(1)]), LObj::t());
    assert_eq!(call(SubFn::Numberp, vec![LObj::Num(1)]), LObj::t());
    assert_eq!(call(SubFn::Numberp, vec![LObj::sym("a")]), LObj::Nil);
    assert_eq!(call(SubFn::Symbolp, vec![LObj::Num(1)]), LObj::t());
    assert_eq!(call(SubFn::Symbolp, vec![LObj::sym("a")]), LObj::Nil);
    assert_eq!(call(SubFn::T, vec![LObj::Nil]), LObj::t());
    assert_eq!(call(SubFn::SetBang, vec![LObj::sym("x"), LObj::Num(1)]), LObj::Nil);
}

#[test]
fn atom_of_a_list_is_nil() {
    let mut ev = Evaluator::new();
    let inner = list(&mut ev.arena, vec![LObj::Num(1)]);
    let inner_obj = ev.arena.get(&inner);
    let args = list(&mut ev.arena, vec![inner_obj]);
    assert_eq!(SubFn::Atom.call(&mut ev, &args), LObj::Nil);
}

#[test]
fn call_without_arguments_is_nil() {
    let mut ev = Evaluator::new();
    let args = ev.arena.make(LObj::Nil);
    let before = ev.arena.last;
    assert_eq!(SubFn::Add.call(&mut ev, &args), LObj::Nil);
    assert_eq!(ev.arena.last, before);
}

#[test]
fn fold_directly() {
    let mut arena = Arena::new();
    let x = arena.make(LObj::Num(100));
    let rest = list(&mut arena, vec![LObj::Num(7), LObj::Num(3)]);
    assert_eq!(SubFn::fold(&mut arena, &x, &rest, &|a: i64, b: i64| a / b), LObj::Num(4));
}

#[test]
fn fold_is_a_left_fold_of_any_function() {
    let mut arena = Arena::new();
    let x = arena.make(LObj::Num(1));
    let n = arena.make(LObj::Nil);
    let c3 = arena.make(LObj::Num(3));
    let l3 = arena.make(LObj::Cons(c3, n));
    let c2 = arena.make(LObj::Num(2));
    let l2 = arena.make(LObj::Cons(c2, l3));
    let before = arena.last;
    assert_eq!(SubFn::fold(&mut arena, &x, &l2, &|a: i64, b: i64| a * 10 + b), LObj::Num(123));
    assert_eq!(arena.last, before + 2);
}

#[test]
fn fold_stops_at_a_non_number() {
    let mut arena = Arena::new();
    let x = arena.make(LObj::Num(1));
    let rest = list(&mut arena, vec![LObj::Num(2), LObj::sym("a")]);
    assert_eq!(SubFn::fold(&mut arena, &x, &rest, &|a: i64, b: i64| a + b), LObj::Nil);
    let y = arena.make(LObj::sym("b"));
    assert_eq!(SubFn::fold(&mut arena, &y, &rest, &|a: i64, b: i64| a + b), LObj::Nil);
}

#[test]
fn process_answers_a_new_cell() {
    let mut ev = Evaluator::new();
    let before = ev.arena.last;
    let r = process("(a b)", &mut ev).unwrap();
    assert!(r.0 > before);
    assert_eq!(r.0, ev.arena.last);
    assert_eq!(ev.arena.get(&r), LObj::Nil);
}

#[test]
fn references_past_the_counter_read_as_nil() {
    let mut ev = Evaluator::new();
    let far = LRef(ev.arena.last + 100);
    assert_eq!(SubFn::Car.call(&mut ev, &far), LObj::Nil);
    let env = ev.genv;
    let r = ev.evlis(far, env).unwrap();
    assert_eq!(ev.arena.to_string(&r), "nil");
    let env = ev.genv;
    assert_eq!(ev.apply(LRef(ev.arena.last + 100), far, env), Err("not function".to_string()));
}

#[test]
fn special_forms() {
    let mut ev = Evaluator::new();
    let env = ev.genv;
    let quote = ev.arena.make(LObj::sym("quote"));
    let args = list(&mut ev.arena, vec![LObj::Num(9)]);
    assert_eq!(ev.apply(quote, args, env), Ok(LObj::Num(9)));

    let lambda = ev.arena.make(LObj::sym("lambda"));
    assert_eq!(ev.apply(lambda, args, env), Ok(LObj::Expr(args, env)));

    let iff = ev.arena.make(LObj::sym("if"));
    let args3 = list(&mut ev.arena, vec![LObj::t(), LObj::Num(1), LObj::Num(2)]);
    assert_eq!(ev.apply(iff, args3, env), Ok(LObj::Nil));

    let define = ev.arena.make(LObj::sym("define"));
    let dargs = list(&mut ev.arena, vec![LObj::sym("f"), LObj::Num(1)]);
    assert_eq!(ev.apply(define, dargs, env), Ok(LObj::sym("f")));
    let r = ev.find_var(&LObj::sym("f"), env).unwrap();
    assert!(matches!(ev.arena.get(&r), LObj::Expr(_, _)));
}

#[test]
fn application_is_not_a_function() {
    let mut ev = Evaluator::new();
    let env = ev.genv;
    let plus = ev.arena.make(LObj::sym("+"));
    let args = list(&mut ev.arena, vec![LObj::Num(1), LObj::Num(2)]);
    assert_eq!(ev.apply(plus, args, env), Err("not function".to_string()));
}

#[test]
fn process_answers_a_fresh_nil() {
    let mut ev = Evaluator::new();
    let r = process("(+ 1 2)", &mut ev).unwrap();
    assert_eq!(r.0, ev.arena.last);
    assert_eq!(ev.arena.to_string(&r), "nil");
    assert_eq!(process("", &mut ev), Err("empty input".to_string()));
    assert_eq!(process("(1", &mut ev), Err("unfinished parenthesis".to_string()));
    assert_eq!(process(")", &mut ev), Err("invalid syntax: )".to_string()));
}

#[test]
fn garbage_collection_keeps_the_environment() {
    let mut ev = Evaluator::new();
    ev.add_to_env(LObj::sym("x"), LObj::Num(5));
    let garbage = ev.arena.make(LObj::Num(99));
    let before = ev.arena.data.len();
    ev.garbage_collect();
    assert_eq!(ev.arena.get(&garbage), LObj::Nil);
    assert!(ev.arena.data.len() < before);
    let r = ev.find_var(&LObj::sym("x"), ev.genv).unwrap();
    assert_eq!(ev.arena.get(&r), LObj::Num(5));
    for (f, name) in SubFn::all() {
        let r = ev.find_var(&LObj::sym(name), ev.genv).unwrap();
        assert_eq!(ev.arena.get(&r), LObj::Subr(f));
    }
}

#[test]
fn garbage_collection_twice_changes_nothing_more() {
    let mut ev = Evaluator::new();
    process("(a b c)", &mut ev).unwrap();
    ev.garbage_collect();
    let after_first: Vec<i64> = {
        let mut k: Vec<i64> = ev.arena.data.keys().cloned().collect();
        k.sort();
        k
    };
    ev.garbage_collect();
    let mut after_second: Vec<i64> = ev.arena.data.keys().cloned().collect();
    after_second.sort();
    assert_eq!(after_first, after_second);
}

#[test]
fn mark_removes_reachable_cells() {
    let mut ev = Evaluator::new();
    let l = list(&mut ev.arena, vec![LObj::Num(1), LObj::Num(2)]);
    let mut unused: std::collections::HashSet<i64> = ev.arena.data.keys().cloned().collect();
    ev.mark(l, &mut unused);
    assert!(!unused.contains(&l.0));
    assert!(unused.contains(&ev.genv.0));
}

#[test]
fn cons_stores_its_second_argument_in_a_fresh_cell() {
    let mut ev = Evaluator::new();
    let args = list(&mut ev.arena, vec![LObj::Num(1), LObj::Num(2)]);
    let last_before = ev.arena.last;
    let c = SubFn::Cons.call(&mut ev, &args);
    assert_eq!(ev.arena.last, last_before + 1);
    match c {
        LObj::Cons(_, d) => {
            assert_eq!(d, LRef(last_before + 1));
            assert_eq!(ev.arena.get(&d), LObj::Num(2));
        }
        _ => panic!("cons gives a cons"),
    }
    let r = ev.arena.make(c);
    assert_eq!(ev.arena.to_string(&r), "(1 . 2)");
}

#[test]
fn evlis_list_ends_in_a_fresh_nil() {
    let mut ev = Evaluator::new();
    let l = list(&mut ev.arena, vec![LObj::Num(1), LObj::Num(2)]);
    let last_before = ev.arena.last;
    let env = ev.genv;
    let r = ev.evlis(l, env).unwrap();
    let mut cur = r;
    while let LObj::Cons(item, next) = ev.arena.get(&cur) {
        assert!(cur.0 > last_before && item.0 > last_before);
        cur = next;
    }
    assert_eq!(cur.0, ev.arena.last);
    assert_eq!(ev.arena.get(&cur), LObj::Nil);
}

#[test]
fn define_keeps_other_bindings() {
    let mut ev = Evaluator::new();
    ev.add_to_env(LObj::sym("x"), LObj::Num(5));
    let before = ev.find_var(&LObj::sym("car"), ev.genv);
    let x_before = ev.find_var(&LObj::sym("x"), ev.genv).unwrap();
    ev.add_to_env(LObj::sym("y"), LObj::Num(7));
    assert_eq!(ev.find_var(&LObj::sym("car"), ev.genv), before);
    assert_eq!(ev.arena.get(&before.unwrap()), LObj::Subr(SubFn::Car));
    assert_eq!(ev.find_var(&LObj::sym("x"), ev.genv), Some(x_before));
    assert_eq!(ev.arena.get(&x_before), LObj::Num(5));
    assert_eq!(ev.find_var(&LObj::sym("z"), ev.genv), None);
}
