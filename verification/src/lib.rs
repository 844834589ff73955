//! A small Lisp system: an arena of cells addressed by references, a reader
//! that turns text into cells, a printer, an evaluator and a mark-and-sweep
//! garbage collector over the arena.
use vstd::prelude::*;

pub mod arena;
pub mod builtin;
pub mod evaluator;
pub mod gc;
pub mod laws;
pub mod object;
pub mod printer;
pub mod reader;
pub mod sexp;
pub mod shell;
pub mod text;

use crate::arena::agrees_upto;
use crate::evaluator::Evaluator;
use crate::object::{LObj, LRef};
use crate::reader::{error_msg, read_spec, Reader};

verus! {

/// Reads one expression from `line`, evaluates it in the global environment
/// and stores the value in a fresh cell, whose reference is the answer.
pub fn process(line: &str, evaluator: &mut Evaluator) -> (r: Result<LRef, String>)
    requires
        old(evaluator).inv(),
        old(evaluator).arena.last + 4 * line@.len() + 1 <= i64::MAX,
    ensures
        final(evaluator).inv(),
        final(evaluator).genv == old(evaluator).genv,
        agrees_upto(
            old(evaluator).arena.data@,
            final(evaluator).arena.data@,
            old(evaluator).arena.last as int,
        ),
        match read_spec(line@) {
            Ok(_) => r matches Ok(x) && x.0 == final(evaluator).arena.last
                && old(evaluator).arena.last < x.0 && !old(evaluator).arena.data@.contains_key(x.0)
                && final(evaluator).arena.obj(x.0) == LObj::Nil,
            Err(e) => r matches Err(msg) && msg@ == error_msg(e),
        },
{
    let mut reader = Reader { next: line };
    let ghost m0 = evaluator.arena.data@;
    let ghost last0 = evaluator.arena.last as int;
    let obj = reader.read(&mut evaluator.arena)?;
    let env = evaluator.genv.clone();
    proof {
        assert(m0.contains_key(env.0));
    }
    let result = evaluator.eval(obj, env)?;
    let ghost m1 = evaluator.arena.data@;
    let r = evaluator.arena.make(result);
    proof {
        crate::arena::lemma_agrees_trans(m0, m1, evaluator.arena.data@, last0, last0);
        assert(m1.contains_key(env.0));
    }
    Ok(r)
}

} // verus!
