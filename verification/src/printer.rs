//! The printer: writes the object at a reference as text.
use vstd::prelude::*;

use crate::arena::{get_obj, Arena};
use crate::object::{LObj, LRef};
use crate::sexp::{denotes, lemma_den_unique, Sexp};
use crate::text::{decimal, i64_to_string};

verus! {

/// The text of a tree.
pub open spec fn show(t: Sexp) -> Seq<char>
    decreases t, 1nat,
{
    match t {
        Sexp::Nil => "nil"@,
        Sexp::Sym(s) => s,
        Sexp::Num(n) => decimal(n as int),
        Sexp::Subr(_) => "<subr>"@,
        Sexp::Expr => "<expr>"@,
        Sexp::Cons(_, _) => "("@ + show_list(t) + ")"@,
    }
}

/// The text of the elements of a list, without its parentheses; a list that
/// does not end in `Nil` shows its last cdr after a dot.
pub open spec fn show_list(t: Sexp) -> Seq<char>
    decreases t, 0nat,
{
    match t {
        Sexp::Cons(a, d) => show(*a) + match *d {
            Sexp::Nil => Seq::empty(),
            Sexp::Cons(_, _) => " "@ + show_list(*d),
            _ => " . "@ + show(*d),
        },
        _ => "<internal error>"@,
    }
}

/// The object at `k` stands for some tree.
pub open spec fn printable(m: Map<i64, LObj>, k: i64) -> bool {
    exists|t: Sexp| denotes(m, get_obj(m, k), t)
}

/// The tree that the object at `k` stands for.
pub open spec fn tree_of(m: Map<i64, LObj>, k: i64) -> Sexp {
    choose|t: Sexp| denotes(m, get_obj(m, k), t)
}

proof fn lemma_tree_of(m: Map<i64, LObj>, k: i64, t: Sexp)
    requires
        denotes(m, get_obj(m, k), t),
    ensures
        printable(m, k),
        tree_of(m, k) == t,
{
    lemma_den_unique(m, get_obj(m, k), t, tree_of(m, k), i64::MIN - 1, i64::MAX as int, i64::MIN - 1, i64::MAX as int);
}

impl Arena {
    /// The text of the object at `key`.
    pub fn to_string(&self, key: &LRef) -> (r: String)
        requires
            printable(self.data@, key.0),
        ensures
            r@ == show(tree_of(self.data@, key.0)),
        decreases tree_of(self.data@, key.0), 1nat,
    {
        let ghost t = tree_of(self.data@, key.0);
        proof {
            lemma_tree_of(self.data@, key.0, t);
        }
        match self.get(key) {
            LObj::Nil => "nil".to_owned(),
            LObj::Sym(ref symbol) => symbol.clone(),
            LObj::Num(number) => i64_to_string(number),
            LObj::Subr(_) => "<subr>".to_owned(),
            LObj::Expr(_, _) => "<expr>".to_owned(),
            LObj::Cons(_, _) => {
                let mut s = "(".to_owned();
                let inner = self.to_list_string(key);
                s.append(inner.as_str());
                s.append(")");
                s
            },
        }
    }

    /// The text of the elements of the list at `key`.
    pub fn to_list_string(&self, key: &LRef) -> (r: String)
        requires
            printable(self.data@, key.0),
        ensures
            r@ == show_list(tree_of(self.data@, key.0)),
        decreases tree_of(self.data@, key.0), 0nat,
    {
        let ghost m = self.data@;
        let ghost t = tree_of(m, key.0);
        proof {
            lemma_tree_of(m, key.0, t);
        }
        match self.get(key) {
            LObj::Cons(ref car, ref cdr) => {
                let ghost a = *t->Cons_0;
                let ghost d = *t->Cons_1;
                proof {
                    lemma_tree_of(m, car.0, a);
                    lemma_tree_of(m, cdr.0, d);
                }
                let mut s = self.to_string(car);
                match self.get(cdr) {
                    LObj::Nil => {},
                    LObj::Cons(_, _) => {
                        s.append(" ");
                        let rest = self.to_list_string(cdr);
                        s.append(rest.as_str());
                    },
                    _ => {
                        s.append(" . ");
                        let rest = self.to_string(cdr);
                        s.append(rest.as_str());
                    },
                }
                s
            },
            _ => "<internal error>".to_owned(),
        }
    }
}

} // verus!
