//! The reader: turns text into objects in the arena.
use vstd::prelude::*;

use crate::arena::{
    agrees_upto, car_ref, get_obj, is_cell_before, lemma_agrees_trans, lemma_list_len,
    lemma_relinked_keeps, lemma_relinked_walk, list_cars, list_len_is, nth_tail, relinked, rev_link,
    Arena,
};
use crate::object::{is_sym, LObj, LRef};
use crate::sexp::{
    den, lemma_den_frame, lemma_den_refs, lemma_den_list, lemma_den_widen, lemma_prepend_push, list_tree,
    prepend_trees, same_between, Sexp,
};
use crate::text::{is_whitespace, is_ws, parse_i64, parse_i64_spec};

verus! {

/// The characters that end an atom.
pub open spec fn is_delim(c: char) -> bool {
    c == '(' || c == ')' || c == '\'' || is_ws(c)
}

/// The number of whitespace characters that `s` starts with.
pub open spec fn ws_len(s: Seq<char>) -> nat
    decreases s.len(),
{
    if s.len() > 0 && is_ws(s[0]) {
        1 + ws_len(s.drop_first())
    } else {
        0
    }
}

/// The number of characters of the atom that `s` starts with.
pub open spec fn atom_len(s: Seq<char>) -> nat
    decreases s.len(),
{
    if s.len() > 0 && !is_delim(s[0]) {
        1 + atom_len(s.drop_first())
    } else {
        0
    }
}

/// `s` without its leading whitespace.
pub open spec fn trim(s: Seq<char>) -> Seq<char> {
    s.skip(ws_len(s) as int)
}

pub proof fn lemma_ws_len(s: Seq<char>, i: nat)
    requires
        i <= s.len(),
        forall|j: int| 0 <= j < i ==> is_ws(#[trigger] s[j]),
        i == s.len() || !is_ws(s[i as int]),
    ensures
        ws_len(s) == i,
    decreases i,
{
    if i > 0 {
        lemma_ws_len(s.drop_first(), (i - 1) as nat);
    }
}

pub proof fn lemma_ws_len_bound(s: Seq<char>)
    ensures
        ws_len(s) <= s.len(),
        ws_len(s) < s.len() ==> !is_ws(s[ws_len(s) as int]),
        forall|j: int| 0 <= j < ws_len(s) ==> is_ws(#[trigger] s[j]),
    decreases s.len(),
{
    if s.len() > 0 && is_ws(s[0]) {
        lemma_ws_len_bound(s.drop_first());
        assert forall|j: int| 0 <= j < ws_len(s) implies is_ws(#[trigger] s[j]) by {
            if j > 0 {
                assert(s[j] == s.drop_first()[j - 1]);
            }
        }
    }
}

pub proof fn lemma_atom_len_bound(s: Seq<char>)
    ensures
        atom_len(s) <= s.len(),
    decreases s.len(),
{
    if s.len() > 0 && !is_delim(s[0]) {
        lemma_atom_len_bound(s.drop_first());
    }
}

pub proof fn lemma_atom_len(s: Seq<char>, i: nat)
    requires
        i <= s.len(),
        forall|j: int| 0 <= j < i ==> !is_delim(#[trigger] s[j]),
        i == s.len() || is_delim(s[i as int]),
    ensures
        atom_len(s) == i,
    decreases i,
{
    if i > 0 {
        lemma_atom_len(s.drop_first(), (i - 1) as nat);
    }
}

/// The tree of an atom: a number when the text is one, else a symbol.
pub open spec fn atom_tree(a: Seq<char>) -> Sexp {
    match parse_i64_spec(a) {
        Some(n) => Sexp::Num(n),
        None => Sexp::Sym(a),
    }
}

/// The tree of `'e`: the list `(quote e)`.
pub open spec fn quote_tree(e: Sexp) -> Sexp {
    Sexp::Cons(
        Box::new(Sexp::Sym("quote"@)),
        Box::new(Sexp::Cons(Box::new(e), Box::new(Sexp::Nil))),
    )
}

/// Why reading fails.
pub enum ReadError {
    /// Nothing but whitespace is left.
    Empty,
    /// The text left, from a `)` that closes nothing.
    Invalid(Seq<char>),
    /// A list is not closed.
    Unfinished,
}

/// The message the reader answers for an error.
pub open spec fn error_msg(e: ReadError) -> Seq<char> {
    match e {
        ReadError::Empty => "empty input"@,
        ReadError::Invalid(rest) => "invalid syntax: "@ + rest,
        ReadError::Unfinished => "unfinished parenthesis"@,
    }
}

/// The text the reader is left with after an error.
pub open spec fn error_rest(e: ReadError) -> Seq<char> {
    match e {
        ReadError::Invalid(rest) => rest,
        _ => Seq::empty(),
    }
}

/// Reads one expression from the start of `s`: the tree and the text after it.
pub open spec fn read_spec(s: Seq<char>) -> Result<(Sexp, Seq<char>), ReadError>
    decreases s.len(), 0nat,
{
    let t = trim(s);
    proof {
        lemma_ws_len_bound(s);
    }
    if t.len() == 0 {
        Err(ReadError::Empty)
    } else if t[0] == ')' {
        Err(ReadError::Invalid(t))
    } else if t[0] == '(' {
        read_list_spec(t.drop_first())
    } else if t[0] == '\'' {
        match read_spec(t.drop_first()) {
            Ok((e, rest)) => Ok((quote_tree(e), rest)),
            Err(err) => Err(err),
        }
    } else {
        let k = atom_len(t);
        Ok((atom_tree(t.take(k as int)), t.skip(k as int)))
    }
}

/// Reads the elements of a list up to its closing `)`.
pub open spec fn read_list_spec(s: Seq<char>) -> Result<(Sexp, Seq<char>), ReadError>
    decreases s.len(), 1nat,
{
    let t = trim(s);
    proof {
        lemma_ws_len_bound(s);
    }
    if t.len() == 0 {
        Err(ReadError::Unfinished)
    } else if t[0] == ')' {
        Ok((Sexp::Nil, t.drop_first()))
    } else {
        match read_spec(t) {
            Ok((e, rest)) => if rest.len() < s.len() {
                match read_list_spec(rest) {
                    Ok((l, r2)) => Ok((Sexp::Cons(Box::new(e), Box::new(l)), r2)),
                    Err(err) => Err(err),
                }
            } else {
                Err(ReadError::Unfinished)
            },
            Err(err) => Err(err),
        }
    }
}

/// Where the `j`th element read by `read_list` starts handing out cells.
pub open spec fn seg_lo(l0: int, ps: Seq<i64>, j: int) -> int {
    if j == 0 {
        l0
    } else {
        ps[j - 1] as int
    }
}

/// The cells `read_list` has handed out for `n` elements, starting with the
/// counter at `l0` and now at `last`: element `j` was read into cells in
/// `(seg_lo(j), es[j] - 1]`, its object copied into the cell `es[j]`, and the
/// list so far into the cell `ps[j] = es[j] + 1`.
pub open spec fn seg_shape(l0: int, last: int, es: Seq<i64>, ps: Seq<i64>, n: int) -> bool {
    &&& es.len() == n
    &&& ps.len() == n
    &&& seg_lo(l0, ps, n) == last
    &&& forall|j: int| 0 <= j < n ==> #[trigger] ps[j] == es[j] + 1
    &&& forall|j: int| 0 <= j < n ==> seg_lo(l0, ps, j) < #[trigger] es[j]
}

/// The state of `read_list` after reading the trees `ts`: the cells are laid
/// out as `seg_shape` says, element `j` stands for `ts[j]`, the cell `ps[0]`
/// holds `Nil` and each later `ps[j]` the list before element `j`; `ret` is
/// the list with all elements read so far, newest first.
#[verifier::opaque]
pub open spec fn list_built(
    m: Map<i64, LObj>,
    last: int,
    l0: int,
    ts: Seq<Sexp>,
    es: Seq<i64>,
    ps: Seq<i64>,
    ret: LObj,
) -> bool {
    let n = ts.len() as int;
    &&& seg_shape(l0, last, es, ps, n)
    &&& forall|j: int|
        0 <= j < n ==> den(m, get_obj(m, es[j]), #[trigger] ts[j], seg_lo(l0, ps, j), es[j] - 1)
    &&& n > 0 ==> get_obj(m, ps[0]) == LObj::Nil
    &&& forall|j: int|
        1 <= j < n ==> get_obj(m, #[trigger] ps[j]) == LObj::Cons(LRef(es[j - 1]), LRef(ps[j - 1]))
    &&& ret == if n == 0 {
        LObj::Nil
    } else {
        LObj::Cons(LRef(es[n - 1]), LRef(ps[n - 1]))
    }
}

proof fn lemma_ps_mono(l0: int, es: Seq<i64>, ps: Seq<i64>, a: int, b: int)
    requires
        ps.len() == es.len(),
        forall|j: int| 0 <= j < ps.len() ==> #[trigger] ps[j] == es[j] + 1,
        forall|j: int| 0 <= j < ps.len() ==> seg_lo(l0, ps, j) < #[trigger] es[j],
        0 <= a < b < ps.len(),
    ensures
        ps[a] < es[b],
    decreases b - a,
{
    assert(seg_lo(l0, ps, b) < es[b]);
    if a < b - 1 {
        lemma_ps_mono(l0, es, ps, a, b - 1);
        assert(ps[b - 1] == es[b - 1] + 1);
    }
}

proof fn lemma_seg_bounds(l0: int, last: int, es: Seq<i64>, ps: Seq<i64>, n: int, j: int)
    requires
        seg_shape(l0, last, es, ps, n),
        0 <= j < n,
    ensures
        l0 <= seg_lo(l0, ps, j) < es[j] < ps[j] <= last,
        ps[j] == es[j] + 1,
{
    assert(ps[j] == es[j] + 1);
    assert(seg_lo(l0, ps, j) < es[j]);
    assert(seg_lo(l0, ps, 0) < es[0]);
    assert(ps[0] == es[0] + 1);
    if j > 1 {
        lemma_ps_mono(l0, es, ps, 0, j - 1);
        assert(ps[j - 1] == es[j - 1] + 1);
    }
    assert(seg_lo(l0, ps, n) == ps[n - 1]);
    if j < n - 1 {
        lemma_ps_mono(l0, es, ps, j, n - 1);
        assert(ps[n - 1] == es[n - 1] + 1);
    }
}

/// No list cell lies in the range of an element or is an element cell.
proof fn lemma_seg_disjoint(l0: int, last: int, es: Seq<i64>, ps: Seq<i64>, n: int, j: int, k: int, key: int)
    requires
        seg_shape(l0, last, es, ps, n),
        0 <= j < n,
        0 <= k < n,
        seg_lo(l0, ps, j) < key <= es[j],
    ensures
        key != ps[k],
{
    lemma_seg_bounds(l0, last, es, ps, n, j);
    lemma_seg_bounds(l0, last, es, ps, n, k);
    if k < j {
        if k < j - 1 {
            lemma_ps_mono(l0, es, ps, k, j - 1);
            assert(ps[j - 1] == es[j - 1] + 1);
        }
    } else if k > j {
        lemma_ps_mono(l0, es, ps, j, k);
    }
}

proof fn lemma_list_built_empty(m: Map<i64, LObj>, last: int)
    ensures
        list_built(m, last, last, Seq::empty(), Seq::empty(), Seq::empty(), LObj::Nil),
{
    reveal(list_built);
}

/// Reading one more element, then copying it and the list so far into two
/// fresh cells, extends the state of `read_list`.
proof fn lemma_list_built_step(
    m: Map<i64, LObj>,
    last: int,
    l0: int,
    ts: Seq<Sexp>,
    es: Seq<i64>,
    ps: Seq<i64>,
    ret: LObj,
    m1: Map<i64, LObj>,
    last1: int,
    o: LObj,
    e: Sexp,
    m2: Map<i64, LObj>,
)
    requires
        list_built(m, last, l0, ts, es, ps, ret),
        agrees_upto(m, m1, last),
        0 <= last,
        last <= last1,
        last1 + 2 <= i64::MAX,
        den(m1, o, e, last, last1),
        m2 == m1.insert((last1 + 1) as i64, o).insert((last1 + 2) as i64, ret),
    ensures
        list_built(
            m2,
            last1 + 2,
            l0,
            ts.push(e),
            es.push((last1 + 1) as i64),
            ps.push((last1 + 2) as i64),
            LObj::Cons(LRef((last1 + 1) as i64), LRef((last1 + 2) as i64)),
        ),
{
    reveal(list_built);
    let n = ts.len() as int;
    let ts2 = ts.push(e);
    let es2 = es.push((last1 + 1) as i64);
    let ps2 = ps.push((last1 + 2) as i64);
    assert forall|k: i64| k <= last implies #[trigger] get_obj(m2, k) == get_obj(m, k) by {
        assert(m.contains_key(k) == m1.contains_key(k));
    }
    assert forall|j: int| 0 <= j <= n implies seg_lo(l0, ps2, j) == seg_lo(l0, ps, j) by {}
    assert forall|j: int| 0 <= j < n + 1 implies den(
        m2,
        get_obj(m2, es2[j]),
        #[trigger] ts2[j],
        seg_lo(l0, ps2, j),
        es2[j] - 1,
    ) by {
        if j < n {
            lemma_seg_bounds(l0, last, es, ps, n, j);
            assert(ts2[j] == ts[j]);
            assert(den(m, get_obj(m, es[j]), ts[j], seg_lo(l0, ps, j), es[j] - 1));
            assert(same_between(m, m2, seg_lo(l0, ps, j), es[j] - 1));
            lemma_den_frame(m, m2, get_obj(m, es[j]), ts[j], seg_lo(l0, ps, j), es[j] - 1);
        } else {
            assert forall|k: i64| last < k <= last1 implies #[trigger] get_obj(m1, k) == get_obj(m2, k) by {}
            assert(same_between(m1, m2, last, last1));
            lemma_den_frame(m1, m2, o, e, last, last1);
        }
    }
    assert forall|j: int| 1 <= j < n + 1 implies get_obj(m2, #[trigger] ps2[j]) == LObj::Cons(
        LRef(es2[j - 1]),
        LRef(ps2[j - 1]),
    ) by {
        if j < n {
            lemma_seg_bounds(l0, last, es, ps, n, j);
        }
    }
    if n > 0 {
        lemma_seg_bounds(l0, last, es, ps, n, 0);
    }
    assert forall|j: int| 0 <= j < n + 1 implies #[trigger] ps2[j] == es2[j] + 1 by {}
    assert forall|j: int| 0 <= j < n + 1 implies seg_lo(l0, ps2, j) < #[trigger] es2[j] by {}
}

proof fn lemma_list_built_walk_step(
    m: Map<i64, LObj>,
    last: int,
    l0: int,
    ts: Seq<Sexp>,
    es: Seq<i64>,
    ps: Seq<i64>,
    ret: LObj,
    mq: Map<i64, LObj>,
    t: nat,
)
    requires
        list_built(m, last, l0, ts, es, ps, ret),
        0 <= l0,
        last + 1 <= i64::MAX,
        mq == m.insert((last + 1) as i64, ret),
        1 <= t <= ts.len(),
    ensures
        nth_tail(mq, (last + 1) as i64, t) == ps[ts.len() - t],
        get_obj(mq, ps[ts.len() - t]) == get_obj(m, ps[ts.len() - t]),
    decreases t,
{
    reveal(list_built);
    let n = ts.len() as int;
    let q = (last + 1) as i64;
    lemma_seg_bounds(l0, last, es, ps, n, n - t);
    if t == 1 {
        assert(nth_tail(mq, q, 0) == q);
        assert(get_obj(mq, q) == ret);
    } else {
        lemma_list_built_walk_step(m, last, l0, ts, es, ps, ret, mq, (t - 1) as nat);
        let j = n - t + 1;
        lemma_seg_bounds(l0, last, es, ps, n, j);
        assert(get_obj(m, ps[j]) == LObj::Cons(LRef(es[j - 1]), LRef(ps[j - 1])));
    }
}

/// The list `read_list` hands to `nreverse`: the cell `last + 1` holding the
/// elements newest first, ending at `ps[0]`.
proof fn lemma_list_built_walk(
    m: Map<i64, LObj>,
    last: int,
    l0: int,
    ts: Seq<Sexp>,
    es: Seq<i64>,
    ps: Seq<i64>,
    ret: LObj,
    mq: Map<i64, LObj>,
)
    requires
        list_built(m, last, l0, ts, es, ps, ret),
        0 <= l0,
        last + 1 <= i64::MAX,
        mq == m.insert((last + 1) as i64, ret),
    ensures
        list_len_is(mq, (last + 1) as i64, ts.len()),
        get_obj(mq, nth_tail(mq, (last + 1) as i64, ts.len())) is Nil,
        list_cars(mq, (last + 1) as i64, ts.len()) == es.reverse(),
        forall|t: nat|
            1 <= t <= ts.len() ==> #[trigger] nth_tail(mq, (last + 1) as i64, t) == ps[ts.len() - t],
        seg_shape(l0, last, es, ps, ts.len() as int),
{
    reveal(list_built);
    let n = ts.len() as int;
    let q = (last + 1) as i64;
    assert(nth_tail(mq, q, 0) == q);
    assert forall|t: nat| 1 <= t <= ts.len() implies #[trigger] nth_tail(mq, q, t) == ps[n - t] by {
        lemma_list_built_walk_step(m, last, l0, ts, es, ps, ret, mq, t);
    }
    assert forall|t: nat| t < n implies (#[trigger] get_obj(mq, nth_tail(mq, q, t))) is Cons
        && car_ref(get_obj(mq, nth_tail(mq, q, t))) == es[n - 1 - t] by {
        if t > 0 {
            lemma_list_built_walk_step(m, last, l0, ts, es, ps, ret, mq, t);
            lemma_seg_bounds(l0, last, es, ps, n, n - t);
            assert(get_obj(m, ps[n - t]) == LObj::Cons(LRef(es[n - t - 1]), LRef(ps[n - t - 1])));
        }
    }
    if n > 0 {
        lemma_list_built_walk_step(m, last, l0, ts, es, ps, ret, mq, n as nat);
    }
    assert(list_cars(mq, q, ts.len()) =~= es.reverse());
}

/// A key in the range of an element, or an element cell, is not a cell of the
/// list that `read_list` reverses.
proof fn lemma_not_list_cell(
    m: Map<i64, LObj>,
    last: int,
    l0: int,
    ts: Seq<Sexp>,
    es: Seq<i64>,
    ps: Seq<i64>,
    ret: LObj,
    mq: Map<i64, LObj>,
    j: int,
    key: i64,
)
    requires
        list_built(m, last, l0, ts, es, ps, ret),
        0 <= l0,
        last + 1 <= i64::MAX,
        mq == m.insert((last + 1) as i64, ret),
        0 <= j < ts.len(),
        seg_lo(l0, ps, j) < key <= es[j],
    ensures
        !is_cell_before(mq, (last + 1) as i64, key, ts.len()),
        key <= last,
{
    let n = ts.len() as int;
    lemma_list_built_walk(m, last, l0, ts, es, ps, ret, mq);
    lemma_seg_bounds(l0, last, es, ps, n, j);
    if is_cell_before(mq, (last + 1) as i64, key, ts.len()) {
        let q = (last + 1) as i64;
        let t = choose|t: nat| t < ts.len() && #[trigger] nth_tail(mq, q, t) == key;
        if t == 0 {
            assert(nth_tail(mq, (last + 1) as i64, 0) == (last + 1) as i64);
        } else {
            assert(nth_tail(mq, (last + 1) as i64, t) == ps[n - t]);
            lemma_seg_disjoint(l0, last, es, ps, n, j, n - t, key as int);
        }
    }
}

proof fn lemma_seg_last(l0: int, last: int, es: Seq<i64>, ps: Seq<i64>, n: int)
    requires
        seg_shape(l0, last, es, ps, n),
        0 <= n,
    ensures
        l0 <= last,
{
    if n > 0 {
        lemma_seg_bounds(l0, last, es, ps, n, n - 1);
    }
}

/// After the reversal each element cell still stands for its tree.
proof fn lemma_list_built_elem(
    m: Map<i64, LObj>,
    last: int,
    l0: int,
    ts: Seq<Sexp>,
    es: Seq<i64>,
    ps: Seq<i64>,
    ret: LObj,
    mq: Map<i64, LObj>,
    mf: Map<i64, LObj>,
    j: int,
)
    requires
        list_built(m, last, l0, ts, es, ps, ret),
        0 <= l0,
        last + 2 <= i64::MAX,
        mq == m.insert((last + 1) as i64, ret),
        relinked(mq, (last + 1) as i64, (last + 2) as i64, ts.len(), mf),
        0 <= j < ts.len(),
    ensures
        den(mf, get_obj(mf, es[j]), ts[j], l0, last + 2),
        l0 < es[j] <= last,
{
    let n = ts.len() as int;
    let q = (last + 1) as i64;
    let z = (last + 2) as i64;
    reveal(list_built);
    lemma_seg_bounds(l0, last, es, ps, n, j);
    let lo = seg_lo(l0, ps, j);
    let hi = es[j] - 1;
    assert forall|k: i64| lo < k <= hi implies #[trigger] get_obj(m, k) == get_obj(mf, k) by {
        lemma_not_list_cell(m, last, l0, ts, es, ps, ret, mq, j, k);
        lemma_relinked_keeps(mq, q, z, ts.len(), mf, k);
    }
    lemma_not_list_cell(m, last, l0, ts, es, ps, ret, mq, j, es[j]);
    lemma_relinked_keeps(mq, q, z, ts.len(), mf, es[j]);
    assert(same_between(m, mf, lo, hi));
    lemma_den_frame(m, mf, get_obj(m, es[j]), ts[j], lo, hi);
    lemma_den_widen(mf, get_obj(mf, es[j]), ts[j], lo, hi, l0, last + 2);
}

/// After the reversal the cells of the list lie in `(l0, last + 2]` and it
/// ends with `Nil`.
proof fn lemma_list_built_cells(
    m: Map<i64, LObj>,
    last: int,
    l0: int,
    ts: Seq<Sexp>,
    es: Seq<i64>,
    ps: Seq<i64>,
    ret: LObj,
    mq: Map<i64, LObj>,
    mf: Map<i64, LObj>,
    r: i64,
)
    requires
        list_built(m, last, l0, ts, es, ps, ret),
        0 <= l0,
        last + 2 <= i64::MAX,
        mq == m.insert((last + 1) as i64, ret),
        relinked(mq, (last + 1) as i64, (last + 2) as i64, ts.len(), mf),
        r == rev_link(mq, (last + 1) as i64, (last + 2) as i64, ts.len()),
    ensures
        forall|j: nat| 1 <= j <= ts.len() ==> l0 < #[trigger] nth_tail(mf, r, j) <= last + 2,
        get_obj(mf, nth_tail(mf, r, ts.len())) is Nil,
{
    let n = ts.len() as int;
    let q = (last + 1) as i64;
    let z = (last + 2) as i64;
    lemma_list_built_walk(m, last, l0, ts, es, ps, ret, mq);
    lemma_seg_last(l0, last, es, ps, n);
    assert forall|t: nat| t < n implies nth_tail(mq, q, t) != z && l0 < nth_tail(mq, q, t) <= last
        + 1 by {
        if t > 0 {
            assert(nth_tail(mq, q, t) == ps[n - t]);
            lemma_seg_bounds(l0, last, es, ps, n, n - t);
        } else {
            assert(nth_tail(mq, q, 0) == q);
        }
    }
    assert forall|j: nat| 1 <= j <= n implies l0 < #[trigger] nth_tail(mf, r, j) <= last + 2 by {
        lemma_relinked_walk(mq, q, z, ts.len(), mf, j);
        if (n - j) as nat > 0 {
            assert(rev_link(mq, q, z, (n - j) as nat) == nth_tail(mq, q, (n - j - 1) as nat));
        }
    }
    lemma_relinked_walk(mq, q, z, ts.len(), mf, ts.len());
    reveal(relinked);
}

/// Reversing the list that `read_list` built leaves every cell up to `l0`.
proof fn lemma_list_built_frame(
    m: Map<i64, LObj>,
    last: int,
    l0: int,
    ts: Seq<Sexp>,
    es: Seq<i64>,
    ps: Seq<i64>,
    ret: LObj,
    mq: Map<i64, LObj>,
    mf: Map<i64, LObj>,
)
    requires
        list_built(m, last, l0, ts, es, ps, ret),
        0 <= l0,
        last + 2 <= i64::MAX,
        mq == m.insert((last + 1) as i64, ret),
        relinked(mq, (last + 1) as i64, (last + 2) as i64, ts.len(), mf),
    ensures
        agrees_upto(mq, mf, l0),
{
    let n = ts.len() as int;
    let q = (last + 1) as i64;
    let z = (last + 2) as i64;
    lemma_list_built_walk(m, last, l0, ts, es, ps, ret, mq);
    lemma_seg_last(l0, last, es, ps, n);
    assert forall|k: i64|
        #![trigger mq.contains_key(k)]
        #![trigger mf.contains_key(k)]
        k <= l0 implies (mq.contains_key(k) == mf.contains_key(k) && (mq.contains_key(k) ==> mq[k]
        == mf[k])) by {
        if is_cell_before(mq, q, k, ts.len()) {
            let t = choose|t: nat| t < ts.len() && #[trigger] nth_tail(mq, q, t) == k;
            if t > 0 {
                assert(nth_tail(mq, q, t) == ps[n - t]);
                lemma_seg_bounds(l0, last, es, ps, n, n - t);
            } else {
                assert(nth_tail(mq, q, 0) == q);
            }
        }
        lemma_relinked_keeps(mq, q, z, ts.len(), mf, k);
    }
}

/// After the reversal, the list that `read_list` built stands for the list of
/// the trees it read.
proof fn lemma_list_built_finish(
    m: Map<i64, LObj>,
    last: int,
    l0: int,
    ts: Seq<Sexp>,
    es: Seq<i64>,
    ps: Seq<i64>,
    ret: LObj,
    mq: Map<i64, LObj>,
    mf: Map<i64, LObj>,
    r: i64,
)
    requires
        list_built(m, last, l0, ts, es, ps, ret),
        0 <= l0,
        last + 2 <= i64::MAX,
        mq == m.insert((last + 1) as i64, ret),
        relinked(mq, (last + 1) as i64, (last + 2) as i64, ts.len(), mf),
        r == rev_link(mq, (last + 1) as i64, (last + 2) as i64, ts.len()),
        list_len_is(mf, r, ts.len()),
        list_cars(mf, r, ts.len()) == list_cars(mq, (last + 1) as i64, ts.len()).reverse(),
    ensures
        den(mf, get_obj(mf, r), list_tree(ts), l0, last + 2),
{
    let n = ts.len() as int;
    lemma_list_built_walk(m, last, l0, ts, es, ps, ret, mq);
    assert(list_cars(mf, r, ts.len()) =~= es);
    lemma_list_built_cells(m, last, l0, ts, es, ps, ret, mq, mf, r);
    assert forall|j: int| 0 <= j < n implies l0 < #[trigger] list_cars(mf, r, ts.len())[j] <= last + 2
        && den(mf, get_obj(mf, list_cars(mf, r, ts.len())[j]), ts[j], l0, last + 2) by {
        lemma_list_built_elem(m, last, l0, ts, es, ps, ret, mq, mf, j);
    }
    assert forall|j: int| 0 <= j < n implies den(
        mf,
        get_obj(mf, list_cars(mf, r, ts.len())[j]),
        #[trigger] ts[j],
        l0,
        last + 2,
    ) by {
        assert(l0 < list_cars(mf, r, ts.len())[j] <= last + 2);
    }
    lemma_den_list(mf, r, ts, l0, last + 2);
}

/// The trees `ts` read so far put in front of what reading the rest of a list
/// gives.
pub open spec fn lift_list(ts: Seq<Sexp>, res: Result<(Sexp, Seq<char>), ReadError>) -> Result<
    (Sexp, Seq<char>),
    ReadError,
> {
    match res {
        Ok((l, rest)) => Ok((prepend_trees(ts, l), rest)),
        Err(e) => Err(e),
    }
}

/// `r` is what the reader answers for the outcome `res` of the grammar, with
/// the objects it built in `m` in `(lo, hi]`, and `next` is the text left.
pub open spec fn read_outcome(
    res: Result<(Sexp, Seq<char>), ReadError>,
    r: Result<LObj, String>,
    m: Map<i64, LObj>,
    lo: int,
    hi: int,
    next: Seq<char>,
) -> bool {
    match res {
        Ok((t, rest)) => r matches Ok(o) && den(m, o, t, lo, hi) && next == rest,
        Err(e) => r matches Err(msg) && msg@ == error_msg(e) && next == error_rest(e),
    }
}

/// `s` without its leading whitespace, as `str::trim_start` gives it.
pub(crate) fn skip_ws<'b>(s: &'b str) -> (r: &'b str)
    ensures
        r@ == trim(s@),
{
    let n = s.unicode_len();
    let mut i: usize = 0;
    while i < n && is_whitespace(s.get_char(i))
        invariant
            n == s@.len(),
            i <= n,
            forall|j: int| 0 <= j < i ==> is_ws(#[trigger] s@[j]),
        decreases n - i,
    {
        i = i + 1;
    }
    proof {
        lemma_ws_len(s@, i as nat);
    }
    s.substring_char(i, n)
}

/// `s` starts with `c`.
fn starts_with(s: &str, c: char) -> (r: bool)
    ensures
        r == (s@.len() > 0 && s@[0] == c),
{
    s.unicode_len() > 0 && s.get_char(0) == c
}

/// `s` without its first character.
fn rest_of<'b>(s: &'b str) -> (r: &'b str)
    requires
        s@.len() > 0,
    ensures
        r@ == s@.drop_first(),
{
    let n = s.unicode_len();
    let r = s.substring_char(1, n);
    assert(r@ =~= s@.drop_first());
    r
}

/// Reads text.
pub struct Reader<'a> {
    pub next: &'a str,
}

impl<'a> Reader<'a> {
    /// The number in `s` when `s` is one, else the symbol named `s`.
    pub fn make_num_or_sym(s: &str) -> (r: LObj)
        ensures
            match parse_i64_spec(s@) {
                Some(n) => r == LObj::Num(n),
                None => is_sym(r, s@),
            },
    {
        match parse_i64(s) {
            Some(n) => LObj::Num(n),
            _ => LObj::sym(s),
        }
    }

    /// Reads one expression: an atom, a quoted expression or a list.
    pub fn read(&mut self, arena: &mut Arena) -> (r: Result<LObj, String>)
        requires
            old(arena).wf(),
            old(arena).last + 4 * old(self).next@.len() <= i64::MAX,
        ensures
            read_outcome(
                read_spec(old(self).next@),
                r,
                final(arena).data@,
                old(arena).last as int,
                final(arena).last as int,
                final(self).next@,
            ),
            final(arena).wf(),
            agrees_upto(old(arena).data@, final(arena).data@, old(arena).last as int),
            old(arena).last <= final(arena).last,
            final(arena).last + 4 * final(self).next@.len() <= old(arena).last + 4 * old(
                self,
            ).next@.len(),
            r is Ok ==> final(arena).last + 4 * final(self).next@.len() + 2 <= old(arena).last + 4
                * old(self).next@.len(),
        decreases old(self).next@.len(), 0nat,
    {
        let ghost s0 = self.next@;
        let ghost m0 = arena.data@;
        let ghost l0 = arena.last as int;
        proof {
            lemma_ws_len_bound(s0);
            assert(agrees_upto(m0, m0, l0));
        }
        self.next = skip_ws(self.next);
        proof {
            assert(self.next@.len() <= s0.len());
        }
        if self.next.unicode_len() == 0 {
            proof {
                assert(self.next@ =~= Seq::<char>::empty());
            }
            return Err("empty input".to_owned());
        } else if starts_with(self.next, ')') {
            let mut msg = "invalid syntax: ".to_owned();
            msg.append(self.next);
            return Err(msg);
        } else if starts_with(self.next, '(') {
            self.next = rest_of(self.next);
            return self.read_list(arena);
        } else if starts_with(self.next, '\'') {
            self.next = rest_of(self.next);
            let ghost t1 = self.next@;
            match self.read(arena) {
                Ok(cdar) => {
                    let ghost m1 = arena.data@;
                    let ghost l1 = arena.last as int;
                    let ghost e = read_spec(t1)->Ok_0.0;
                    proof {
                        lemma_den_refs(m1, cdar, e, l0, l1);
                    }
                    let cdr = LObj::Cons(arena.make(cdar), arena.make(LObj::Nil));
                    let quote = arena.make(LObj::sym("quote"));
                    let rest = arena.make(cdr);
                    proof {
                        let mf = arena.data@;
                        assert forall|k: i64| l0 < k <= l1 implies #[trigger] get_obj(m1, k) == get_obj(
                            mf,
                            k,
                        ) by {}
                        assert(same_between(m1, mf, l0, l1));
                        lemma_den_frame(m1, mf, cdar, e, l0, l1);
                        lemma_den_widen(mf, cdar, e, l0, l1, l0, l1 + 4);
                        assert(get_obj(mf, (l1 + 1) as i64) == cdar);
                        assert(den(mf, get_obj(mf, (l1 + 2) as i64), Sexp::Nil, l0, l1 + 4));
                        assert(den(
                            mf,
                            get_obj(mf, (l1 + 4) as i64),
                            Sexp::Cons(Box::new(e), Box::new(Sexp::Nil)),
                            l0,
                            l1 + 4,
                        ));
                        assert(den(mf, get_obj(mf, (l1 + 3) as i64), Sexp::Sym("quote"@), l0, l1 + 4));
                        lemma_agrees_trans(m0, m1, mf, l0, l1);
                    }
                    return Ok(LObj::Cons(quote, rest));
                },
                Err(e) => {
                    return Err(e);
                },
            }
        }
        proof {
            let t = self.next@;
            assert(!is_ws(t[0]));
            assert(!is_delim(t[0]));
            assert(atom_len(t) >= 1);
            lemma_atom_len_bound(t);
        }
        Ok(self.read_atom())
    }

    /// Reads the elements of a list up to its closing parenthesis, and builds
    /// the list in the arena.
    #[verifier::spinoff_prover]
    #[verifier::rlimit(90)]
    pub fn read_list(&mut self, arena: &mut Arena) -> (r: Result<LObj, String>)
        requires
            old(arena).wf(),
            old(arena).last + 4 * old(self).next@.len() <= i64::MAX,
        ensures
            read_outcome(
                read_list_spec(old(self).next@),
                r,
                final(arena).data@,
                old(arena).last as int,
                final(arena).last as int,
                final(self).next@,
            ),
            final(arena).wf(),
            agrees_upto(old(arena).data@, final(arena).data@, old(arena).last as int),
            old(arena).last <= final(arena).last,
            final(arena).last + 4 * final(self).next@.len() <= old(arena).last + 4 * old(
                self,
            ).next@.len(),
            r is Ok ==> final(arena).last + 4 * final(self).next@.len() + 2 <= old(arena).last + 4
                * old(self).next@.len(),
        decreases old(self).next@.len(), 1nat,
    {
        let ghost s0 = self.next@;
        let ghost m0 = arena.data@;
        let ghost l0 = arena.last as int;
        let ghost mut ts: Seq<Sexp> = Seq::empty();
        let ghost mut es: Seq<i64> = Seq::empty();
        let ghost mut ps: Seq<i64> = Seq::empty();
        let mut ret = LObj::Nil;
        proof {
            lemma_list_built_empty(arena.data@, l0);
            assert(agrees_upto(m0, m0, l0));
            assert(prepend_trees(ts, Sexp::Nil) == Sexp::Nil);
            assert forall|l: Sexp| prepend_trees(ts, l) == l by {}
        }
        loop
            invariant
                m0 == old(arena).data@,
                l0 == old(arena).last,
                s0 == old(self).next@,
                arena.wf(),
                0 <= l0,
                l0 <= arena.last,
                agrees_upto(m0, arena.data@, l0),
                list_built(arena.data@, arena.last as int, l0, ts, es, ps, ret),
                read_list_spec(s0) == lift_list(ts, read_list_spec(self.next@)),
                arena.last + 4 * self.next@.len() <= l0 + 4 * s0.len(),
                l0 + 4 * s0.len() <= i64::MAX,
                self.next@.len() <= s0.len(),
            decreases self.next@.len(),
        {
            let ghost cur = self.next@;
            proof {
                lemma_ws_len_bound(cur);
            }
            self.next = skip_ws(self.next);
            proof {
                assert(self.next@.len() <= s0.len());
            }
            if self.next.unicode_len() == 0 {
                proof {
                    assert(self.next@ =~= Seq::<char>::empty());
                    assert(read_list_spec(cur) == Err::<(Sexp, Seq<char>), ReadError>(
                        ReadError::Unfinished,
                    ));
                }
                return Err("unfinished parenthesis".to_owned());
            } else if starts_with(self.next, ')') {
                self.next = rest_of(self.next);
                let ghost m = arena.data@;
                let ghost last = arena.last as int;
                let q = arena.make(ret);
                proof {
                    lemma_list_built_walk(m, last, l0, ts, es, ps, ret, arena.data@);
                    lemma_list_len(arena.data@, q.0, ts.len());
                    reveal(list_built);
                    lemma_seg_last(l0, last, es, ps, ts.len() as int);
                    if ts.len() > 0 {
                        lemma_seg_bounds(l0, last, es, ps, ts.len() as int, ts.len() - 1);
                    }
                }
                let ghost mq = arena.data@;
                let r = arena.nreverse(q);
                proof {
                    lemma_list_built_finish(m, last, l0, ts, es, ps, ret, mq, arena.data@, r.0);
                    lemma_agrees_trans(m0, m, mq, l0, last);
                    lemma_list_built_frame(m, last, l0, ts, es, ps, ret, mq, arena.data@);
                    lemma_agrees_trans(m0, mq, arena.data@, l0, l0);
                }
                return Ok(arena.get(&r));
            }
            let ghost t = self.next@;
            let ghost m = arena.data@;
            let ghost last = arena.last as int;
            match self.read(arena) {
                Ok(car) => {
                    let ghost e = read_spec(t)->Ok_0.0;
                    let ghost m1 = arena.data@;
                    let ghost last1 = arena.last as int;
                    proof {
                        lemma_den_refs(m1, car, e, last, last1);
                        reveal(list_built);
                    }
                    let ghost ret0 = ret;
                    let elem = arena.make(car);
                    let prev = arena.make(ret);
                    ret = LObj::Cons(elem, prev);
                    proof {
                        lemma_list_built_step(m, last, l0, ts, es, ps, ret0, m1, last1, car, e, arena.data@);
                        lemma_prepend_push(ts, e, read_list_spec(self.next@)->Ok_0.0);
                        lemma_agrees_trans(m0, m, arena.data@, l0, last);
                        ts = ts.push(e);
                        es = es.push(elem.0);
                        ps = ps.push(prev.0);
                    }
                },
                Err(e) => {
                    proof {
                        assert(read_list_spec(cur) == read_spec(t));
                    }
                    return Err(e);
                },
            }
        }
    }

    /// Reads the atom at the start of the text, up to a parenthesis, a quote
    /// or whitespace.
    pub fn read_atom(&mut self) -> (r: LObj)
        ensures
            den(
                Map::empty(),
                r,
                atom_tree(old(self).next@.take(atom_len(old(self).next@) as int)),
                0,
                0,
            ),
            final(self).next@ == old(self).next@.skip(atom_len(old(self).next@) as int),
    {
        let n = self.next.unicode_len();
        let mut i: usize = 0;
        while i < n
            invariant
                n == self.next@.len(),
                i <= n,
                forall|j: int| 0 <= j < i ==> !is_delim(#[trigger] self.next@[j]),
            ensures
                n == self.next@.len(),
                i <= n,
                forall|j: int| 0 <= j < i ==> !is_delim(#[trigger] self.next@[j]),
                i == n || is_delim(self.next@[i as int]),
            decreases n - i,
        {
            let c = self.next.get_char(i);
            if c == '(' || c == ')' || c == '\'' || is_whitespace(c) {
                break ;
            }
            i = i + 1;
        }
        proof {
            lemma_atom_len(self.next@, i as nat);
        }
        let atom = self.next.substring_char(0, i);
        let next = self.next.substring_char(i, n);
        proof {
            assert(atom@ =~= self.next@.take(i as int));
            assert(next@ =~= self.next@.skip(i as int));
        }
        self.next = next;
        Self::make_num_or_sym(atom)
    }
}

} // verus!
