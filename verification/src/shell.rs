//! The command prompt of the database shell: what a line typed at the
//! `db > ` prompt asks for.
use vstd::prelude::*;

use crate::reader::{skip_ws, trim};
use crate::text::{is_whitespace, is_ws};

verus! {

/// The number of whitespace characters that `s` ends with.
pub open spec fn trailing_ws(s: Seq<char>) -> nat
    decreases s.len(),
{
    if s.len() > 0 && is_ws(s.last()) {
        1 + trailing_ws(s.drop_last())
    } else {
        0
    }
}

proof fn lemma_trailing_ws(s: Seq<char>, k: nat)
    requires
        k <= s.len(),
        forall|j: int| s.len() - k <= j < s.len() ==> is_ws(#[trigger] s[j]),
        k == s.len() || !is_ws(s[s.len() - k - 1]),
    ensures
        trailing_ws(s) == k,
    decreases k,
{
    if k > 0 {
        let d = s.drop_last();
        assert forall|j: int| d.len() - (k - 1) <= j < d.len() implies is_ws(#[trigger] d[j]) by {
            assert(d[j] == s[j]);
        }
        if k - 1 < d.len() {
            assert(d[d.len() - (k - 1) - 1] == s[s.len() - k - 1]);
        }
        lemma_trailing_ws(d, (k - 1) as nat);
    }
}

/// `s` without whitespace at either end, as `str::trim` gives it.
pub open spec fn trim_both(s: Seq<char>) -> Seq<char> {
    let t = trim(s);
    t.take(t.len() - trailing_ws(t))
}

/// `s` without whitespace at either end.
pub fn trim_line<'a>(s: &'a str) -> (r: &'a str)
    ensures
        r@ == trim_both(s@),
{
    let t = skip_ws(s);
    let n = t.unicode_len();
    let mut k: usize = 0;
    while k < n && is_whitespace(t.get_char(n - 1 - k))
        invariant
            n == t@.len(),
            k <= n,
            forall|j: int| n - k <= j < n ==> is_ws(#[trigger] t@[j]),
        decreases n - k,
    {
        k = k + 1;
    }
    proof {
        lemma_trailing_ws(t@, k as nat);
    }
    let r = t.substring_char(0, n - k);
    assert(r@ =~= trim_both(s@));
    r
}

/// What a line typed at the prompt asks for.
pub enum Command {
    /// Leave the shell.
    Exit,
    /// A command that the shell does not know, as it was typed, without the
    /// whitespace around it.
    Unrecognized(String),
}

/// Reads the command on `line`: `.exit`, with any whitespace around it,
/// leaves the shell; every other line is a command that is not known.
pub fn db_command(line: &str) -> (c: Command)
    ensures
        match c {
            Command::Exit => trim_both(line@) == ".exit"@,
            Command::Unrecognized(s) => trim_both(line@) != ".exit"@ && s@ == trim_both(line@),
        },
{
    let t = trim_line(line);
    if crate::text::str_eq(t, ".exit") {
        Command::Exit
    } else {
        Command::Unrecognized(t.to_owned())
    }
}

} // verus!
