//! The textual command surface.
//!
//! One line maps to one node operation: `GET <key>`, `GET_PROVIDER <key>`,
//! `PUT <key> <value>`, `PUT_PROVIDER <key>`. Tokens are the pieces
//! between single spaces, so a doubled space yields an empty token, which
//! is accepted as a key or value. A line whose first token is no command,
//! or that lacks a required token, asks for the usage message instead.

use vstd::prelude::*;
use crate::keyspace::bytes_eq;

verus! {

/// One parsed command line.
pub enum Command {
    Get { key: Vec<u8> },
    GetProvider { key: Vec<u8> },
    Put { key: Vec<u8>, value: Vec<u8> },
    PutProvider { key: Vec<u8> },
    /// Anything else: the caller prints the usage message.
    Usage,
}

/// Index of the first space at or after `i`, or the length.
pub open spec fn sp(s: Seq<u8>, i: int) -> int
    decreases s.len() - i,
{
    if i < 0 || i >= s.len() {
        s.len() as int
    } else if s[i] == 32 {
        i
    } else {
        sp(s, i + 1)
    }
}

/// The token starting at `i`: the bytes up to the next space.
pub open spec fn token_at(s: Seq<u8>, i: int) -> Seq<u8> {
    s.subrange(i, sp(s, i))
}

/// The first token of the line.
pub open spec fn tok0(s: Seq<u8>) -> Seq<u8> {
    token_at(s, 0)
}

/// The second token, if a first space exists.
pub open spec fn tok1(s: Seq<u8>) -> Option<Seq<u8>> {
    if sp(s, 0) == s.len() {
        Option::None
    } else {
        Option::Some(token_at(s, sp(s, 0) + 1))
    }
}

/// The third token, if a second space exists.
pub open spec fn tok2(s: Seq<u8>) -> Option<Seq<u8>> {
    if sp(s, 0) == s.len() || sp(s, sp(s, 0) + 1) == s.len() {
        Option::None
    } else {
        Option::Some(token_at(s, sp(s, sp(s, 0) + 1) + 1))
    }
}

/// The keyword `GET`.
pub open spec fn kw_get() -> Seq<u8> {
    seq![71u8, 69u8, 84u8]
}

/// The keyword `GET_PROVIDER`.
pub open spec fn kw_get_provider() -> Seq<u8> {
    seq![71u8, 69u8, 84u8, 95u8, 80u8, 82u8, 79u8, 86u8, 73u8, 68u8, 69u8, 82u8]
}

/// The keyword `PUT`.
pub open spec fn kw_put() -> Seq<u8> {
    seq![80u8, 85u8, 84u8]
}

/// The keyword `PUT_PROVIDER`.
pub open spec fn kw_put_provider() -> Seq<u8> {
    seq![80u8, 85u8, 84u8, 95u8, 80u8, 82u8, 79u8, 86u8, 73u8, 68u8, 69u8, 82u8]
}

/// What a line means.
pub open spec fn parse_model(s: Seq<u8>) -> int {
    if tok0(s) == kw_get() {
        if tok1(s) is Some {
            1
        } else {
            0
        }
    } else if tok0(s) == kw_get_provider() {
        if tok1(s) is Some {
            2
        } else {
            0
        }
    } else if tok0(s) == kw_put() {
        if tok1(s) is Some && tok2(s) is Some {
            3
        } else {
            0
        }
    } else if tok0(s) == kw_put_provider() {
        if tok1(s) is Some {
            4
        } else {
            0
        }
    } else {
        0
    }
}

/// Find the first space at or after `i`.
fn find_sp(s: &Vec<u8>, i: usize) -> (r: usize)
    requires
        i <= s@.len(),
    ensures
        r == sp(s@, i as int),
        i <= r <= s@.len(),
        r < s@.len() ==> s@[r as int] == 32,
{
    let mut j: usize = i;
    while j < s.len()
        invariant
            i <= j <= s@.len(),
            sp(s@, i as int) == sp(s@, j as int),
        decreases s@.len() - j,
    {
        if s[j] == 32 {
            return j;
        }
        j += 1;
    }
    j
}

/// Copy `s[a..b]`.
fn sub_bytes(s: &Vec<u8>, a: usize, b: usize) -> (r: Vec<u8>)
    requires
        a <= b <= s@.len(),
    ensures
        r@ == s@.subrange(a as int, b as int),
{
    let mut r: Vec<u8> = Vec::new();
    let mut i: usize = a;
    while i < b
        invariant
            a <= i <= b <= s@.len(),
            r@.len() == i - a,
            forall|j: int| 0 <= j < r@.len() ==> r@[j] == s@[a + j],
        decreases b - i,
    {
        r.push(s[i]);
        i += 1;
    }
    proof {
        assert(r@ =~= s@.subrange(a as int, b as int));
    }
    r
}

fn kw_get_exec() -> (r: Vec<u8>)
    ensures
        r@ == kw_get(),
{
    let mut r: Vec<u8> = Vec::new();
    r.push(71u8);
    r.push(69u8);
    r.push(84u8);
    proof {
        assert(r@ =~= kw_get());
    }
    r
}

fn kw_put_exec() -> (r: Vec<u8>)
    ensures
        r@ == kw_put(),
{
    let mut r: Vec<u8> = Vec::new();
    r.push(80u8);
    r.push(85u8);
    r.push(84u8);
    proof {
        assert(r@ =~= kw_put());
    }
    r
}

fn kw_suffix_exec(mut r: Vec<u8>) -> (o: Vec<u8>)
    ensures
        o@ == r@ + seq![95u8, 80u8, 82u8, 79u8, 86u8, 73u8, 68u8, 69u8, 82u8],
{
    let ghost r0 = r@;
    r.push(95u8);
    r.push(80u8);
    r.push(82u8);
    r.push(79u8);
    r.push(86u8);
    r.push(73u8);
    r.push(68u8);
    r.push(69u8);
    r.push(82u8);
    proof {
        assert(r@ =~= r0 + seq![95u8, 80u8, 82u8, 79u8, 86u8, 73u8, 68u8, 69u8, 82u8]);
    }
    r
}

/// Parse one command line into the operation it names.
pub fn parse_command(line: &Vec<u8>) -> (r: Command)
    ensures
        r matches Command::Get { key } ==> (parse_model(line@) == 1 && tok1(line@)
            == Option::Some(key@)),
        r matches Command::GetProvider { key } ==> (parse_model(line@) == 2 && tok1(line@)
            == Option::Some(key@)),
        r matches Command::Put { key, value } ==> (parse_model(line@) == 3 && tok1(line@)
            == Option::Some(key@) && tok2(line@) == Option::Some(value@)),
        r matches Command::PutProvider { key } ==> (parse_model(line@) == 4 && tok1(line@)
            == Option::Some(key@)),
        (r is Usage) ==> parse_model(line@) == 0,
{
    let s0 = find_sp(line, 0);
    let first = sub_bytes(line, 0, s0);
    proof {
        assert(first@ == tok0(line@));
    }
    let g = kw_get_exec();
    let p = kw_put_exec();
    let gp = kw_suffix_exec(kw_get_exec());
    let pp = kw_suffix_exec(kw_put_exec());
    proof {
        assert(gp@ =~= kw_get_provider());
        assert(pp@ =~= kw_put_provider());
    }
    let is_get = bytes_eq(&first, &g);
    let is_put = bytes_eq(&first, &p);
    let is_gp = bytes_eq(&first, &gp);
    let is_pp = bytes_eq(&first, &pp);
    if !is_get && !is_put && !is_gp && !is_pp {
        return Command::Usage;
    }
    if s0 == line.len() {
        return Command::Usage;
    }
    let s1 = find_sp(line, s0 + 1);
    let second = sub_bytes(line, s0 + 1, s1);
    proof {
        assert(second@ == token_at(line@, s0 + 1));
        assert(tok1(line@) == Option::Some(second@));
    }
    if is_get {
        return Command::Get { key: second };
    }
    if is_gp {
        return Command::GetProvider { key: second };
    }
    if is_pp {
        return Command::PutProvider { key: second };
    }
    if s1 == line.len() {
        return Command::Usage;
    }
    let s2 = find_sp(line, s1 + 1);
    let third = sub_bytes(line, s1 + 1, s2);
    proof {
        assert(third@ == token_at(line@, s1 + 1));
        assert(tok2(line@) == Option::Some(third@));
    }
    Command::Put { key: second, value: third }
}

} // verus!
