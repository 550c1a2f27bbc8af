//! A formula as the line-oriented reader collects it: the header counts, the
//! clauses line by line, and their total length.
use crate::sat_instance::{i32_token, split_tokens, whitespace_tokens};
use vstd::prelude::*;
use vstd::utf8::encode_utf8;

verus! {

/// A formula in conjunctive normal form with the counts of its header.
pub struct Cnf {
    pub var_count: i32,
    pub clause_count: i32,
    pub clause_sum_length: i32,
    pub clauses: Vec<Vec<i32>>,
}

/// The token `0`.
pub open spec fn is_zero_token(t: Seq<char>) -> bool {
    encode_utf8(t) == seq![48u8]
}

/// The `i32` that token `t` denotes, or `0` when it denotes none.
pub open spec fn token_i32(t: Seq<char>) -> i32 {
    match i32_token(encode_utf8(t)) {
        Some(v) => v,
        None => 0,
    }
}

/// Every token of a clause line other than `0` reads as an `i32`.
pub open spec fn clause_tokens_ok(toks: Seq<Seq<char>>) -> bool {
    forall|k: int| 0 <= k < toks.len() && !is_zero_token(#[trigger] toks[k]) ==> i32_token(encode_utf8(toks[k])) is Some
}

/// The literals a clause line lists: the values of its tokens other than
/// `0`, in order.
pub open spec fn clause_values(toks: Seq<Seq<char>>) -> Seq<i32>
    decreases toks.len(),
{
    if toks.len() == 0 {
        Seq::empty()
    } else if is_zero_token(toks.last()) {
        clause_values(toks.drop_last())
    } else {
        clause_values(toks.drop_last()).push(token_i32(toks.last()))
    }
}

/// Whether token `t` is `0`.
fn token_is_zero(t: &String) -> (r: bool)
    ensures
        r == is_zero_token(t@),
{
    let b = t.as_str().as_bytes();
    let r = b.len() == 1 && b[0] == 48;
    proof {
        if r {
            assert(b@ =~= seq![48u8]);
        }
    }
    r
}

impl Cnf {
    /// The formula with no clause yet that the header line `line` announces:
    /// its third and fourth tokens are the numbers of variables and of
    /// clauses (the first two are not looked at). `None` when the line has
    /// fewer than four tokens or one of those two is no `i32`.
    pub fn from_header(line: &str) -> (r: Option<Cnf>)
        ensures
            r is Some <==> {
                let toks = whitespace_tokens(line@);
                &&& toks.len() >= 4
                &&& i32_token(encode_utf8(toks[2])) is Some
                &&& i32_token(encode_utf8(toks[3])) is Some
            },
            r matches Some(c) ==> {
                let toks = whitespace_tokens(line@);
                &&& c.var_count == token_i32(toks[2])
                &&& c.clause_count == token_i32(toks[3])
                &&& c.clause_sum_length == 0
                &&& c.clauses@.len() == 0
            },
    {
        let toks = split_tokens(line);
        proof {
            assert(toks@.len() == whitespace_tokens(line@).len());
        }
        if toks.len() < 4 {
            return None;
        }
        proof {
            assert(toks@[2]@ == whitespace_tokens(line@)[2]);
            assert(toks@[3]@ == whitespace_tokens(line@)[3]);
        }
        let v = match crate::sat_instance::parse_i32(&toks[2]) {
            Some(v) => v,
            None => {
                return None;
            },
        };
        let c = match crate::sat_instance::parse_i32(&toks[3]) {
            Some(c) => c,
            None => {
                return None;
            },
        };
        Some(Cnf { var_count: v, clause_count: c, clause_sum_length: 0, clauses: Vec::new() })
    }

    /// Adds the clause written on `line` (see [`clause_values`]) and counts
    /// its literals in `clause_sum_length`. Returns `false`, leaving the
    /// formula as it was, when a token other than `0` is no `i32` or the
    /// clause's length or the total would pass `i32::MAX`.
    pub fn add_clause_line(&mut self, line: &str) -> (r: bool)
        ensures
            r <==> clause_tokens_ok(whitespace_tokens(line@)) && clause_values(whitespace_tokens(line@)).len()
                <= i32::MAX && old(self).clause_sum_length + clause_values(whitespace_tokens(line@)).len() <= i32::MAX,
            r ==> final(self).clauses@.map_values(|c: Vec<i32>| c@) == old(self).clauses@.map_values(
                |c: Vec<i32>| c@,
            ).push(clause_values(whitespace_tokens(line@))),
            r ==> final(self).clause_sum_length == old(self).clause_sum_length + clause_values(
                whitespace_tokens(line@),
            ).len(),
            !r ==> final(self).clauses@ == old(self).clauses@ && final(self).clause_sum_length == old(
                self,
            ).clause_sum_length,
            final(self).var_count == old(self).var_count,
            final(self).clause_count == old(self).clause_count,
    {
        let toks = split_tokens(line);
        let ghost ts = whitespace_tokens(line@);
        proof {
            assert(toks@.len() == ts.len());
        }
        let mut vec: Vec<i32> = Vec::new();
        let mut i: usize = 0;
        while i < toks.len()
            invariant
                ts == whitespace_tokens(line@),
                toks@.len() == ts.len(),
                forall|k: int| 0 <= k < ts.len() ==> #[trigger] toks@[k]@ == ts[k],
                i <= toks@.len(),
                clause_tokens_ok(ts.take(i as int)),
                vec@ == clause_values(ts.take(i as int)),
            decreases toks@.len() - i,
        {
            proof {
                assert(ts.take(i + 1).drop_last() =~= ts.take(i as int));
                assert(ts.take(i + 1).last() == ts[i as int]);
            }
            if !token_is_zero(&toks[i]) {
                match crate::sat_instance::parse_i32(&toks[i]) {
                    Some(v) => {
                        vec.push(v);
                    },
                    None => {
                        proof {
                            assert(!is_zero_token(ts[i as int]));
                            assert(!clause_tokens_ok(ts));
                        }
                        return false;
                    },
                }
            }
            proof {
                assert forall|k: int| 0 <= k < i + 1 && !is_zero_token(#[trigger] ts.take(i + 1)[k]) implies i32_token(
                    encode_utf8(ts.take(i + 1)[k]),
                ) is Some by {
                    if k < i {
                        assert(ts.take(i + 1)[k] == ts.take(i as int)[k]);
                    }
                }
            }
            i += 1;
        }
        proof {
            assert(ts.take(i as int) =~= ts);
        }
        let n = vec.len();
        if n > 0x7FFF_FFFF || self.clause_sum_length > 0x7FFF_FFFF - n as i32 {
            return false;
        }
        self.clause_sum_length = self.clause_sum_length + n as i32;
        self.clauses.push(vec);
        proof {
            assert(self.clauses@.map_values(|c: Vec<i32>| c@) =~= old(self).clauses@.map_values(|c: Vec<i32>| c@).push(
                clause_values(ts),
            ));
        }
        true
    }
}

} // verus!
