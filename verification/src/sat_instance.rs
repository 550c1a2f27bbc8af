//! Formulas as read from DIMACS input, and the token reader that feeds them.
use crate::utils::var_of;
use std::collections::HashSet;
use vstd::prelude::*;
use vstd::utf8::encode_utf8;

verus! {

/// The whitespace-separated pieces of `text`, in order (what
/// `str::split_whitespace` yields).
pub uninterp spec fn whitespace_tokens(text: Seq<char>) -> Seq<Seq<char>>;

/// Splits `text` at Unicode whitespace into owned tokens, by
/// `str::split_whitespace`. Its contract names the result
/// ([`whitespace_tokens`]) and says nothing more of it.
#[verifier::external_body]
pub(crate) fn split_tokens(text: &str) -> (r: Vec<String>)
    ensures
        r@.map_values(|t: String| t@) == whitespace_tokens(text@),
{
    text.split_whitespace().map(|t| String::from(t)).collect()
}

/// A stack of input tokens: the last entry is the next token.
pub struct Reader {
    pub buffer: Vec<String>,
}

/// The tokens of `r` in the order [`Reader::next`] hands them out.
pub open spec fn pending(r: &Reader) -> Seq<Seq<char>> {
    r.buffer@.map_values(|t: String| t@).reverse()
}

impl Reader {
    /// A reader with no tokens.
    pub fn new() -> (r: Reader)
        ensures
            r.buffer@.len() == 0,
    {
        Reader { buffer: Vec::new() }
    }

    /// Takes the next token, or `None` when the buffer is empty (the caller
    /// refills it from the input).
    pub fn next(&mut self) -> (r: Option<String>)
        ensures
            old(self).buffer@.len() == 0 ==> r is None && final(self).buffer@ == old(self).buffer@,
            old(self).buffer@.len() > 0 ==> r == Some(old(self).buffer@.last())
                && final(self).buffer@ == old(self).buffer@.drop_last(),
            pending(old(self)).len() == 0 <==> r is None,
            r matches Some(t) ==> t@ == pending(old(self))[0] && pending(final(self)) == pending(old(self)).drop_first(),
    {
        let r = self.buffer.pop();
        proof {
            if old(self).buffer@.len() > 0 {
                assert(pending(final(self)) =~= pending(old(self)).drop_first());
            }
        }
        r
    }

    /// Replaces the buffer by the whitespace-separated tokens of `text`, so
    /// that they come out in their order.
    pub fn refill(&mut self, text: &str)
        ensures
            pending(final(self)) == whitespace_tokens(text@),
    {
        let tokens = split_tokens(text);
        let mut rev: Vec<String> = Vec::new();
        let mut i: usize = tokens.len();
        while i > 0
            invariant
                i <= tokens@.len(),
                rev@.len() == tokens@.len() - i,
                forall|k: int| 0 <= k < rev@.len() ==> #[trigger] rev@[k]@ == tokens@[tokens@.len() - 1 - k]@,
            decreases i,
        {
            i -= 1;
            let t = tokens[i].clone();
            rev.push(t);
        }
        self.buffer = rev;
        proof {
            let a = self.buffer@.map_values(|t: String| t@).reverse();
            let b = tokens@.map_values(|t: String| t@);
            assert(a =~= b);
        }
    }
}

/// The byte of an ASCII decimal digit.
pub open spec fn is_digit(b: u8) -> bool {
    48 <= b <= 57
}

/// A nonempty run of ASCII decimal digits.
pub open spec fn all_digits(s: Seq<u8>) -> bool {
    s.len() >= 1 && forall|i: int| 0 <= i < s.len() ==> is_digit(#[trigger] s[i])
}

/// The number the decimal digits `s` denote.
pub open spec fn digits_value(s: Seq<u8>) -> int
    decreases s.len(),
{
    if s.len() == 0 {
        0
    } else {
        10 * digits_value(s.drop_last()) + (s.last() - 48)
    }
}

/// The number the token `s` denotes as an unsigned decimal: digits, with an
/// optional leading `+`.
pub open spec fn unsigned_value(s: Seq<u8>) -> Option<int> {
    if s.len() >= 1 && s[0] == 43 && all_digits(s.drop_first()) {
        Some(digits_value(s.drop_first()))
    } else if all_digits(s) {
        Some(digits_value(s))
    } else {
        None
    }
}

/// The number the token `s` denotes as a signed decimal: digits, with an
/// optional leading `+` or `-`.
pub open spec fn signed_value(s: Seq<u8>) -> Option<int> {
    if s.len() >= 1 && s[0] == 45 && all_digits(s.drop_first()) {
        Some(-digits_value(s.drop_first()))
    } else {
        unsigned_value(s)
    }
}

/// Digits never denote a negative number.
pub proof fn lemma_digits_value_nonneg(s: Seq<u8>)
    requires
        forall|i: int| 0 <= i < s.len() ==> is_digit(#[trigger] s[i]),
    ensures
        digits_value(s) >= 0,
    decreases s.len(),
{
    if s.len() > 0 {
        lemma_digits_value_nonneg(s.drop_last());
    }
}

/// Appending a digit can only grow the value.
pub proof fn lemma_digits_value_grows(s: Seq<u8>, t: Seq<u8>)
    requires
        s.is_prefix_of(t),
        forall|i: int| 0 <= i < t.len() ==> is_digit(#[trigger] t[i]),
    ensures
        digits_value(s) <= digits_value(t),
    decreases t.len(),
{
    if s.len() < t.len() {
        assert(s.is_prefix_of(t.drop_last()));
        lemma_digits_value_grows(s, t.drop_last());
        lemma_digits_value_nonneg(t.drop_last());
    } else {
        assert(s =~= t);
    }
}

/// The value of the digits `b[start..]`, when every byte there is a digit and
/// the value is at most `limit`.
fn digits_upto(b: &[u8], start: usize, limit: u64) -> (r: Option<u64>)
    requires
        start <= b@.len(),
    ensures
        all_digits(b@.subrange(start as int, b@.len() as int)) && digits_value(b@.subrange(start as int, b@.len() as int))
            <= limit <==> r is Some,
        r matches Some(v) ==> v == digits_value(b@.subrange(start as int, b@.len() as int)),
{
    let n = b.len();
    if start == n {
        return None;
    }
    let mut acc: u64 = 0;
    let mut i = start;
    while i < n
        invariant
            n == b@.len(),
            start < n,
            start <= i <= n,
            forall|k: int| start <= k < i ==> is_digit(#[trigger] b@[k]),
            acc == digits_value(b@.subrange(start as int, i as int)),
            acc <= limit,
        decreases n - i,
    {
        let c = b[i];
        if c < 48 || c > 57 {
            proof {
                assert(b@.subrange(start as int, n as int)[i - start] == c);
            }
            return None;
        }
        let d = (c - 48) as u64;
        proof {
            assert(b@.subrange(start as int, i + 1).drop_last() =~= b@.subrange(start as int, i as int));
        }
        if d > limit || acc > (limit - d) / 10 {
            proof {
                let full = b@.subrange(start as int, n as int);
                let pre = b@.subrange(start as int, i + 1);
                if d <= limit {
                    assert(10 * acc + d > limit) by (nonlinear_arith)
                        requires acc > (limit - d) / 10, d <= limit;
                }
                assert(digits_value(pre) == 10 * acc + d);
                if all_digits(full) {
                    assert(pre.is_prefix_of(full));
                    lemma_digits_value_grows(pre, full);
                }
            }
            return None;
        }
        acc = acc * 10 + d;
        i += 1;
    }
    proof {
        assert(b@.subrange(start as int, n as int) =~= b@.subrange(start as int, i as int));
    }
    Some(acc)
}


/// The `usize` a token denotes, as `str::parse::<usize>` reads it: `None`
/// when it is no unsigned decimal or too large.
pub open spec fn usize_token(b: Seq<u8>) -> Option<usize> {
    match unsigned_value(b) {
        Some(v) => if v <= usize::MAX {
            Some(v as usize)
        } else {
            None
        },
        None => None,
    }
}

/// The `i32` a token denotes, as `str::parse::<i32>` reads it: `None` when
/// it is no signed decimal or out of range.
pub open spec fn i32_token(b: Seq<u8>) -> Option<i32> {
    match signed_value(b) {
        Some(v) => if i32::MIN <= v <= i32::MAX {
            Some(v as i32)
        } else {
            None
        },
        None => None,
    }
}

/// Reads token `t` as an unsigned decimal.
pub fn parse_usize(t: &String) -> (r: Option<usize>)
    ensures
        r == usize_token(encode_utf8(t@)),
{
    let b = t.as_str().as_bytes();
    if b.len() >= 1 && b[0] == 43 {
        proof {
            assert(b@.subrange(1, b@.len() as int) =~= b@.drop_first());
        }
        match digits_upto(b, 1, usize::MAX as u64) {
            Some(v) => Some(v as usize),
            None => None,
        }
    } else {
        proof {
            assert(b@.subrange(0, b@.len() as int) =~= b@);
        }
        match digits_upto(b, 0, usize::MAX as u64) {
            Some(v) => Some(v as usize),
            None => None,
        }
    }
}

/// Reads token `t` as a signed decimal.
pub fn parse_i32(t: &String) -> (r: Option<i32>)
    ensures
        r == i32_token(encode_utf8(t@)),
{
    let b = t.as_str().as_bytes();
    if b.len() >= 1 && b[0] == 45 {
        proof {
            assert(b@.subrange(1, b@.len() as int) =~= b@.drop_first());
        }
        match digits_upto(b, 1, 0x8000_0000) {
            Some(v) => {
                let w = v as i64;
                Some((-w) as i32)
            },
            None => None,
        }
    } else if b.len() >= 1 && b[0] == 43 {
        proof {
            assert(b@.subrange(1, b@.len() as int) =~= b@.drop_first());
        }
        match digits_upto(b, 1, 0x7FFF_FFFF) {
            Some(v) => Some(v as i32),
            None => None,
        }
    } else {
        proof {
            assert(b@.subrange(0, b@.len() as int) =~= b@);
        }
        match digits_upto(b, 0, 0x7FFF_FFFF) {
            Some(v) => Some(v as i32),
            None => None,
        }
    }
}

/// The header `p cnf <variables> <clauses>` opens the token list.
pub open spec fn header_ok(toks: Seq<Seq<char>>) -> bool {
    &&& toks.len() >= 4
    &&& encode_utf8(toks[0]) == seq![112u8]
    &&& encode_utf8(toks[1]) == seq![99u8, 110u8, 102u8]
    &&& usize_token(encode_utf8(toks[2])) is Some
    &&& usize_token(encode_utf8(toks[3])) is Some
}

/// The number of variables the header announces.
pub open spec fn header_vars(toks: Seq<Seq<char>>) -> usize {
    match usize_token(encode_utf8(toks[2])) {
        Some(v) => v,
        None => 0,
    }
}

/// The number of clauses the header announces.
pub open spec fn header_clauses(toks: Seq<Seq<char>>) -> usize {
    match usize_token(encode_utf8(toks[3])) {
        Some(v) => v,
        None => 0,
    }
}

/// The literal token `k` of the body (token `4 + k`) denotes.
pub open spec fn body_lit(toks: Seq<Seq<char>>, k: int) -> i32 {
    match i32_token(encode_utf8(toks[4 + k])) {
        Some(v) => v,
        None => 0,
    }
}

/// The first `m` body tokens are there and each reads as an `i32` other than
/// `i32::MIN`.
pub open spec fn lits_read(toks: Seq<Seq<char>>, m: int) -> bool {
    &&& 0 <= m
    &&& 4 + m <= toks.len()
    &&& forall|k: int| 0 <= k < m ==> ((#[trigger] i32_token(encode_utf8(toks[4 + k]))) matches Some(v) && v != i32::MIN)
}

/// The values of the first `m` body tokens.
pub open spec fn lit_seq(toks: Seq<Seq<char>>, m: int) -> Seq<i32> {
    Seq::new(m as nat, |k: int| body_lit(toks, k))
}

/// The number of `0`s in `l`.
pub open spec fn zeros(l: Seq<i32>) -> nat
    decreases l.len(),
{
    if l.len() == 0 {
        0
    } else {
        zeros(l.drop_last()) + if l.last() == 0 {
            1nat
        } else {
            0nat
        }
    }
}

/// The first `m` body tokens hold exactly the `cc` clauses: they read as
/// literals, hold `cc` zeros, and end with a zero (or are none).
pub open spec fn body_ok(toks: Seq<Seq<char>>, m: int, cc: int) -> bool {
    &&& lits_read(toks, m)
    &&& zeros(lit_seq(toks, m)) == cc
    &&& (m == 0 || lit_seq(toks, m).last() == 0)
}

/// The literals after the last `0` of `l`.
pub open spec fn open_group(l: Seq<i32>) -> Seq<i32>
    decreases l.len(),
{
    if l.len() == 0 || l.last() == 0 {
        Seq::empty()
    } else {
        open_group(l.drop_last()).push(l.last())
    }
}

/// The groups of literals of `l` each closed by a `0`, in order.
pub open spec fn closed_groups(l: Seq<i32>) -> Seq<Seq<i32>>
    decreases l.len(),
{
    if l.len() == 0 {
        Seq::empty()
    } else if l.last() == 0 {
        closed_groups(l.drop_last()).push(open_group(l.drop_last()))
    } else {
        closed_groups(l.drop_last())
    }
}

/// `g` without repetitions: each literal at its first occurrence.
pub open spec fn dedup(g: Seq<i32>) -> Seq<i32>
    decreases g.len(),
{
    if g.len() == 0 {
        Seq::empty()
    } else if g.drop_last().contains(g.last()) {
        dedup(g.drop_last())
    } else {
        dedup(g.drop_last()).push(g.last())
    }
}

/// `g` holds a literal and its negation.
pub open spec fn tautology(g: Seq<i32>) -> bool {
    exists|i: int, j: int| 0 <= i < g.len() && 0 <= j < g.len() && g[i] == -g[j]
}

/// The clauses kept of the groups `gs`: tautologies dropped, repetitions
/// removed.
pub open spec fn kept(gs: Seq<Seq<i32>>) -> Seq<Seq<i32>>
    decreases gs.len(),
{
    if gs.len() == 0 {
        Seq::empty()
    } else if tautology(gs.last()) {
        kept(gs.drop_last())
    } else {
        kept(gs.drop_last()).push(dedup(gs.last()))
    }
}

/// Counting zeros over a sequence extended by one literal.
pub proof fn lemma_zeros_push(l: Seq<i32>, x: i32)
    ensures
        zeros(l.push(x)) == zeros(l) + if x == 0 { 1nat } else { 0nat },
{
    assert(l.push(x).drop_last() =~= l);
}

/// A prefix holds no more zeros than the whole.
pub proof fn lemma_zeros_prefix(l: Seq<i32>, m: int)
    requires
        0 <= m <= l.len(),
    ensures
        zeros(l.subrange(0, m)) <= zeros(l),
    decreases l.len(),
{
    if m < l.len() {
        assert(l.drop_last().subrange(0, m) =~= l.subrange(0, m));
        lemma_zeros_prefix(l.drop_last(), m);
    } else {
        assert(l.subrange(0, m) =~= l);
    }
}

/// Reading one more body token extends the literal sequence by its value.
pub proof fn lemma_lit_seq_push(toks: Seq<Seq<char>>, i: int)
    requires
        0 <= i,
    ensures
        lit_seq(toks, i + 1) == lit_seq(toks, i).push(body_lit(toks, i)),
{
    assert(lit_seq(toks, i + 1) =~= lit_seq(toks, i).push(body_lit(toks, i)));
}

/// How the groups, the kept clauses, and the open group's deduplication and
/// tautology test change when one literal is read.
pub proof fn lemma_groups_push(l: Seq<i32>, x: i32)
    ensures
        x == 0 ==> open_group(l.push(x)) == Seq::<i32>::empty(),
        x != 0 ==> open_group(l.push(x)) == open_group(l).push(x),
        x == 0 ==> closed_groups(l.push(x)) == closed_groups(l).push(open_group(l)),
        x != 0 ==> closed_groups(l.push(x)) == closed_groups(l),
{
    assert(l.push(x).drop_last() =~= l);
}

/// Deduplication of a group extended by one literal.
pub proof fn lemma_dedup_push(g: Seq<i32>, x: i32)
    ensures
        dedup(g.push(x)) == if g.contains(x) { dedup(g) } else { dedup(g).push(x) },
{
    assert(g.push(x).drop_last() =~= g);
}

/// A group extended by a nonzero literal is a tautology when it was one, or
/// when it held the literal's negation.
pub proof fn lemma_tautology_push(g: Seq<i32>, x: i32)
    requires
        x != 0,
        x != i32::MIN,
    ensures
        tautology(g.push(x)) == (tautology(g) || g.contains((-x) as i32)),
{
    let h = g.push(x);
    if tautology(h) && !tautology(g) {
        let (i, j) = choose|i: int, j: int| 0 <= i < h.len() && 0 <= j < h.len() && h[i] == -h[j];
        if i == g.len() as int && j == g.len() as int {
        } else if i == g.len() as int {
            assert(g[j] == -x);
        } else if j == g.len() as int {
            assert(g[i] == -x);
        } else {
            assert(g[i] == -g[j]);
        }
    }
    if tautology(g) {
        let (i, j) = choose|i: int, j: int| 0 <= i < g.len() && 0 <= j < g.len() && g[i] == -g[j];
        assert(h[i] == -h[j]);
    }
    if g.contains((-x) as i32) {
        let j = choose|j: int| 0 <= j < g.len() && g[j] == (-x) as i32;
        assert(h[g.len() as int] == -h[j]);
    }
}

/// The kept clauses of groups extended by one group.
pub proof fn lemma_kept_push(gs: Seq<Seq<i32>>, g: Seq<i32>)
    ensures
        kept(gs.push(g)) == if tautology(g) { kept(gs) } else { kept(gs).push(dedup(g)) },
{
    assert(gs.push(g).drop_last() =~= gs);
}

/// When the first `i` body tokens hold fewer than `cc` zeros and token `i`
/// is missing or unreadable, no body of `cc` clauses can be read.
pub proof fn lemma_no_body(toks: Seq<Seq<char>>, i: int, cc: int)
    requires
        lits_read(toks, i),
        zeros(lit_seq(toks, i)) < cc,
        !lits_read(toks, i + 1),
    ensures
        !exists|m: int| body_ok(toks, m, cc),
{
    if exists|m: int| body_ok(toks, m, cc) {
        let m = choose|m: int| body_ok(toks, m, cc);
        if m <= i {
            assert(lit_seq(toks, i).subrange(0, m) =~= lit_seq(toks, m));
            lemma_zeros_prefix(lit_seq(toks, i), m);
        } else {
            assert(lits_read(toks, i + 1));
        }
    }
}

/// Whether the token `t` is `p`.
fn token_is_p(t: &String) -> (r: bool)
    ensures
        r == (encode_utf8(t@) == seq![112u8]),
{
    let b = t.as_str().as_bytes();
    let r = b.len() == 1 && b[0] == 112;
    proof {
        if r {
            assert(b@ =~= seq![112u8]);
        }
    }
    r
}

/// Whether the token `t` is `cnf`.
fn token_is_cnf(t: &String) -> (r: bool)
    ensures
        r == (encode_utf8(t@) == seq![99u8, 110u8, 102u8]),
{
    let b = t.as_str().as_bytes();
    let r = b.len() == 3 && b[0] == 99 && b[1] == 110 && b[2] == 102;
    proof {
        if r {
            assert(b@ =~= seq![99u8, 110u8, 102u8]);
        }
    }
    r
}


/// A formula in conjunctive normal form: `clauses` lists the clauses, each
/// a list of nonzero literals over the variables `1..=var_count`.
pub struct SatInstance {
    pub var_count: usize,
    pub clause_count: usize,
    pub clauses: Vec<Vec<i32>>,
}

impl SatInstance {
    /// Reads one formula in DIMACS form from `reader`: the header
    /// `p cnf <variables> <clauses>`, then literals, each clause closed by a
    /// `0`, until the announced number of clauses is read. A clause holding a
    /// literal and its negation is dropped; repeated literals are kept once,
    /// at their first place. `clause_count` becomes the number of clauses
    /// kept.
    ///
    /// Returns `None` exactly when the header is not there or a token the
    /// formula needs is missing or is no `i32` (or is `i32::MIN`).
    pub fn read(reader: &mut Reader) -> (r: Option<SatInstance>)
        ensures
            r is Some <==> header_ok(pending(old(reader))) && exists|m: int|
                body_ok(pending(old(reader)), m, header_clauses(pending(old(reader))) as int),
            r matches Some(inst) ==> exists|m: int| {
                &&& body_ok(pending(old(reader)), m, header_clauses(pending(old(reader))) as int)
                &&& inst.clause_seqs() == kept(closed_groups(lit_seq(pending(old(reader)), m)))
                &&& inst.var_count == header_vars(pending(old(reader)))
                &&& inst.clause_count == inst.clauses@.len()
                &&& pending(final(reader)) == pending(old(reader)).skip(4 + m)
            },
    {
        broadcast use vstd::std_specs::hash::group_hash_axioms;

        let ghost toks = pending(reader);
        let t0 = match reader.next() {
            Some(t) => t,
            None => {
                return None;
            },
        };
        if !token_is_p(&t0) {
            return None;
        }
        let t1 = match reader.next() {
            Some(t) => t,
            None => {
                return None;
            },
        };
        proof {
            assert(t1@ == toks[1]);
        }
        if !token_is_cnf(&t1) {
            return None;
        }
        let t2 = match reader.next() {
            Some(t) => t,
            None => {
                return None;
            },
        };
        proof {
            assert(t2@ == toks[2]);
        }
        let var_count = match parse_usize(&t2) {
            Some(v) => v,
            None => {
                return None;
            },
        };
        let t3 = match reader.next() {
            Some(t) => t,
            None => {
                return None;
            },
        };
        proof {
            assert(t3@ == toks[3]);
        }
        let cc = match parse_usize(&t3) {
            Some(v) => v,
            None => {
                return None;
            },
        };
        proof {
            assert(toks.len() >= 4);
            assert(header_ok(toks));
            assert(pending(reader) =~= toks.skip(4));
        }
        let mut clauses: Vec<Vec<i32>> = Vec::new();
        let mut counter: usize = 0;
        let mut vec: Vec<i32> = Vec::new();
        let mut set: HashSet<i32> = HashSet::new();
        let mut omit = false;
        let ghost mut i: int = 0;
        proof {
            assert(lit_seq(toks, 0) =~= Seq::<i32>::empty());
            assert(clauses@.map_values(|c: Vec<i32>| c@) =~= Seq::<Seq<i32>>::empty());
        }
        while counter < cc
            invariant
                toks == pending(old(reader)),
                header_ok(toks),
                cc == header_clauses(toks),
                var_count == header_vars(toks),
                lits_read(toks, i),
                pending(reader) == toks.skip(4 + i),
                counter == zeros(lit_seq(toks, i)),
                counter <= cc,
                counter == cc ==> (i == 0 || lit_seq(toks, i).last() == 0),
                clauses@.map_values(|c: Vec<i32>| c@) == kept(closed_groups(lit_seq(toks, i))),
                vec@ == dedup(open_group(lit_seq(toks, i))),
                forall|x: i32| set@.contains(x) <==> open_group(lit_seq(toks, i)).contains(x),
                omit == tautology(open_group(lit_seq(toks, i))),
            decreases toks.len() - 4 - i,
        {
            let ghost l = lit_seq(toks, i);
            let t = match reader.next() {
                Some(t) => t,
                None => {
                    proof {
                        lemma_no_body(toks, i, cc as int);
                    }
                    return None;
                },
            };
            let lit = match parse_i32(&t) {
                Some(v) => v,
                None => {
                    proof {
                        assert(t@ == toks[4 + i]);
                        lemma_no_body(toks, i, cc as int);
                    }
                    return None;
                },
            };
            if lit == i32::MIN {
                proof {
                    assert(t@ == toks[4 + i]);
                    lemma_no_body(toks, i, cc as int);
                }
                return None;
            }
            proof {
                assert(t@ == toks[4 + i]);
                assert(body_lit(toks, i) == lit);
                lemma_lit_seq_push(toks, i);
                assert(lits_read(toks, i + 1));
                lemma_zeros_push(l, lit);
                lemma_groups_push(l, lit);
                assert(pending(reader) =~= toks.skip(4 + i + 1));
                i = i + 1;
            }
            if lit != 0 {
                proof {
                    lemma_tautology_push(open_group(l), lit);
                    lemma_dedup_push(open_group(l), lit);
                }
                let ghost og = open_group(l);
                if set.contains(&(-lit)) {
                    omit = true;
                }
                if set.contains(&lit) {
                    proof {
                        assert forall|x: i32| set@.contains(x) <==> og.push(lit).contains(x) by {
                            if og.push(lit).contains(x) && !og.contains(x) {
                                let k = choose|k: int| 0 <= k < og.push(lit).len() && og.push(lit)[k] == x;
                                assert(k == og.len());
                            }
                            if og.contains(x) {
                                let k = choose|k: int| 0 <= k < og.len() && og[k] == x;
                                assert(og.push(lit)[k] == x);
                            }
                        }
                    }
                    continue;
                }
                vec.push(lit);
                set.insert(lit);
                proof {
                    assert forall|x: i32| set@.contains(x) <==> og.push(lit).contains(x) by {
                        if og.push(lit).contains(x) && !og.contains(x) {
                            let k = choose|k: int| 0 <= k < og.push(lit).len() && og.push(lit)[k] == x;
                            assert(k == og.len());
                        }
                        if og.contains(x) {
                            let k = choose|k: int| 0 <= k < og.len() && og[k] == x;
                            assert(og.push(lit)[k] == x);
                        }
                        if x == lit {
                            assert(og.push(lit)[og.len() as int] == x);
                        }
                    }
                }
            } else {
                proof {
                    lemma_kept_push(closed_groups(l), open_group(l));
                }
                if !omit {
                    clauses.push(vec);
                }
                proof {
                    assert(clauses@.map_values(|c: Vec<i32>| c@) =~= kept(closed_groups(lit_seq(toks, i))));
                }
                vec = Vec::new();
                set = HashSet::new();
                counter += 1;
                omit = false;
            }
        }
        let n = clauses.len();
        let inst = SatInstance { var_count, clause_count: n, clauses };
        proof {
            assert(body_ok(toks, i, cc as int));
            assert(inst.clause_seqs() =~= kept(closed_groups(lit_seq(toks, i))));
        }
        Some(inst)
    }

    /// The clauses as sequences.
    pub open spec fn clause_seqs(&self) -> Seq<Seq<i32>> {
        self.clauses@.map_values(|c: Vec<i32>| c@)
    }

    /// What the solver needs of a formula: fewer than `i32::MAX` variables,
    /// `clause_count` clauses present, each nonempty and made of nonzero
    /// literals over the variables.
    pub open spec fn well_formed(&self) -> bool {
        &&& self.var_count < i32::MAX
        &&& self.clause_count <= self.clauses@.len()
        &&& forall|i: int| 0 <= i < self.clause_count ==> {
            let c = #[trigger] self.clauses@[i]@;
            &&& c.len() >= 1
            &&& forall|k: int| 0 <= k < c.len() ==> #[trigger] c[k] != 0 && crate::utils::var_of(c[k]) <= self.var_count
        }
    }

    /// Whether the formula is one the solver takes (see
    /// [`SatInstance::well_formed`]).
    pub fn is_well_formed(&self) -> (r: bool)
        ensures
            r == self.well_formed(),
    {
        if self.var_count >= 0x7FFF_FFFF || self.clause_count > self.clauses.len() {
            return false;
        }
        let n = self.var_count as i32;
        let mut i: usize = 0;
        while i < self.clause_count
            invariant
                self.var_count < i32::MAX,
                n == self.var_count,
                self.clause_count <= self.clauses@.len(),
                i <= self.clause_count,
                forall|a: int| 0 <= a < i ==> {
                    let c = #[trigger] self.clauses@[a]@;
                    &&& c.len() >= 1
                    &&& forall|k: int| 0 <= k < c.len() ==> #[trigger] c[k] != 0 && crate::utils::var_of(c[k]) <= self.var_count
                },
            decreases self.clause_count - i,
        {
            let c = &self.clauses[i];
            if c.len() == 0 {
                return false;
            }
            let mut k: usize = 0;
            while k < c.len()
                invariant
                    i < self.clause_count,
                    self.clause_count <= self.clauses@.len(),
                    c@ == self.clauses@[i as int]@,
                    n == self.var_count,
                    self.var_count < i32::MAX,
                    k <= c@.len(),
                    forall|j: int| 0 <= j < k ==> #[trigger] c@[j] != 0 && crate::utils::var_of(c@[j]) <= self.var_count,
                decreases c@.len() - k,
            {
                let l = c[k];
                if l == 0 || l == i32::MIN || l > n || l < -n {
                    proof {
                        assert(!(c@[k as int] != 0 && crate::utils::var_of(c@[k as int]) <= self.var_count));
                        let cc = self.clauses@[i as int]@;
                        assert(!(forall|j: int| 0 <= j < cc.len() ==> #[trigger] cc[j] != 0 && crate::utils::var_of(cc[j]) <= self.var_count));
                    }
                    return false;
                }
                k += 1;
            }
            i += 1;
        }
        true
    }

    /// Clause `i` is a unit clause.
    pub open spec fn is_unit(&self, i: int) -> bool {
        self.clauses@[i]@.len() == 1
    }

    /// One of the first `clause_count` clauses is a unit clause over variable `v`.
    pub open spec fn unit_on(&self, v: int) -> bool {
        exists|u: int| 0 <= u < self.clause_count && self.is_unit(u) && var_of(#[trigger] self.clauses@[u]@[0]) == v
    }

    /// Two unit clauses among the first `clause_count` clauses are opposite.
    pub open spec fn opposite_units(&self) -> bool {
        exists|i: int, j: int|
            0 <= i < self.clause_count && 0 <= j < self.clause_count && self.is_unit(i) && self.is_unit(j)
                && self.clauses@[i]@[0] == -self.clauses@[j]@[0]
    }
}

} // verus!
