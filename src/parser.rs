use vstd::prelude::*;

use crate::ast::{Kw, Literal, LiteralV, Stmt, StmtV};
use crate::text::{
    chars_of, digit_value, digits_value, is_digit, is_digit_char, is_ws, is_ws_char, nat_text, digit_char,
};

verus! {

/// Why the source text does not follow the grammar, with the character offset of
/// the first character that could not be accepted.
#[derive(Debug, Clone, Copy, PartialEq, Eq, Structural)]
pub enum ParseError {
    /// The grammar expected something else at this offset (or the input ended).
    Unexpected { at: usize },
    /// The integer literal starting at this offset does not fit in 32 bits.
    IntOutOfRange { at: usize },
}

impl ParseError {
    pub open spec fn spec_at(self) -> usize {
        match self {
            ParseError::Unexpected { at } => at,
            ParseError::IntOutOfRange { at } => at,
        }
    }

    pub fn at(&self) -> (r: usize)
        ensures
            r == self.spec_at(),
    {
        match self {
            ParseError::Unexpected { at } => *at,
            ParseError::IntOutOfRange { at } => *at,
        }
    }
}

pub open spec fn unexpected(i: int) -> ParseError {
    ParseError::Unexpected { at: i as usize }
}

/// The keyword `echo`.
pub open spec fn echo_word() -> Seq<char> {
    seq!['e', 'c', 'h', 'o']
}

/// The end of the whitespace run that starts at `i`.
pub open spec fn ws_end(s: Seq<char>, i: int) -> int
    decreases s.len() - i,
{
    if 0 <= i < s.len() && is_ws(s[i]) {
        ws_end(s, i + 1)
    } else {
        i
    }
}

/// The end of the digit run that starts at `i`.
pub open spec fn digits_end(s: Seq<char>, i: int) -> int
    decreases s.len() - i,
{
    if 0 <= i < s.len() && is_digit(s[i]) {
        digits_end(s, i + 1)
    } else {
        i
    }
}

/// The offset of the first `"` at or after `i`, or the length of `s` if there is none.
pub open spec fn quote_end(s: Seq<char>, i: int) -> int
    decreases s.len() - i,
{
    if 0 <= i < s.len() && s[i] != '"' {
        quote_end(s, i + 1)
    } else {
        i
    }
}

/// How many characters of `echo`, from its `k`-th on, appear at `i + k` onwards.
pub open spec fn kw_match(s: Seq<char>, i: int, k: int) -> int
    decreases 4 - k,
{
    if 0 <= k < 4 && 0 <= i + k < s.len() && s[i + k] == echo_word()[k] {
        kw_match(s, i, k + 1)
    } else {
        k
    }
}

/// One literal at offset `i`: a float `<digits>.<digits>`, else an integer
/// `<digits>` (which no `.` may follow), else a string `"<no quotes>"`. On success, the literal and the
/// offset just past it.
pub open spec fn literal_at(s: Seq<char>, i: int) -> Result<(LiteralV, int), ParseError> {
    let d = digits_end(s, i);
    if d > i {
        if d < s.len() && s[d] == '.' {
            let e = digits_end(s, d + 1);
            if e > d + 1 {
                Ok((LiteralV::Float(s.subrange(i, e)), e))
            } else {
                Err(unexpected(d + 1))
            }
        } else if digits_value(s.subrange(i, d)) <= i32::MAX {
            Ok((LiteralV::Int(digits_value(s.subrange(i, d))), d))
        } else {
            Err(ParseError::IntOutOfRange { at: i as usize })
        }
    } else if 0 <= i < s.len() && s[i] == '"' {
        let q = quote_end(s, i + 1);
        if q < s.len() {
            Ok((LiteralV::Str(s.subrange(i + 1, q)), q + 1))
        } else {
            Err(unexpected(q))
        }
    } else {
        Err(unexpected(i))
    }
}

pub open spec fn starts_literal(s: Seq<char>, p: int) -> bool {
    0 <= p < s.len() && (is_digit(s[p]) || s[p] == '"')
}

/// The arguments of a statement, from offset `p`: literals, each but the last
/// followed by whitespace. On success, the literals and the offset where the
/// list ends (past the whitespace after the last literal, if any).
pub open spec fn args_at(s: Seq<char>, p: int) -> Result<(Seq<LiteralV>, int), ParseError>
    decreases s.len() - p,
    via args_at_decreases
{
    if starts_literal(s, p) {
        match literal_at(s, p) {
            Err(x) => Err(x),
            Ok((l, e)) => if e < s.len() && is_ws(s[e]) {
                match args_at(s, ws_end(s, e)) {
                    Err(x) => Err(x),
                    Ok((rest, q)) => Ok((seq![l] + rest, q)),
                }
            } else {
                Ok((seq![l], e))
            },
        }
    } else {
        Ok((seq![], p))
    }
}

#[via_fn]
proof fn args_at_decreases(s: Seq<char>, p: int) {
    if starts_literal(s, p) {
        lemma_literal_at_bounds(s, p);
        match literal_at(s, p) {
            Err(x) => {},
            Ok((l, e)) => {
                if e < s.len() && is_ws(s[e]) {
                    lemma_ws_end_bounds(s, e);
                }
            },
        }
    }
}

/// One statement at offset `i`: `echo`, at least one whitespace character, and
/// its arguments.
pub open spec fn stmt_at(s: Seq<char>, i: int) -> Result<(StmtV, int), ParseError> {
    let k = kw_match(s, i, 0);
    if k < 4 {
        Err(unexpected(i + k))
    } else if !(i + 4 < s.len() && is_ws(s[i + 4])) {
        Err(unexpected(i + 4))
    } else {
        match args_at(s, ws_end(s, i + 4)) {
            Err(x) => Err(x),
            Ok((args, q)) => Ok((StmtV { kw: Kw::Echo, args }, q)),
        }
    }
}

/// The statements from offset `p` to the end, each but the last ending in
/// whitespace.
pub open spec fn stmts_from(s: Seq<char>, p: int) -> Result<Seq<StmtV>, ParseError>
    decreases s.len() - p,
    via stmts_from_decreases
{
    if p < 0 || p >= s.len() {
        Ok(seq![])
    } else {
        match stmt_at(s, p) {
            Err(x) => Err(x),
            Ok((st, q)) => if q >= s.len() {
                Ok(seq![st])
            } else if q > p && is_ws(s[q - 1]) {
                match stmts_from(s, q) {
                    Err(x) => Err(x),
                    Ok(rest) => Ok(seq![st] + rest),
                }
            } else {
                Err(unexpected(q))
            },
        }
    }
}

#[via_fn]
proof fn stmts_from_decreases(s: Seq<char>, p: int) {
    if 0 <= p < s.len() {
        lemma_stmt_at_bounds(s, p);
    }
}

/// A whole program: optional leading whitespace, then statements.
pub open spec fn program(s: Seq<char>) -> Result<Seq<StmtV>, ParseError> {
    stmts_from(s, ws_end(s, 0))
}

/// The source as exactly one literal.
pub open spec fn literal_whole(s: Seq<char>) -> Result<LiteralV, ParseError> {
    match literal_at(s, 0) {
        Err(x) => Err(x),
        Ok((l, e)) => if e == s.len() {
            Ok(l)
        } else {
            Err(unexpected(e))
        },
    }
}

/// The source as exactly one statement.
pub open spec fn stmt_whole(s: Seq<char>) -> Result<StmtV, ParseError> {
    match stmt_at(s, 0) {
        Err(x) => Err(x),
        Ok((st, q)) => if q == s.len() {
            Ok(st)
        } else {
            Err(unexpected(q))
        },
    }
}

/// The source as exactly the keyword.
pub open spec fn kw_whole(s: Seq<char>) -> Result<Kw, ParseError> {
    let k = kw_match(s, 0, 0);
    if k < 4 {
        Err(unexpected(k))
    } else if s.len() > 4 {
        Err(unexpected(4))
    } else {
        Ok(Kw::Echo)
    }
}

/// The source as one non-empty run of whitespace.
pub open spec fn ws_whole(s: Seq<char>) -> Result<(), ParseError> {
    if s.len() > 0 && ws_end(s, 0) == s.len() {
        Ok(())
    } else {
        Err(unexpected(ws_end(s, 0)))
    }
}

pub proof fn lemma_ws_end_bounds(s: Seq<char>, i: int)
    requires
        0 <= i <= s.len(),
    ensures
        i <= ws_end(s, i) <= s.len(),
        forall|j: int| i <= j < ws_end(s, i) ==> is_ws(#[trigger] s[j]),
        ws_end(s, i) < s.len() ==> !is_ws(s[ws_end(s, i)]),
    decreases s.len() - i,
{
    if i < s.len() && is_ws(s[i]) {
        lemma_ws_end_bounds(s, i + 1);
    }
}

pub proof fn lemma_digits_end_bounds(s: Seq<char>, i: int)
    requires
        0 <= i <= s.len(),
    ensures
        i <= digits_end(s, i) <= s.len(),
        forall|j: int| i <= j < digits_end(s, i) ==> is_digit(#[trigger] s[j]),
        digits_end(s, i) < s.len() ==> !is_digit(s[digits_end(s, i)]),
    decreases s.len() - i,
{
    if i < s.len() && is_digit(s[i]) {
        lemma_digits_end_bounds(s, i + 1);
    }
}

pub proof fn lemma_quote_end_bounds(s: Seq<char>, i: int)
    requires
        0 <= i <= s.len(),
    ensures
        i <= quote_end(s, i) <= s.len(),
        forall|j: int| i <= j < quote_end(s, i) ==> #[trigger] s[j] != '"',
        quote_end(s, i) < s.len() ==> s[quote_end(s, i)] == '"',
    decreases s.len() - i,
{
    if i < s.len() && s[i] != '"' {
        lemma_quote_end_bounds(s, i + 1);
    }
}

pub proof fn lemma_literal_at_bounds(s: Seq<char>, i: int)
    requires
        0 <= i <= s.len(),
    ensures
        literal_at(s, i) is Ok ==> i < literal_at(s, i)->Ok_0.1 <= s.len(),
        s.len() <= usize::MAX && literal_at(s, i) is Err ==> i <= literal_at(s, i)->Err_0.spec_at() <= s.len(),
{
    lemma_digits_end_bounds(s, i);
    let d = digits_end(s, i);
    if d < s.len() {
        lemma_digits_end_bounds(s, d + 1);
    }
    if i < s.len() {
        lemma_quote_end_bounds(s, i + 1);
    }
}

pub proof fn lemma_args_at_bounds(s: Seq<char>, p: int)
    requires
        0 <= p <= s.len(),
    ensures
        args_at(s, p) is Ok ==> p <= args_at(s, p)->Ok_0.1 <= s.len(),
        s.len() <= usize::MAX && args_at(s, p) is Err ==> p <= args_at(s, p)->Err_0.spec_at() <= s.len(),
    decreases s.len() - p,
{
    if starts_literal(s, p) {
        lemma_literal_at_bounds(s, p);
        match literal_at(s, p) {
            Err(x) => {},
            Ok((l, e)) => {
                if e < s.len() && is_ws(s[e]) {
                    lemma_ws_end_bounds(s, e);
                    lemma_args_at_bounds(s, ws_end(s, e));
                }
            },
        }
    }
}

pub proof fn lemma_stmt_at_bounds(s: Seq<char>, i: int)
    requires
        0 <= i < s.len(),
    ensures
        stmt_at(s, i) is Ok ==> i < stmt_at(s, i)->Ok_0.1 <= s.len(),
        s.len() <= usize::MAX && stmt_at(s, i) is Err ==> i <= stmt_at(s, i)->Err_0.spec_at() <= s.len(),
{
    lemma_kw_match_bounds(s, i, 0);
    if kw_match(s, i, 0) == 4 && i + 4 < s.len() {
        lemma_ws_end_bounds(s, i + 4);
        lemma_args_at_bounds(s, ws_end(s, i + 4));
    }
}

pub proof fn lemma_kw_match_bounds(s: Seq<char>, i: int, k: int)
    requires
        0 <= i,
        0 <= k <= 4,
        k <= s.len() - i || k == 0,
    ensures
        k <= kw_match(s, i, k) <= 4,
        kw_match(s, i, k) <= s.len() - i || kw_match(s, i, k) == k,
        forall|j: int| k <= j < kw_match(s, i, k) ==> s[i + j] == #[trigger] echo_word()[j],
    decreases 4 - k,
{
    if 0 <= k < 4 && 0 <= i + k < s.len() && s[i + k] == echo_word()[k] {
        lemma_kw_match_bounds(s, i, k + 1);
    }
}

pub proof fn lemma_digits_value_prefix(d: Seq<char>, j: int)
    requires
        0 <= j <= d.len(),
        forall|k: int| 0 <= k < d.len() ==> is_digit(#[trigger] d[k]),
    ensures
        0 <= digits_value(d.subrange(0, j)) <= digits_value(d),
    decreases d.len(),
{
    if j < d.len() {
        lemma_digits_value_prefix(d.drop_last(), j);
        assert(d.drop_last().subrange(0, j) =~= d.subrange(0, j));
        assert(d.drop_last().subrange(0, d.len() - 1) =~= d.drop_last());
    } else {
        assert(d.subrange(0, j) =~= d);
        if d.len() > 0 {
            lemma_digits_value_prefix(d.drop_last(), j - 1);
            assert(d.drop_last().subrange(0, j - 1) =~= d.drop_last());
        }
    }
}

fn ws_end_exec(s: &Vec<char>, i: usize) -> (r: usize)
    requires
        i <= s.len(),
    ensures
        r == ws_end(s@, i as int),
{
    let mut j = i;
    while j < s.len() && is_ws_char(s[j])
        invariant
            i <= j <= s.len(),
            ws_end(s@, j as int) == ws_end(s@, i as int),
        decreases s.len() - j,
    {
        j += 1;
    }
    j
}

fn digits_end_exec(s: &Vec<char>, i: usize) -> (r: usize)
    requires
        i <= s.len(),
    ensures
        r == digits_end(s@, i as int),
{
    let mut j = i;
    while j < s.len() && is_digit_char(s[j])
        invariant
            i <= j <= s.len(),
            digits_end(s@, j as int) == digits_end(s@, i as int),
        decreases s.len() - j,
    {
        j += 1;
    }
    j
}

fn quote_end_exec(s: &Vec<char>, i: usize) -> (r: usize)
    requires
        i <= s.len(),
    ensures
        r == quote_end(s@, i as int),
{
    let mut j = i;
    while j < s.len() && s[j] != '"'
        invariant
            i <= j <= s.len(),
            quote_end(s@, j as int) == quote_end(s@, i as int),
        decreases s.len() - j,
    {
        j += 1;
    }
    j
}

/// The value of the digits `s[i..d]`, if it fits in an `i32`.
fn digits_to_i32(s: &Vec<char>, i: usize, d: usize) -> (r: Option<i32>)
    requires
        i <= d <= s.len(),
        forall|k: int| i <= k < d ==> is_digit(#[trigger] s@[k]),
    ensures
        r is Some <==> digits_value(s@.subrange(i as int, d as int)) <= i32::MAX,
        r is Some ==> r->0 as int == digits_value(s@.subrange(i as int, d as int)),
{
    let ghost w = s@.subrange(i as int, d as int);
    let mut acc: i64 = 0;
    let mut j = i;
    while j < d
        invariant
            i <= j <= d <= s.len(),
            w == s@.subrange(i as int, d as int),
            forall|k: int| i <= k < d ==> is_digit(#[trigger] s@[k]),
            0 <= acc <= i32::MAX,
            acc as int == digits_value(s@.subrange(i as int, j as int)),
        decreases d - j,
    {
        proof {
            assert(s@.subrange(i as int, j + 1).drop_last() =~= s@.subrange(i as int, j as int));
        }
        let c = s[j];
        acc = acc * 10 + (c as i64 - '0' as i64);
        j += 1;
        if acc > i32::MAX as i64 {
            proof {
                assert forall|k: int| 0 <= k < w.len() implies is_digit(#[trigger] w[k]) by {
                    assert(w[k] == s@[i + k]);
                }
                lemma_digits_value_prefix(w, j - i);
                assert(w.subrange(0, j - i) =~= s@.subrange(i as int, j as int));
            }
            return None;
        }
    }
    Some(acc as i32)
}

fn literal_at_exec(src: &str, s: &Vec<char>, i: usize) -> (r: Result<(Literal, usize), ParseError>)
    requires
        s@ == src@,
        i <= s.len(),
    ensures
        match (r, literal_at(s@, i as int)) {
            (Ok((l, e)), Ok((lv, ev))) => l@ == lv && e == ev,
            (Err(x), Err(y)) => x == y,
            _ => false,
        },
{
    proof {
        lemma_digits_end_bounds(s@, i as int);
    }
    let d = digits_end_exec(s, i);
    if d > i {
        if d < s.len() && s[d] == '.' {
            proof {
                lemma_digits_end_bounds(s@, d + 1);
            }
            let e = digits_end_exec(s, d + 1);
            if e > d + 1 {
                let t = src.substring_char(i, e).to_owned();
                return Ok((Literal::Float(t), e));
            } else {
                return Err(ParseError::Unexpected { at: d + 1 });
            }
        }
        match digits_to_i32(s, i, d) {
            Some(v) => Ok((Literal::Int(v), d)),
            None => Err(ParseError::IntOutOfRange { at: i }),
        }
    } else if i < s.len() && s[i] == '"' {
        proof {
            lemma_quote_end_bounds(s@, i + 1);
        }
        let q = quote_end_exec(s, i + 1);
        if q < s.len() {
            let t = src.substring_char(i + 1, q).to_owned();
            Ok((Literal::Str(t), q + 1))
        } else {
            Err(ParseError::Unexpected { at: q })
        }
    } else {
        Err(ParseError::Unexpected { at: i })
    }
}

/// The views of a sequence of literals.
pub open spec fn literal_views(v: Seq<Literal>) -> Seq<LiteralV> {
    v.map_values(|l: Literal| l@)
}

/// The views of a sequence of statements.
pub open spec fn stmt_views(v: Seq<Stmt>) -> Seq<StmtV> {
    v.map_values(|st: Stmt| st@)
}

/// `r` with `a` put in front of its list.
pub open spec fn prepend_args(a: Seq<LiteralV>, r: Result<(Seq<LiteralV>, int), ParseError>) -> Result<(Seq<LiteralV>, int), ParseError> {
    match r {
        Ok((rest, q)) => Ok((a + rest, q)),
        Err(x) => Err(x),
    }
}

/// `r` with `a` put in front of its list.
pub open spec fn prepend_stmts(a: Seq<StmtV>, r: Result<Seq<StmtV>, ParseError>) -> Result<Seq<StmtV>, ParseError> {
    match r {
        Ok(rest) => Ok(a + rest),
        Err(x) => Err(x),
    }
}

fn args_at_exec(src: &str, s: &Vec<char>, p0: usize) -> (r: Result<(Vec<Literal>, usize), ParseError>)
    requires
        s@ == src@,
        p0 <= s.len(),
    ensures
        match (r, args_at(s@, p0 as int)) {
            (Ok((a, q)), Ok((av, qv))) => literal_views(a@) == av && q == qv,
            (Err(x), Err(y)) => x == y,
            _ => false,
        },
{
    let mut args: Vec<Literal> = Vec::new();
    let mut p = p0;
    loop
        invariant
            s@ == src@,
            p0 <= p <= s.len(),
            args_at(s@, p0 as int) == prepend_args(literal_views(args@), args_at(s@, p as int)),
        decreases s.len() - p,
    {
        let ghost before = args@;
        if !(p < s.len() && (is_digit_char(s[p]) || s[p] == '"')) {
            proof {
                assert(literal_views(args@) + seq![] =~= literal_views(args@));
            }
            return Ok((args, p));
        }
        proof {
            lemma_literal_at_bounds(s@, p as int);
        }
        match literal_at_exec(src, s, p) {
            Err(x) => {
                return Err(x);
            },
            Ok((l, e)) => {
                args.push(l);
                proof {
                    assert(literal_views(args@) =~= literal_views(before) + seq![l@]);
                }
                if e < s.len() && is_ws_char(s[e]) {
                    proof {
                        lemma_ws_end_bounds(s@, e as int);
                        let nxt = args_at(s@, ws_end(s@, e as int));
                        match nxt {
                            Ok((rest, q)) => {
                                assert(literal_views(before) + (seq![l@] + rest) =~= literal_views(args@) + rest);
                            },
                            Err(x) => {},
                        }
                    }
                    p = ws_end_exec(s, e);
                } else {
                    return Ok((args, e));
                }
            },
        }
    }
}

fn stmt_at_exec(src: &str, s: &Vec<char>, i: usize) -> (r: Result<(Stmt, usize), ParseError>)
    requires
        s@ == src@,
        i <= s.len(),
    ensures
        match (r, stmt_at(s@, i as int)) {
            (Ok((st, q)), Ok((sv, qv))) => st@ == sv && q == qv,
            (Err(x), Err(y)) => x == y,
            _ => false,
        },
{
    let word = ['e', 'c', 'h', 'o'];
    let mut k: usize = 0;
    while k < 4 && k < s.len() - i && s[i + k] == word[k]
        invariant
            0 <= k <= 4,
            i <= s.len(),
            word@ == echo_word(),
            kw_match(s@, i as int, k as int) == kw_match(s@, i as int, 0),
        decreases 4 - k,
    {
        k += 1;
    }
    proof {
        lemma_kw_match_bounds(s@, i as int, 0);
    }
    if k < 4 {
        return Err(ParseError::Unexpected { at: i + k });
    }
    if !(4 < s.len() - i && is_ws_char(s[i + 4])) {
        return Err(ParseError::Unexpected { at: i + 4 });
    }
    let p = ws_end_exec(s, i + 4);
    proof {
        lemma_ws_end_bounds(s@, i + 4);
    }
    match args_at_exec(src, s, p) {
        Err(x) => Err(x),
        Ok((args, q)) => Ok((Stmt { kw: Kw::Echo, args }, q)),
    }
}

/// Parses `src` as exactly one literal.
pub fn literal(src: &str) -> (r: Result<Literal, ParseError>)
    ensures
        match (r, literal_whole(src@)) {
            (Ok(l), Ok(lv)) => l@ == lv,
            (Err(x), Err(y)) => x == y,
            _ => false,
        },
{
    let s = chars_of(src);
    match literal_at_exec(src, &s, 0) {
        Err(x) => Err(x),
        Ok((l, e)) => if e == s.len() {
            Ok(l)
        } else {
            Err(ParseError::Unexpected { at: e })
        },
    }
}

/// Parses `src` as exactly one statement.
pub fn stmt(src: &str) -> (r: Result<Stmt, ParseError>)
    ensures
        match (r, stmt_whole(src@)) {
            (Ok(st), Ok(sv)) => st@ == sv,
            (Err(x), Err(y)) => x == y,
            _ => false,
        },
{
    let s = chars_of(src);
    match stmt_at_exec(src, &s, 0) {
        Err(x) => Err(x),
        Ok((st, q)) => if q == s.len() {
            Ok(st)
        } else {
            Err(ParseError::Unexpected { at: q })
        },
    }
}

/// Parses `src` as exactly the keyword `echo`.
pub fn kw(src: &str) -> (r: Result<Kw, ParseError>)
    ensures
        r == kw_whole(src@),
{
    let s = chars_of(src);
    let word = ['e', 'c', 'h', 'o'];
    let mut k: usize = 0;
    while k < 4 && k < s.len() && s[k] == word[k]
        invariant
            0 <= k <= 4,
            word@ == echo_word(),
            kw_match(s@, 0, k as int) == kw_match(s@, 0, 0),
        decreases 4 - k,
    {
        k += 1;
    }
    if k < 4 {
        Err(ParseError::Unexpected { at: k })
    } else if s.len() > 4 {
        Err(ParseError::Unexpected { at: 4 })
    } else {
        Ok(Kw::Echo)
    }
}

/// Parses `src` as one non-empty run of whitespace.
pub fn padded_ws(src: &str) -> (r: Result<(), ParseError>)
    ensures
        r == ws_whole(src@),
{
    let s = chars_of(src);
    let e = ws_end_exec(&s, 0);
    if s.len() > 0 && e == s.len() {
        Ok(())
    } else {
        Err(ParseError::Unexpected { at: e })
    }
}

/// Parses a whole program: `echo` statements separated by whitespace, in
/// source order.
pub fn parse_program(src: &str) -> (r: Result<Vec<Stmt>, ParseError>)
    ensures
        match (r, program(src@)) {
            (Ok(v), Ok(vv)) => stmt_views(v@) == vv,
            (Err(x), Err(y)) => x == y,
            _ => false,
        },
{
    let s = chars_of(src);
    proof {
        lemma_ws_end_bounds(s@, 0);
    }
    let p0 = ws_end_exec(&s, 0);
    let mut out: Vec<Stmt> = Vec::new();
    let mut p = p0;
    loop
        invariant
            s@ == src@,
            p0 <= p <= s.len(),
            p0 == ws_end(s@, 0),
            program(s@) == prepend_stmts(stmt_views(out@), stmts_from(s@, p as int)),
        decreases s.len() - p,
    {
        let ghost before = out@;
        if p >= s.len() {
            proof {
                assert(stmt_views(out@) + seq![] =~= stmt_views(out@));
            }
            return Ok(out);
        }
        proof {
            lemma_stmt_at_bounds(s@, p as int);
        }
        match stmt_at_exec(src, &s, p) {
            Err(x) => {
                return Err(x);
            },
            Ok((st, q)) => {
                out.push(st);
                proof {
                    assert(stmt_views(out@) =~= stmt_views(before) + seq![st@]);
                }
                if q >= s.len() {
                    return Ok(out);
                } else if is_ws_char(s[q - 1]) {
                    proof {
                        match stmts_from(s@, q as int) {
                            Ok(rest) => {
                                assert(stmt_views(before) + (seq![st@] + rest) =~= stmt_views(out@) + rest);
                            },
                            Err(x) => {},
                        }
                    }
                    p = q;
                } else {
                    return Err(ParseError::Unexpected { at: q });
                }
            },
        }
    }
}

pub open spec fn all_digits(d: Seq<char>) -> bool {
    forall|k: int| 0 <= k < d.len() ==> is_digit(#[trigger] d[k])
}

proof fn lemma_digits_end_all(s: Seq<char>, i: int, e: int)
    requires
        0 <= i <= e <= s.len(),
        forall|k: int| i <= k < e ==> is_digit(#[trigger] s[k]),
        e == s.len() || !is_digit(s[e]),
    ensures
        digits_end(s, i) == e,
    decreases e - i,
{
    if i < e {
        lemma_digits_end_all(s, i + 1, e);
    }
}

/// A run of decimal digits whose value fits in 32 bits reads as that integer.
pub proof fn lemma_int_literal(d: Seq<char>)
    requires
        d.len() > 0,
        all_digits(d),
        digits_value(d) <= i32::MAX,
    ensures
        literal_whole(d) == Ok::<LiteralV, ParseError>(LiteralV::Int(digits_value(d))),
{
    lemma_digits_end_all(d, 0, d.len() as int);
    assert(d.subrange(0, d.len() as int) =~= d);
}

/// A run of decimal digits whose value does not fit in 32 bits is refused at
/// its first digit.
pub proof fn lemma_int_literal_too_large(d: Seq<char>)
    requires
        d.len() > 0,
        all_digits(d),
        digits_value(d) > i32::MAX,
    ensures
        literal_whole(d) == Err::<LiteralV, ParseError>(ParseError::IntOutOfRange { at: 0 }),
{
    lemma_digits_end_all(d, 0, d.len() as int);
    assert(d.subrange(0, d.len() as int) =~= d);
}

proof fn lemma_digit_char(d: nat)
    requires
        d < 10,
    ensures
        is_digit(digit_char(d)),
        digit_value(digit_char(d)) == d,
        d != 0 ==> digit_char(d) != '0',
{
    assert(digit_char(d) as int == d + 48);
}

/// The decimal text of a number is digits, and reads back as that number.
pub proof fn lemma_nat_text(n: nat)
    ensures
        nat_text(n).len() > 0,
        all_digits(nat_text(n)),
        digits_value(nat_text(n)) == n,
        nat_text(n)[0] != '0' || nat_text(n).len() == 1,
        n >= 1 ==> nat_text(n)[0] != '0',
    decreases n,
{
    lemma_digit_char(n % 10);
    if n < 10 {
        assert(nat_text(n).drop_last() =~= seq![]);
        assert(digits_value(nat_text(n)) == digits_value(seq![]) * 10 + digit_value(digit_char(n % 10)));
    } else {
        lemma_nat_text(n / 10);
        let t = nat_text(n);
        assert(t.drop_last() =~= nat_text(n / 10));
        assert(t[0] == nat_text(n / 10)[0]);
        assert(t.last() == digit_char(n % 10));
        assert(digits_value(t) == digits_value(nat_text(n / 10)) * 10 + digit_value(digit_char(n % 10)));
        assert((n / 10) * 10 + n % 10 == n);
    }
}

/// Reading digits and writing the number back in decimal gives the digits again,
/// when there is no leading zero.
pub proof fn lemma_int_round_trip(d: Seq<char>)
    requires
        d.len() > 0,
        all_digits(d),
        d[0] != '0' || d.len() == 1,
    ensures
        nat_text(digits_value(d) as nat) == d,
    decreases d.len(),
{
    lemma_digits_value_prefix(d, 0);
    if d.len() == 1 {
        assert(d.drop_last() =~= seq![]);
        assert(digits_value(d) == digit_value(d[0]));
        assert(nat_text(digits_value(d) as nat) =~= d);
    } else {
        let f = d.drop_last();
        assert forall|k: int| 0 <= k < f.len() implies is_digit(#[trigger] f[k]) by {
            assert(f[k] == d[k]);
        }
        lemma_int_round_trip(f);
        lemma_digits_value_prefix(f, 1);
        assert(f.subrange(0, 1).drop_last() =~= seq![]);
        assert(f.subrange(0, 1).last() == d[0]);
        let v = digits_value(d);
        assert(v == digits_value(f) * 10 + digit_value(d.last()));
        assert(digits_value(f) >= 1);
        assert(v / 10 == digits_value(f));
        assert(v % 10 == digit_value(d.last()));
        assert(nat_text(v as nat) =~= d);
    }
}

/// Every decimal text of a number up to the largest `i32` reads as that number.
pub proof fn lemma_int_text_reads_back(n: nat)
    requires
        n <= i32::MAX,
    ensures
        literal_whole(nat_text(n)) == Ok::<LiteralV, ParseError>(LiteralV::Int(n as int)),
{
    lemma_nat_text(n);
    lemma_int_literal(nat_text(n));
}

/// `<digits>.<digits>` reads as the float written by exactly that decimal text.
pub proof fn lemma_float_literal(a: Seq<char>, b: Seq<char>)
    requires
        a.len() > 0,
        b.len() > 0,
        all_digits(a),
        all_digits(b),
    ensures
        literal_whole(a + seq!['.'] + b) == Ok::<LiteralV, ParseError>(LiteralV::Float(a + seq!['.'] + b)),
{
    let w = a + seq!['.'] + b;
    assert(w[a.len() as int] == '.');
    assert forall|k: int| 0 <= k < a.len() implies is_digit(#[trigger] w[k]) by {
        assert(w[k] == a[k]);
    }
    assert forall|k: int| a.len() + 1 <= k < w.len() implies is_digit(#[trigger] w[k]) by {
        assert(w[k] == b[k - a.len() - 1]);
    }
    lemma_digits_end_all(w, 0, a.len() as int);
    lemma_digits_end_all(w, a.len() as int + 1, w.len() as int);
    assert(w.subrange(0, w.len() as int) =~= w);
}

/// Digits and a dot with no digit after it are refused just past the dot, the
/// first character that cannot continue a float.
pub proof fn lemma_dangling_dot(a: Seq<char>, r: Seq<char>)
    requires
        a.len() > 0,
        all_digits(a),
        r.len() == 0 || !is_digit(r[0]),
        a.len() + 1 + r.len() <= usize::MAX,
    ensures
        literal_whole(a + seq!['.'] + r) == Err::<LiteralV, ParseError>(unexpected(a.len() as int + 1)),
{
    let w = a + seq!['.'] + r;
    assert(w[a.len() as int] == '.');
    assert forall|k: int| 0 <= k < a.len() implies is_digit(#[trigger] w[k]) by {
        assert(w[k] == a[k]);
    }
    lemma_digits_end_all(w, 0, a.len() as int);
    if r.len() > 0 {
        assert(w[a.len() as int + 1] == r[0]);
    }
    lemma_digits_end_all(w, a.len() as int + 1, a.len() as int + 1);
}

/// A quoted run without quotes reads as that string, taken verbatim.
pub proof fn lemma_string_literal(t: Seq<char>)
    requires
        forall|k: int| 0 <= k < t.len() ==> #[trigger] t[k] != '"',
    ensures
        literal_whole(seq!['"'] + t + seq!['"']) == Ok::<LiteralV, ParseError>(LiteralV::Str(t)),
{
    let w = seq!['"'] + t + seq!['"'];
    assert(w[0] == '"');
    assert(!is_digit(w[0]));
    lemma_digits_end_bounds(w, 0);
    lemma_quote_end_bounds(w, 1);
    let q = quote_end(w, 1);
    assert(w[t.len() as int + 1] == '"');
    if q < t.len() as int + 1 {
        assert(w[q] == t[q - 1]);
    }
    if q > t.len() as int + 1 {
        assert(w[t.len() as int + 1] != '"');
    }
    assert(w.subrange(1, t.len() as int + 1) =~= t);
}

/// A quote with no closing quote after it is refused at the end of the text,
/// where the closing quote is missing.
pub proof fn lemma_unterminated_string(t: Seq<char>)
    requires
        forall|k: int| 0 <= k < t.len() ==> #[trigger] t[k] != '"',
    ensures
        literal_whole(seq!['"'] + t) == Err::<LiteralV, ParseError>(unexpected(t.len() as int + 1)),
{
    let w = seq!['"'] + t;
    assert(w[0] == '"');
    assert(!is_digit(w[0]));
    lemma_digits_end_bounds(w, 0);
    lemma_quote_end_bounds(w, 1);
    let q = quote_end(w, 1);
    if q < w.len() {
        assert(w[q] == t[q - 1]);
    }
}

/// A program whose first word is not `echo` is refused at the first character
/// that departs from `echo`: everything before it is leading whitespace or a
/// prefix of the keyword.
pub proof fn lemma_missing_keyword(s: Seq<char>)
    requires
        s.len() <= usize::MAX,
        ws_end(s, 0) < s.len(),
        kw_match(s, ws_end(s, 0), 0) < 4,
    ensures
        program(s) == Err::<Seq<StmtV>, ParseError>(unexpected(ws_end(s, 0) + kw_match(s, ws_end(s, 0), 0))),
        forall|j: int| 0 <= j < ws_end(s, 0) ==> is_ws(#[trigger] s[j]),
        forall|k: int| 0 <= k < kw_match(s, ws_end(s, 0), 0) ==> s[ws_end(s, 0) + k] == #[trigger] echo_word()[k],
{
    lemma_ws_end_bounds(s, 0);
    lemma_kw_match_bounds(s, ws_end(s, 0), 0);
}

} // verus!
