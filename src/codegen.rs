use vstd::prelude::*;

use crate::ast::{Kw, Literal, LiteralV, Stmt, StmtV};
use crate::parser::stmt_views;
use crate::text::{chars_of, int_text, nat_text};

verus! {

/// Why a statement could not be lowered.
#[derive(Debug, Clone, Copy, PartialEq, Eq, Structural)]
pub enum LowerErrorKind {
    /// `echo` takes exactly one argument; it was given `count`.
    Arity { count: usize },
    /// The argument is a literal kind that `echo` does not print (a float).
    UnsupportedLiteral,
}

/// A lowering failure: which statement (by position) and why.
#[derive(Debug, Clone, Copy, PartialEq, Eq, Structural)]
pub struct LowerError {
    pub stmt: usize,
    pub kind: LowerErrorKind,
}

/// The lowered program: a table of interned global strings, and the sequence of
/// line-output calls of the entry point, each naming the global it prints.
///
/// Every distinct string appears at most once in the table.
#[derive(Debug)]
pub struct CodeGen {
    globals: Vec<Vec<char>>,
    calls: Vec<usize>,
}

/// The mathematical value of a [`CodeGen`].
pub struct CodeGenV {
    pub globals: Seq<Seq<char>>,
    pub calls: Seq<int>,
}

/// Each string at most once in the table.
pub open spec fn no_dup(g: Seq<Seq<char>>) -> bool {
    forall|i: int, j: int| 0 <= i < g.len() && 0 <= j < g.len() && i != j ==> g[i] != g[j]
}

pub open spec fn wf(v: CodeGenV) -> bool {
    &&& no_dup(v.globals)
    &&& forall|k: int| 0 <= k < v.calls.len() ==> 0 <= #[trigger] v.calls[k] < v.globals.len()
}

pub open spec fn empty_program() -> CodeGenV {
    CodeGenV { globals: seq![], calls: seq![] }
}

/// The lines the program prints, in order.
pub open spec fn output_lines(v: CodeGenV) -> Seq<Seq<char>> {
    v.calls.map_values(|k: int| v.globals[k])
}

/// The text that `echo` prints for a literal, if it prints that kind.
pub open spec fn echo_text(l: LiteralV) -> Option<Seq<char>> {
    match l {
        LiteralV::Str(s) => Some(s),
        LiteralV::Int(n) => Some(int_text(n)),
        LiteralV::Float(_) => None,
    }
}

/// Interning `t`: the table, with `t` added unless it was there, and the index of `t`.
pub open spec fn intern(g: Seq<Seq<char>>, t: Seq<char>) -> (Seq<Seq<char>>, int) {
    if g.contains(t) {
        (g, choose|i: int| 0 <= i < g.len() && g[i] == t)
    } else {
        (g.push(t), g.len() as int)
    }
}

/// Lowering one statement.
pub open spec fn lower_stmt(v: CodeGenV, s: StmtV) -> Result<CodeGenV, LowerErrorKind> {
    match s.kw {
        Kw::Echo => if s.args.len() != 1 {
            Err(LowerErrorKind::Arity { count: s.args.len() as usize })
        } else {
            match echo_text(s.args[0]) {
                None => Err(LowerErrorKind::UnsupportedLiteral),
                Some(t) => Ok(
                    CodeGenV { globals: intern(v.globals, t).0, calls: v.calls.push(intern(v.globals, t).1) },
                ),
            }
        },
    }
}

/// Lowering statements in order; the first that fails stops it.
pub open spec fn lower_all(v: CodeGenV, stmts: Seq<StmtV>) -> Result<CodeGenV, LowerError>
    decreases stmts.len(),
{
    if stmts.len() == 0 {
        Ok(v)
    } else {
        match lower_all(v, stmts.drop_last()) {
            Err(e) => Err(e),
            Ok(m) => match lower_stmt(m, stmts.last()) {
                Ok(n) => Ok(n),
                Err(k) => Err(LowerError { stmt: (stmts.len() - 1) as usize, kind: k }),
            },
        }
    }
}

impl View for CodeGen {
    type V = CodeGenV;

    closed spec fn view(&self) -> CodeGenV {
        CodeGenV {
            globals: self.globals@.map_values(|g: Vec<char>| g@),
            calls: self.calls@.map_values(|k: usize| k as int),
        }
    }
}

fn chars_eq(a: &Vec<char>, b: &Vec<char>) -> (r: bool)
    ensures
        r == (a@ == b@),
{
    if a.len() != b.len() {
        return false;
    }
    let mut i: usize = 0;
    while i < a.len()
        invariant
            a.len() == b.len(),
            i <= a.len(),
            forall|j: int| 0 <= j < i ==> a@[j] == b@[j],
        decreases a.len() - i,
    {
        if a[i] != b[i] {
            return false;
        }
        i += 1;
    }
    proof {
        assert(a@ =~= b@);
    }
    true
}

fn copy_chars(a: &Vec<char>) -> (r: Vec<char>)
    ensures
        r@ == a@,
{
    let mut r: Vec<char> = Vec::new();
    let mut i: usize = 0;
    while i < a.len()
        invariant
            i <= a.len(),
            r@ == a@.subrange(0, i as int),
        decreases a.len() - i,
    {
        r.push(a[i]);
        i += 1;
    }
    proof {
        assert(r@ =~= a@);
    }
    r
}

/// Appends the decimal text of `m` to `out`.
fn push_nat_text(m: u32, out: &mut Vec<char>)
    ensures
        final(out)@ == old(out)@ + nat_text(m as nat),
    decreases m,
{
    if m >= 10 {
        push_nat_text(m / 10, out);
    }
    out.push(((m % 10) as u8 + 48u8) as char);
    proof {
        assert(final(out)@ =~= old(out)@ + nat_text(m as nat));
    }
}

/// The decimal text of `n`.
fn i32_text(n: i32) -> (r: Vec<char>)
    ensures
        r@ == int_text(n as int),
{
    let mut out: Vec<char> = Vec::new();
    if n < 0 {
        out.push('-');
        push_nat_text((0i64 - n as i64) as u32, &mut out);
    } else {
        push_nat_text(n as u32, &mut out);
    }
    out
}

/// The text `echo` prints for `l`: a string as written, an integer in decimal;
/// none for a float.
pub fn literal_text(l: &Literal) -> (r: Option<Vec<char>>)
    ensures
        match echo_text(l@) {
            Some(t) => r is Some && r->0@ == t,
            None => r is None,
        },
{
    match l {
        Literal::Str(s) => Some(chars_of(s.as_str())),
        Literal::Int(n) => Some(i32_text(*n)),
        Literal::Float(_) => None,
    }
}

proof fn lemma_intern_found(g: Seq<Seq<char>>, t: Seq<char>, j: int)
    requires
        no_dup(g),
        0 <= j < g.len(),
        g[j] == t,
    ensures
        intern(g, t) == (g, j),
{
    assert(g.contains(t));
    let i = choose|i: int| 0 <= i < g.len() && g[i] == t;
    assert(g[i] == t);
}

proof fn lemma_intern(g: Seq<Seq<char>>, t: Seq<char>)
    requires
        no_dup(g),
    ensures
        no_dup(intern(g, t).0),
        0 <= intern(g, t).1 < intern(g, t).0.len(),
        intern(g, t).0[intern(g, t).1] == t,
        g.len() <= intern(g, t).0.len(),
        forall|i: int| 0 <= i < g.len() ==> intern(g, t).0[i] == g[i],
        g.contains(t) ==> intern(g, t).0 == g,
        !g.contains(t) ==> intern(g, t).0 == g.push(t),
{
    if g.contains(t) {
        let i = choose|i: int| 0 <= i < g.len() && g[i] == t;
        assert(g[i] == t);
    } else {
        let g2 = g.push(t);
        assert forall|i: int, j: int| 0 <= i < g2.len() && 0 <= j < g2.len() && i != j implies g2[i] != g2[j] by {
            if i == g.len() {
                assert(g2[j] == g[j]);
            } else if j == g.len() {
                assert(g2[i] == g[i]);
            }
        }
    }
}

/// The text each statement prints, in order (for statements of one argument).
pub open spec fn echoed(stmts: Seq<StmtV>) -> Seq<Seq<char>> {
    stmts.map_values(|st: StmtV| echo_text(st.args[0])->Some_0)
}

/// Lowering keeps the program well formed, and the lines it adds are the texts
/// of the statements' arguments, in source order.
pub proof fn lemma_lowering_in_order(v: CodeGenV, stmts: Seq<StmtV>)
    requires
        wf(v),
        lower_all(v, stmts) is Ok,
    ensures
        wf(lower_all(v, stmts)->Ok_0),
        output_lines(lower_all(v, stmts)->Ok_0) == output_lines(v) + echoed(stmts),
        forall|i: int| 0 <= i < stmts.len() ==> (#[trigger] stmts[i]).args.len() == 1,
    decreases stmts.len(),
{
    if stmts.len() == 0 {
        assert(output_lines(v) + echoed(stmts) =~= output_lines(v));
    } else {
        let front = stmts.drop_last();
        lemma_lowering_in_order(v, front);
        let m = lower_all(v, front)->Ok_0;
        let st = stmts.last();
        let t = echo_text(st.args[0])->Some_0;
        lemma_intern(m.globals, t);
        let n = lower_all(v, stmts)->Ok_0;
        assert(n.globals == intern(m.globals, t).0);
        assert(n.calls == m.calls.push(intern(m.globals, t).1));
        assert forall|k: int| 0 <= k < n.calls.len() implies 0 <= #[trigger] n.calls[k] < n.globals.len() by {
            if k < m.calls.len() {
                assert(n.calls[k] == m.calls[k]);
            }
        }
        assert(output_lines(n) =~= output_lines(m).push(t)) by {
            assert forall|k: int| 0 <= k < m.calls.len() implies output_lines(n)[k] == output_lines(m)[k] by {
                assert(n.calls[k] == m.calls[k]);
                assert(0 <= m.calls[k] < m.globals.len());
            }
        }
        assert(echoed(stmts) =~= echoed(front).push(t));
        assert(output_lines(v) + echoed(stmts) =~= (output_lines(v) + echoed(front)).push(t));
        assert forall|i: int| 0 <= i < stmts.len() implies (#[trigger] stmts[i]).args.len() == 1 by {
            if i < front.len() {
                assert(stmts[i] == front[i]);
            }
        }
    }
}

/// An `echo` of one literal.
pub open spec fn echo_of(l: LiteralV) -> StmtV {
    StmtV { kw: Kw::Echo, args: seq![l] }
}

proof fn lemma_lower_two(x: StmtV, y: StmtV)
    ensures
        lower_all(empty_program(), seq![x, y]) == match lower_stmt(empty_program(), x) {
            Err(k) => Err(LowerError { stmt: 0, kind: k }),
            Ok(m) => match lower_stmt(m, y) {
                Ok(n) => Ok(n),
                Err(k) => Err(LowerError { stmt: 1, kind: k }),
            },
        },
{
    let stmts = seq![x, y];
    assert(stmts.drop_last().drop_last() =~= seq![]);
    assert(stmts.drop_last() =~= seq![x]);
    assert(stmts.drop_last().last() == x);
    assert(stmts.last() == y);
    let e = empty_program();
    assert(lower_all(e, seq![]) == Ok::<CodeGenV, LowerError>(e));
    assert(seq![x].drop_last() =~= seq![]);
    assert(lower_all(e, seq![x]) == match lower_stmt(e, x) {
        Err(k) => Err(LowerError { stmt: 0, kind: k }),
        Ok(m) => Ok::<CodeGenV, LowerError>(m),
    });
}

/// Two statements that print the same text share one global entry.
pub proof fn lemma_interning_idempotent(a: LiteralV, b: LiteralV, t: Seq<char>)
    requires
        echo_text(a) == Some(t),
        echo_text(b) == Some(t),
    ensures
        lower_all(empty_program(), seq![echo_of(a), echo_of(b)])
            == Ok::<CodeGenV, LowerError>(CodeGenV { globals: seq![t], calls: seq![0, 0] }),
{
    lemma_lower_two(echo_of(a), echo_of(b));
    assert(echo_of(a).args[0] == a);
    assert(echo_of(b).args[0] == b);
    let e = empty_program();
    lemma_intern(e.globals, t);
    assert(!e.globals.contains(t));
    let g1 = seq![t];
    assert(e.globals.push(t) =~= g1);
    let m = CodeGenV { globals: g1, calls: seq![0] };
    assert(e.calls.push(0) =~= m.calls);
    assert(lower_stmt(e, echo_of(a)) == Ok::<CodeGenV, LowerErrorKind>(m));
    assert(g1[0] == t);
    assert(g1.contains(t));
    lemma_intern(g1, t);
    assert(intern(g1, t).1 == 0);
    assert(m.calls.push(0) =~= seq![0int, 0]);
}

/// Two statements that print different texts get one global entry each.
pub proof fn lemma_interning_distinct(a: LiteralV, b: LiteralV, ta: Seq<char>, tb: Seq<char>)
    requires
        echo_text(a) == Some(ta),
        echo_text(b) == Some(tb),
        ta != tb,
    ensures
        lower_all(empty_program(), seq![echo_of(a), echo_of(b)])
            == Ok::<CodeGenV, LowerError>(CodeGenV { globals: seq![ta, tb], calls: seq![0, 1] }),
{
    lemma_lower_two(echo_of(a), echo_of(b));
    assert(echo_of(a).args[0] == a);
    assert(echo_of(b).args[0] == b);
    let e = empty_program();
    lemma_intern(e.globals, ta);
    assert(!e.globals.contains(ta));
    let g1 = seq![ta];
    assert(e.globals.push(ta) =~= g1);
    let m = CodeGenV { globals: g1, calls: seq![0] };
    assert(e.calls.push(0) =~= m.calls);
    assert(lower_stmt(e, echo_of(a)) == Ok::<CodeGenV, LowerErrorKind>(m));
    assert(!g1.contains(tb)) by {
        if g1.contains(tb) {
            let i = choose|i: int| 0 <= i < g1.len() && g1[i] == tb;
            assert(g1[i] == tb);
        }
    }
    assert(g1.push(tb) =~= seq![ta, tb]);
    assert(m.calls.push(1) =~= seq![0int, 1]);
}

/// Interning a text that is already in the table returns its index and adds
/// nothing; interning it twice in a row is the same as interning it once.
pub proof fn lemma_intern_reuses(g: Seq<Seq<char>>, t: Seq<char>, j: int)
    requires
        no_dup(g),
        0 <= j < g.len(),
        g[j] == t,
    ensures
        intern(g, t) == (g, j),
        intern(intern(g, t).0, t) == intern(g, t),
{
    lemma_intern_found(g, t, j);
}

/// After interning `t`, interning a different text `u` gives another index and
/// keeps `t` where it was.
pub proof fn lemma_intern_distinct(g: Seq<Seq<char>>, t: Seq<char>, u: Seq<char>)
    requires
        no_dup(g),
        t != u,
    ensures
        intern(intern(g, t).0, u).1 != intern(g, t).1,
        intern(intern(g, t).0, u).0[intern(g, t).1] == t,
        no_dup(intern(intern(g, t).0, u).0),
{
    lemma_intern(g, t);
    let (g1, k) = intern(g, t);
    lemma_intern(g1, u);
}

/// A statement whose argument count is not one, reached after the statements
/// before it lowered, stops lowering with an arity error at its position.
pub proof fn lemma_arity_error(v: CodeGenV, stmts: Seq<StmtV>, i: int)
    requires
        0 <= i < stmts.len(),
        i <= usize::MAX,
        lower_all(v, stmts.take(i)) is Ok,
        stmts[i].args.len() != 1,
    ensures
        lower_all(v, stmts) == Err::<CodeGenV, LowerError>(
            LowerError { stmt: i as usize, kind: LowerErrorKind::Arity { count: stmts[i].args.len() as usize } },
        ),
{
    let e = LowerError { stmt: i as usize, kind: LowerErrorKind::Arity { count: stmts[i].args.len() as usize } };
    assert(stmts.take(i + 1).drop_last() =~= stmts.take(i));
    assert(stmts.take(i + 1).last() == stmts[i]);
    assert(lower_all(v, stmts.take(i + 1)) == Err::<CodeGenV, LowerError>(e));
    lemma_lower_all_prefix_err(v, stmts, i, e);
}

impl CodeGen {
    /// The table has each string at most once, and every call names an entry.
    pub open spec fn inv(&self) -> bool {
        wf(self@)
    }

    /// An empty program.
    pub fn new() -> (r: CodeGen)
        ensures
            r@ == empty_program(),
            r.inv(),
    {
        let r = CodeGen { globals: Vec::new(), calls: Vec::new() };
        proof {
            assert(r@.globals =~= empty_program().globals);
            assert(r@.calls =~= empty_program().calls);
        }
        r
    }

    /// The interned strings, by index.
    pub fn globals(&self) -> (r: &Vec<Vec<char>>)
        ensures
            r@.map_values(|g: Vec<char>| g@) == self@.globals,
    {
        &self.globals
    }

    /// The line-output calls of the entry point, in order, each by the index of
    /// the global it prints.
    pub fn calls(&self) -> (r: &Vec<usize>)
        ensures
            r@.map_values(|k: usize| k as int) == self@.calls,
    {
        &self.calls
    }

    /// The lines the program prints, in order.
    pub fn output(&self) -> (r: Vec<Vec<char>>)
        requires
            self.inv(),
        ensures
            r@.map_values(|l: Vec<char>| l@) == output_lines(self@),
    {
        let mut r: Vec<Vec<char>> = Vec::new();
        let mut i: usize = 0;
        while i < self.calls.len()
            invariant
                self.inv(),
                i <= self.calls.len(),
                r@.map_values(|l: Vec<char>| l@) == output_lines(self@).subrange(0, i as int),
            decreases self.calls.len() - i,
        {
            let k = self.calls[i];
            proof {
                assert(self@.calls[i as int] == k as int);
            }
            let ghost rb = r@;
            let line = copy_chars(&self.globals[k]);
            proof {
                assert(line@ == self@.globals[k as int]);
                assert(output_lines(self@)[i as int] == line@);
            }
            r.push(line);
            proof {
                assert(r@.map_values(|l: Vec<char>| l@) =~= rb.map_values(|l: Vec<char>| l@).push(line@));
                assert(output_lines(self@).subrange(0, i + 1) =~= output_lines(self@).subrange(0, i as int).push(line@));
            }
            i += 1;
        }
        proof {
            assert(output_lines(self@).subrange(0, i as int) =~= output_lines(self@));
        }
        r
    }

    /// Adds `t`, which is not in the table yet, as a new global.
    fn define_str(&mut self, t: Vec<char>) -> (k: usize)
        requires
            old(self).inv(),
            !old(self)@.globals.contains(t@),
        ensures
            final(self).inv(),
            final(self)@.globals == old(self)@.globals.push(t@),
            final(self)@.calls == old(self)@.calls,
            k == old(self)@.globals.len(),
    {
        let k = self.globals.len();
        let ghost t_view = t@;
        self.globals.push(t);
        proof {
            assert(self@.globals =~= old(self)@.globals.push(t_view));
            assert(self@.calls =~= old(self)@.calls);
            assert forall|i: int, j: int| 0 <= i < self@.globals.len() && 0 <= j < self@.globals.len() && i != j
                implies self@.globals[i] != self@.globals[j] by {
                if i == k as int {
                    assert(old(self)@.globals[j] == self@.globals[j]);
                } else if j == k as int {
                    assert(old(self)@.globals[i] == self@.globals[i]);
                }
            }
        }
        k
    }

    /// The index of `t` in the table, adding it first if it is not there.
    fn get_or_globalize_str_literal(&mut self, t: Vec<char>) -> (k: usize)
        requires
            old(self).inv(),
        ensures
            final(self).inv(),
            (final(self)@.globals, k as int) == intern(old(self)@.globals, t@),
            final(self)@.calls == old(self)@.calls,
    {
        let mut i: usize = 0;
        while i < self.globals.len()
            invariant
                self.inv(),
                i <= self.globals.len(),
                forall|j: int| 0 <= j < i ==> self@.globals[j] != t@,
            decreases self.globals.len() - i,
        {
            if chars_eq(&self.globals[i], &t) {
                proof {
                    assert(self@.globals[i as int] == self.globals@[i as int]@);
                    lemma_intern_found(self@.globals, t@, i as int);
                }
                return i;
            }
            proof {
                assert(self@.globals[i as int] == self.globals@[i as int]@);
            }
            i += 1;
        }
        proof {
            if self@.globals.contains(t@) {
                let j = choose|j: int| 0 <= j < self@.globals.len() && self@.globals[j] == t@;
                assert(self@.globals[j] == t@);
            }
        }
        self.define_str(t)
    }

    /// Lowers `echo` with the arguments `args`.
    fn compile_echo(&mut self, args: &Vec<Literal>) -> (r: Result<(), LowerErrorKind>)
        requires
            old(self).inv(),
        ensures
            final(self).inv(),
            match lower_stmt(old(self)@, StmtV { kw: Kw::Echo, args: args@.map_values(|l: Literal| l@) }) {
                Ok(v) => r is Ok && final(self)@ == v,
                Err(k) => r == Err::<(), LowerErrorKind>(k) && final(self)@ == old(self)@,
            },
    {
        if args.len() != 1 {
            return Err(LowerErrorKind::Arity { count: args.len() });
        }
        assert(args@.map_values(|l: Literal| l@)[0] == args@[0]@);
        let t = match literal_text(&args[0]) {
            Some(t) => t,
            None => {
                return Err(LowerErrorKind::UnsupportedLiteral);
            },
        };
        let k = self.get_or_globalize_str_literal(t);
        let ghost mid = self@;
        self.calls.push(k);
        proof {
            assert(self@.calls =~= mid.calls.push(k as int));
            assert(self@.globals =~= mid.globals);
        }
        Ok(())
    }

    /// Lowers one statement, by its keyword.
    fn compile_stmt(&mut self, stmt: &Stmt) -> (r: Result<(), LowerErrorKind>)
        requires
            old(self).inv(),
        ensures
            final(self).inv(),
            match lower_stmt(old(self)@, stmt@) {
                Ok(v) => r is Ok && final(self)@ == v,
                Err(k) => r == Err::<(), LowerErrorKind>(k) && final(self)@ == old(self)@,
            },
    {
        match stmt.kw {
            Kw::Echo => self.compile_echo(&stmt.args),
        }
    }

    /// Lowers the statements in order into the entry point. On the first
    /// statement that cannot be lowered, stops and says which one and why; the
    /// statements before it stay lowered.
    pub fn compile(&mut self, input: Vec<Stmt>) -> (r: Result<(), LowerError>)
        requires
            old(self).inv(),
        ensures
            final(self).inv(),
            match lower_all(old(self)@, stmt_views(input@)) {
                Ok(v) => r is Ok && final(self)@ == v,
                Err(e) => r == Err::<(), LowerError>(e)
                    && lower_all(old(self)@, stmt_views(input@).take(e.stmt as int)) == Ok::<CodeGenV, LowerError>(final(self)@),
            },
    {
        let mut i: usize = 0;
        while i < input.len()
            invariant
                self.inv(),
                i <= input.len(),
                lower_all(old(self)@, stmt_views(input@).take(i as int)) == Ok::<CodeGenV, LowerError>(self@),
            decreases input.len() - i,
        {
            let ghost before = self@;
            proof {
                let sv = stmt_views(input@);
                assert(sv.take(i + 1).drop_last() =~= sv.take(i as int));
                assert(sv.take(i + 1).last() == input@[i as int]@);
            }
            match self.compile_stmt(&input[i]) {
                Ok(()) => {},
                Err(k) => {
                    proof {
                        lemma_lower_all_prefix_err(old(self)@, stmt_views(input@), i as int, LowerError { stmt: i, kind: k });
                    }
                    return Err(LowerError { stmt: i, kind: k });
                },
            }
            i += 1;
        }
        proof {
            assert(stmt_views(input@).take(i as int) =~= stmt_views(input@));
        }
        Ok(())
    }
}

/// Once a prefix fails, every longer prefix fails the same way.
proof fn lemma_lower_all_prefix_err(v: CodeGenV, stmts: Seq<StmtV>, i: int, e: LowerError)
    requires
        0 <= i < stmts.len(),
        lower_all(v, stmts.take(i + 1)) == Err::<CodeGenV, LowerError>(e),
    ensures
        lower_all(v, stmts) == Err::<CodeGenV, LowerError>(e),
    decreases stmts.len() - i,
{
    if i + 1 < stmts.len() {
        assert(stmts.take(i + 2).drop_last() =~= stmts.take(i + 1));
        lemma_lower_all_prefix_err(v, stmts, i + 1, e);
    } else {
        assert(stmts.take(i + 1) =~= stmts);
    }
}

} // verus!
