use vstd::prelude::*;

pub mod stmt;

verus! {

/// A literal value as written in the source.
///
/// A floating-point literal keeps its decimal text (`<digits>.<digits>`), which is
/// its exact value; turning it into a machine float is left to the backend.
#[derive(Debug, Clone)]
pub enum Literal {
    Str(String),
    Int(i32),
    Float(String),
}

/// The mathematical value of a [`Literal`].
pub enum LiteralV {
    Str(Seq<char>),
    Int(int),
    Float(Seq<char>),
}

impl View for Literal {
    type V = LiteralV;

    open spec fn view(&self) -> LiteralV {
        match self {
            Literal::Str(s) => LiteralV::Str(s@),
            Literal::Int(n) => LiteralV::Int(*n as int),
            Literal::Float(t) => LiteralV::Float(t@),
        }
    }
}

impl PartialEq for Literal {
    fn eq(&self, o: &Literal) -> (r: bool) {
        match (self, o) {
            (Literal::Str(a), Literal::Str(b)) => *a == *b,
            (Literal::Int(a), Literal::Int(b)) => *a == *b,
            (Literal::Float(a), Literal::Float(b)) => *a == *b,
            _ => false,
        }
    }
}

impl vstd::std_specs::cmp::PartialEqSpecImpl for Literal {
    open spec fn obeys_eq_spec() -> bool {
        true
    }

    open spec fn eq_spec(&self, o: &Literal) -> bool {
        self@ == o@
    }
}

impl From<String> for Literal {
    fn from(value: String) -> (r: Literal)
        ensures
            r == Literal::Str(value),
    {
        Literal::Str(value)
    }
}

impl vstd::std_specs::convert::FromSpecImpl<String> for Literal {
    open spec fn obeys_from_spec() -> bool {
        true
    }

    open spec fn from_spec(v: String) -> Literal {
        Literal::Str(v)
    }
}

/// A statement keyword.
#[derive(Debug, PartialEq, Eq, Structural, Clone, Copy)]
pub enum Kw {
    Echo,
}

/// A keyword with its ordered arguments.
#[derive(Debug, Clone)]
pub struct Stmt {
    pub kw: Kw,
    pub args: Vec<Literal>,
}

/// The mathematical value of a [`Stmt`].
pub struct StmtV {
    pub kw: Kw,
    pub args: Seq<LiteralV>,
}

impl View for Stmt {
    type V = StmtV;

    open spec fn view(&self) -> StmtV {
        StmtV { kw: self.kw, args: self.args@.map_values(|l: Literal| l@) }
    }
}

impl PartialEq for Stmt {
    fn eq(&self, o: &Stmt) -> (r: bool) {
        if self.kw != o.kw || self.args.len() != o.args.len() {
            proof {
                assert(self@.args.len() == self.args@.len());
                assert(o@.args.len() == o.args@.len());
            }
            return false;
        }
        let mut i: usize = 0;
        while i < self.args.len()
            invariant
                self.args.len() == o.args.len(),
                i <= self.args.len(),
                forall|j: int| 0 <= j < i ==> self.args@[j]@ == o.args@[j]@,
            decreases self.args.len() - i,
        {
            if self.args[i] != o.args[i] {
                proof {
                    assert(self@.args[i as int] == self.args@[i as int]@);
                    assert(o@.args[i as int] == o.args@[i as int]@);
                }
                return false;
            }
            i += 1;
        }
        proof {
            assert(self@.args =~= o@.args);
        }
        true
    }
}

impl vstd::std_specs::cmp::PartialEqSpecImpl for Stmt {
    open spec fn obeys_eq_spec() -> bool {
        true
    }

    open spec fn eq_spec(&self, o: &Stmt) -> bool {
        self@ == o@
    }
}

} // verus!
