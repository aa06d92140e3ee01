use vstd::prelude::*;

verus! {

/// A keyword of the token-level statement form.
#[derive(Debug, Clone, Copy, PartialEq, Eq, Structural)]
pub enum KeyWord {
    Echo,
}

/// An argument of the token-level statement form.
#[derive(Debug, Clone, PartialEq)]
pub enum Arg {
    Num(i32),
    Str(String),
}

/// A statement as read from the token stream.
#[derive(Debug, Clone, PartialEq)]
pub struct Stmt {
    pub kw: KeyWord,
    pub args: Vec<Arg>,
}

} // verus!
