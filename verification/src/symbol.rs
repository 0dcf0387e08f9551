//! Interned symbols: small ids that stand for names.
use vstd::prelude::*;

verus! {

/// A kind of symbol, with a value that stands for "no symbol".
pub trait Symbol: Sized {
    /// The symbol that stands for "no symbol".
    fn invalid() -> Self;
}

/// The base of the symbols made for tests: a test symbol is this plus a character.
pub const TEST_SYMBOL_BASE: u32 = 0xBe57_7e57;

/// A symbol naming a signal.
#[derive(Debug, Copy, Clone, PartialEq, Eq, Structural, Hash)]
pub struct Signal(pub u32);

impl Signal {
    /// A symbol made from a character, for tests.
    pub fn test(n: char) -> (r: Self)
        ensures
            r.0 == TEST_SYMBOL_BASE + (n as u32),
    {
        Signal(TEST_SYMBOL_BASE + n as u32)
    }
}

impl Symbol for Signal {
    fn invalid() -> (r: Self)
        ensures
            r.0 == 0,
    {
        Signal(0)
    }
}

/// A symbol naming an identifier.
#[derive(Debug, Copy, Clone, PartialEq, Eq, Structural, Hash)]
pub struct Ident(pub u32);

impl Ident {
    /// A symbol made from a character, for tests.
    pub fn test(n: char) -> (r: Self)
        ensures
            r.0 == TEST_SYMBOL_BASE + (n as u32),
    {
        Ident(TEST_SYMBOL_BASE + n as u32)
    }
}

impl Symbol for Ident {
    fn invalid() -> (r: Self)
        ensures
            r.0 == 0,
    {
        Ident(0)
    }
}

} // verus!
