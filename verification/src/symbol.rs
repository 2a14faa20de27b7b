use vstd::prelude::*;

verus! {

/// An interned identifier.
///
/// Symbols are interned in the process-global table of the `symbol_table`
/// crate; the number held here is the interned index.  Two symbols made from
/// equal strings in the same process are equal.
#[derive(Clone, Copy, Debug, PartialEq, Eq, Structural, Hash, PartialOrd, Ord)]
pub struct Symbol {
    id: u32,
}

/// Interns `s` in the global table of `symbol_table::GlobalSymbol` and hands
/// back the interned index.  The index depends on which strings this process
/// interned before, so nothing is stated of it beyond being non-zero
/// (it is a `NonZeroU32` in the outside crate).
#[verifier::external_body]
fn intern(s: &str) -> (id: u32)
    ensures
        id != 0,
{
    let sym = symbol_table::GlobalSymbol::from(s);
    let n: std::num::NonZeroU32 = sym.into();
    n.get()
}

impl Symbol {
    /// Interns `name`.
    pub fn new(name: &str) -> (s: Symbol)
        ensures
            s.index() != 0,
    {
        Symbol { id: intern(name) }
    }

    /// The interned index of this symbol.
    pub closed spec fn index(self) -> u32 {
        self.id
    }

    /// Symbols with the same index are the same symbol.
    pub proof fn lemma_index_injective(a: Symbol, b: Symbol)
        ensures
            a.index() == b.index() ==> a == b,
    {
    }

    /// The interned index of this symbol.
    pub fn id(&self) -> (r: u32)
        ensures
            r == self.index(),
    {
        self.id
    }
}

} // verus!
