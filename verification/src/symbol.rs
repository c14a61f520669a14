use vstd::prelude::*;

verus! {

/// An interned name. Two symbols denote the same name exactly when their
/// byte texts are equal, so equality of symbols is equality of names.
#[derive(Debug)]
pub struct Symbol(pub Vec<u8>);

impl View for Symbol {
    type V = Seq<u8>;

    open spec fn view(&self) -> Seq<u8> {
        self.0@
    }
}

/// An upper-case letter, which marks a name as a type name.  Case is
/// judged on the leading byte and covers ASCII only: a name opening with
/// a letter outside ASCII counts as a plain word.
pub open spec fn is_upper(b: u8) -> bool {
    ('A' as u8) <= b && b <= ('Z' as u8)
}

/// A type name starts with an upper-case ASCII letter; every other name
/// — including one opening with a non-ASCII letter — is a plain word or
/// a wildcard formal parameter.
pub open spec fn spec_is_type(name: Seq<u8>) -> bool {
    name.len() > 0 && is_upper(name[0])
}

impl Symbol {
    /// Make the symbol for the given text.
    pub fn new(text: Vec<u8>) -> (r: Symbol)
        ensures
            r@ == text@,
    {
        Symbol(text)
    }

    /// Make the symbol for a fixed, built-in name.
    pub fn from_static(text: &[u8]) -> (r: Symbol)
        ensures
            r@ == text@,
    {
        Symbol(vstd::slice::slice_to_vec(text))
    }

    /// Whether this symbol names a type.
    pub fn is_type(&self) -> (r: bool)
        ensures
            r == spec_is_type(self@),
    {
        self.0.len() > 0 && ('A' as u8) <= self.0[0] && self.0[0] <= ('Z' as u8)
    }

    /// Whether two symbols are the same name.
    pub fn sym_eq(&self, other: &Symbol) -> (r: bool)
        ensures
            r == (self@ == other@),
    {
        bytes_eq(&self.0, &other.0)
    }

    pub fn clone_sym(&self) -> (r: Symbol)
        ensures
            r@ == self@,
    {
        Symbol(clone_bytes(&self.0))
    }
}

/// Whether two byte strings hold the same bytes.
pub fn bytes_eq(a: &Vec<u8>, b: &Vec<u8>) -> (r: bool)
    ensures
        r == (a@ == b@),
{
    if a.len() != b.len() {
        assert(a@ != b@) by {
            assert(a@.len() != b@.len());
        }
        return false;
    }
    let n = a.len();
    let mut i: usize = 0;
    while i < n
        invariant
            n == a@.len() == b@.len(),
            i <= n,
            forall|j: int| 0 <= j < i ==> a@[j] == b@[j],
        decreases n - i,
    {
        if a[i] != b[i] {
            return false;
        }
        i += 1;
    }
    assert(a@ =~= b@);
    true
}

/// A fresh copy of a byte string.
pub fn clone_bytes(a: &Vec<u8>) -> (r: Vec<u8>)
    ensures
        r@ == a@,
{
    let n = a.len();
    let mut r: Vec<u8> = Vec::new();
    let mut i: usize = 0;
    while i < n
        invariant
            n == a@.len(),
            i <= n,
            r@ =~= a@.subrange(0, i as int),
        decreases n - i,
    {
        r.push(a[i]);
        i += 1;
    }
    assert(r@ =~= a@);
    r
}

/// Whether every name in `a` equals the name at the same place in `b`.
pub open spec fn sym_seq_names(s: Seq<Symbol>) -> Seq<Seq<u8>> {
    s.map(|i: int, x: Symbol| x@)
}

/// A fresh copy of a list of symbols.
pub fn clone_symbols(a: &Vec<Symbol>) -> (r: Vec<Symbol>)
    ensures
        sym_seq_names(r@) == sym_seq_names(a@),
{
    let n = a.len();
    let mut r: Vec<Symbol> = Vec::new();
    let mut i: usize = 0;
    while i < n
        invariant
            n == a@.len(),
            i <= n,
            r@.len() == i,
            forall|j: int| 0 <= j < i ==> r@[j]@ == a@[j]@,
        decreases n - i,
    {
        r.push(a[i].clone_sym());
        i += 1;
    }
    assert(sym_seq_names(r@) =~= sym_seq_names(a@));
    r
}

} // verus!
