//! The atomic attribute type: an immutable named token standing for one
//! relation column. Two attributes are the same entity exactly when their
//! names (byte strings) are equal.

use vstd::prelude::*;

verus! {

/// One relation column, identified by its name.
pub struct Attribute {
    pub name: Vec<u8>,
}

impl View for Attribute {
    type V = Seq<u8>;

    open spec fn view(&self) -> Seq<u8> {
        self.name@
    }
}

/// Equality of two byte strings, element by element.
pub fn bytes_eq(a: &Vec<u8>, b: &Vec<u8>) -> (r: bool)
    ensures
        r == (a@ == b@),
{
    if a.len() != b.len() {
        assert(a@ != b@);
        return false;
    }
    let n: usize = a.len();
    let mut i: usize = 0;
    while i < n
        invariant
            n == a@.len() == b@.len(),
            i <= n,
            forall|j: int| 0 <= j < i ==> a@[j] == b@[j],
        decreases n - i,
    {
        if a[i] != b[i] {
            return false;
        }
        i += 1;
    }
    assert(a@ =~= b@);
    true
}

/// A fresh copy of a byte string.
pub fn bytes_dup(a: &Vec<u8>) -> (r: Vec<u8>)
    ensures
        r@ == a@,
{
    let n: usize = a.len();
    let mut r: Vec<u8> = Vec::new();
    let mut i: usize = 0;
    while i < n
        invariant
            n == a@.len(),
            i <= n,
            r@ == a@.take(i as int),
        decreases n - i,
    {
        r.push(a[i]);
        assert(r@ =~= a@.take(i as int + 1));
        i += 1;
    }
    assert(r@ =~= a@);
    r
}

impl Attribute {
    /// Builds the attribute named by the given bytes.
    pub fn new(name: Vec<u8>) -> (r: Attribute)
        ensures
            r@ == name@,
    {
        Attribute { name }
    }

    /// The attribute's name.
    pub fn name(&self) -> (r: &Vec<u8>)
        ensures
            r@ == self@,
    {
        &self.name
    }

    /// Whether two attributes denote the same column.
    pub fn same_as(&self, other: &Attribute) -> (r: bool)
        ensures
            r == (self@ == other@),
    {
        bytes_eq(&self.name, &other.name)
    }

    /// A fresh copy of this attribute.
    pub fn duplicate(&self) -> (r: Attribute)
        ensures
            r@ == self@,
    {
        Attribute { name: bytes_dup(&self.name) }
    }
}

} // verus!
