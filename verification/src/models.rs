//! Rows of one unnamed column: whole numbers as the smallest table.
use vstd::prelude::*;
use vstd::std_specs::convert::FromSpecImpl;
use crate::text::{decimal, from_chars, to_chars, u64_to_chars};

verus! {

/// A row of one unnamed column that holds a whole number; the column goes
/// by the name `_1`.
#[derive(Debug, Clone, Copy, PartialEq, Eq, Structural)]
pub struct Atom {
    data: u64,
}

impl View for Atom {
    type V = nat;

    closed spec fn view(&self) -> nat {
        self.data as nat
    }
}

/// The text of an atom: an object of the one field `_1`, on three lines.
pub open spec fn atom_text(n: nat) -> Seq<char> {
    seq!['{', '\n', ' ', ' ', '\'', '_', '1', '\'', ':', ' '] + decimal(n) + seq![',', '\n', '}', '\n']
}

/// The text of the atoms of a bag, each indented and followed by a comma.
pub open spec fn atoms_text(atoms: Seq<nat>) -> Seq<char>
    decreases atoms.len(),
{
    if atoms.len() == 0 {
        Seq::empty()
    } else {
        atoms_text(atoms.drop_last()) + seq![' ', ' '] + atom_text(atoms.last()) + seq![',', '\n']
    }
}

/// The text of a bag of atoms: the atoms between `<<` and `>>`.
pub open spec fn array_text(atoms: Seq<nat>) -> Seq<char> {
    seq!['<', '<', '\n'] + atoms_text(atoms) + seq!['>', '>', '\n']
}

/// Appends all of `piece` to `out`.
fn append(out: &mut Vec<char>, piece: &Vec<char>)
    ensures
        final(out)@ == old(out)@ + piece@,
{
    let mut i: usize = 0;
    assert(out@ =~= old(out)@ + piece@.take(0));
    while i < piece.len()
        invariant
            i <= piece.len(),
            out@ == old(out)@ + piece@.take(i as int),
        decreases piece.len() - i,
    {
        out.push(piece[i]);
        i += 1;
        assert(out@ =~= old(out)@ + piece@.take(i as int));
    }
    assert(piece@.take(i as int) =~= piece@);
}

impl Atom {
    /// The number that the atom holds.
    pub fn value(&self) -> (n: u64)
        ensures
            n == self@,
    {
        self.data
    }

    /// The characters of the atom's text.
    fn chars(&self) -> (out: Vec<char>)
        ensures
            out@ == atom_text(self@),
    {
        let mut out = to_chars("{\n  '_1': ");
        proof {
            reveal_strlit("{\n  '_1': ");
            assert(out@ =~= seq!['{', '\n', ' ', ' ', '\'', '_', '1', '\'', ':', ' ']);
        }
        let digits = u64_to_chars(self.data);
        append(&mut out, &digits);
        let ghost before = out@;
        out.push(',');
        out.push('\n');
        out.push('}');
        out.push('\n');
        assert(out@ =~= before + seq![',', '\n', '}', '\n']);
        out
    }

    /// The text of the atom; see [`atom_text`].
    pub fn render(&self) -> (text: String)
        ensures
            text@ == atom_text(self@),
    {
        let out = self.chars();
        from_chars(out.as_slice())
    }
}

impl From<u64> for Atom {
    /// The atom that holds `v`.
    fn from(v: u64) -> (a: Atom)
        ensures
            a@ == v,
    {
        Atom { data: v }
    }
}

impl FromSpecImpl<u64> for Atom {
    open spec fn obeys_from_spec() -> bool {
        false
    }

    open spec fn from_spec(v: u64) -> Self {
        arbitrary()
    }
}

/// A bag of atoms.
#[derive(Debug)]
pub struct Array {
    data: Vec<Atom>,
}

impl View for Array {
    type V = Seq<nat>;

    closed spec fn view(&self) -> Seq<nat> {
        Seq::new(self.data@.len(), |i: int| self.data@[i]@)
    }
}

impl Array {
    /// The number of atoms.
    pub fn len(&self) -> (n: usize)
        ensures
            n == self@.len(),
    {
        self.data.len()
    }

    /// The bag of the atoms that hold the numbers of `v`, in order.
    pub fn from_slice(v: &[u64]) -> (a: Array)
        ensures
            a@ == Seq::new(v@.len(), |i: int| v@[i] as nat),
    {
        let mut data: Vec<Atom> = Vec::new();
        let mut i: usize = 0;
        while i < v.len()
            invariant
                i <= v@.len(),
                data.len() == i,
                forall|j: int| 0 <= j < i ==> (#[trigger] data@[j])@ == v@[j],
            decreases v@.len() - i,
        {
            data.push(Atom::from(v[i]));
            i += 1;
        }
        let a = Array { data };
        assert(a@ =~= Seq::new(v@.len(), |i: int| v@[i] as nat));
        a
    }

    /// The text of the bag; see [`array_text`].
    pub fn render(&self) -> (text: String)
        ensures
            text@ == array_text(self@),
    {
        let mut out: Vec<char> = Vec::new();
        out.push('<');
        out.push('<');
        out.push('\n');
        let ghost head = out@;
        let mut i: usize = 0;
        assert(self@.take(0) =~= Seq::<nat>::empty());
        assert(out@ =~= head + atoms_text(self@.take(0)));
        while i < self.data.len()
            invariant
                i <= self.data.len(),
                self@.len() == self.data.len(),
                out@ == head + atoms_text(self@.take(i as int)),
            decreases self.data.len() - i,
        {
            proof {
                let next = self@.take(i + 1);
                assert(next.drop_last() =~= self@.take(i as int));
                assert(next.last() == self.data@[i as int]@);
            }
            let ghost before = out@;
            out.push(' ');
            out.push(' ');
            let atom = self.data[i].chars();
            append(&mut out, &atom);
            out.push(',');
            out.push('\n');
            assert(out@ =~= before + seq![' ', ' '] + atom@ + seq![',', '\n']);
            i += 1;
        }
        assert(self@.take(i as int) =~= self@);
        let ghost body = out@;
        out.push('>');
        out.push('>');
        out.push('\n');
        assert(out@ =~= array_text(self@));
        from_chars(out.as_slice())
    }
}

impl Clone for Array {
    fn clone(&self) -> (r: Self)
        ensures
            r@ == self@,
    {
        let mut data: Vec<Atom> = Vec::new();
        let mut i: usize = 0;
        while i < self.data.len()
            invariant
                i <= self.data.len(),
                data.len() == i,
                forall|j: int| 0 <= j < i ==> (#[trigger] data@[j])@ == self.data@[j]@,
            decreases self.data.len() - i,
        {
            data.push(self.data[i]);
            i += 1;
        }
        let r = Array { data };
        assert(r@ =~= self@);
        r
    }
}

impl<'a> From<&'a [u64]> for Array {
    /// The bag of the atoms that hold the numbers of `v`.
    fn from(v: &'a [u64]) -> (a: Array)
        ensures
            a@ == Seq::new(v@.len(), |i: int| v@[i] as nat),
    {
        Array::from_slice(v)
    }
}

impl<'a> FromSpecImpl<&'a [u64]> for Array {
    open spec fn obeys_from_spec() -> bool {
        false
    }

    open spec fn from_spec(v: &'a [u64]) -> Self {
        arbitrary()
    }
}

} // verus!
