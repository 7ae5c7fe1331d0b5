//! Selectors: paths of named and indexed segments into a value.
use vstd::prelude::*;
use vstd::slice::slice_subrange;
use vstd::std_specs::convert::FromSpecImpl;
use crate::text::{from_chars, to_chars};

verus! {

/// One step of a path, as a mathematical value.
pub enum Segment {
    /// A field name.
    Field(Seq<char>),
    /// A position in an array or a bag.
    Index(nat),
}

/// A path: its segments in order.
pub type Path = Seq<Segment>;

/// One step of a selector.
#[derive(Debug)]
pub enum SelectorNode {
    Field(String),
    Index(u64),
}

impl View for SelectorNode {
    type V = Segment;

    open spec fn view(&self) -> Segment {
        match self {
            SelectorNode::Field(s) => Segment::Field(s@),
            SelectorNode::Index(i) => Segment::Index(*i as nat),
        }
    }
}

impl Clone for SelectorNode {
    fn clone(&self) -> (r: Self)
        ensures
            r@ == self@,
    {
        match self {
            SelectorNode::Field(s) => SelectorNode::Field(s.clone()),
            SelectorNode::Index(i) => SelectorNode::Index(*i),
        }
    }
}

/// An ordered sequence of path segments.
#[derive(Debug)]
pub struct Selector {
    pub data: Vec<SelectorNode>,
}

impl View for Selector {
    type V = Path;

    open spec fn view(&self) -> Path {
        Seq::new(self.data@.len(), |i: int| self.data@[i]@)
    }
}

/// The position of the first `.` in `s`; the length of `s` if it has none.
pub open spec fn first_dot(s: Seq<char>) -> int
    decreases s.len(),
{
    if s.len() == 0 {
        0
    } else if s[0] == '.' {
        0
    } else {
        1 + first_dot(s.drop_first())
    }
}

/// The pieces of `s` between its dots, each as a field; one piece more
/// than `s` has dots.
pub open spec fn dotted_fields(s: Seq<char>) -> Path
    decreases s.len(),
{
    let i = first_dot(s);
    if 0 <= i < s.len() {
        seq![Segment::Field(s.take(i))] + dotted_fields(s.skip(i + 1))
    } else {
        seq![Segment::Field(s)]
    }
}

/// The path that a dotted string denotes: no segment for the empty string,
/// otherwise the fields between the dots.
pub open spec fn dotted_path(s: Seq<char>) -> Path {
    if s.len() == 0 {
        Seq::empty()
    } else {
        dotted_fields(s)
    }
}

/// `first_dot` is the first position that holds a dot, or the length.
pub proof fn lemma_first_dot(s: Seq<char>)
    ensures
        0 <= first_dot(s) <= s.len(),
        first_dot(s) < s.len() ==> s[first_dot(s)] == '.',
        forall|j: int| 0 <= j < first_dot(s) ==> s[j] != '.',
    decreases s.len(),
{
    if s.len() > 0 && s[0] != '.' {
        let rest = s.drop_first();
        lemma_first_dot(rest);
        assert forall|j: int| 0 <= j < first_dot(s) implies s[j] != '.' by {
            if j > 0 {
                assert(s[j] == rest[j - 1]);
            }
        }
    }
}

/// A position that holds a dot, with none before it, is `first_dot`.
proof fn lemma_first_dot_is(s: Seq<char>, i: int)
    requires
        0 <= i <= s.len(),
        i < s.len() ==> s[i] == '.',
        forall|j: int| 0 <= j < i ==> s[j] != '.',
    ensures
        first_dot(s) == i,
{
    lemma_first_dot(s);
}

impl Selector {
    /// The selector without segments.
    pub fn new() -> (r: Selector)
        ensures
            r@ == Seq::<Segment>::empty(),
    {
        let r = Selector { data: Vec::new() };
        assert(r@ =~= Seq::<Segment>::empty());
        r
    }

    /// The number of segments.
    pub fn len(&self) -> (n: usize)
        ensures
            n == self@.len(),
    {
        self.data.len()
    }

    /// The segment at position `i`.
    pub fn get(&self, i: usize) -> (r: Option<&SelectorNode>)
        ensures
            i < self@.len() ==> (r matches Some(n) && n@ == self@[i as int]),
            i >= self@.len() ==> r is None,
    {
        if i < self.data.len() {
            Some(&self.data[i])
        } else {
            None
        }
    }

    /// The last segment.
    pub fn last(&self) -> (r: Option<&SelectorNode>)
        ensures
            self@.len() > 0 ==> (r matches Some(n) && n@ == self@.last()),
            self@.len() == 0 ==> r is None,
    {
        let n = self.data.len();
        if n > 0 {
            Some(&self.data[n - 1])
        } else {
            None
        }
    }

    /// Appends a segment.
    pub fn push(&mut self, node: SelectorNode)
        ensures
            final(self)@ == old(self)@.push(node@),
    {
        self.data.push(node);
        assert(self@ =~= old(self)@.push(node@));
    }

    /// The segments from position `from` on.
    pub fn tail_from(&self, from: usize) -> (r: Selector)
        ensures
            r@ == self@.skip(if from <= self@.len() { from as int } else { self@.len() as int }),
    {
        let mut out = Selector::new();
        let mut i: usize = if from <= self.data.len() {
            from
        } else {
            self.data.len()
        };
        let ghost start = i as int;
        while i < self.data.len()
            invariant
                0 <= start <= i <= self.data.len(),
                self@.len() == self.data.len(),
                out@ == self@.subrange(start, i as int),
            decreases self.data.len() - i,
        {
            out.push(self.data[i].clone());
            i += 1;
            assert(out@ =~= self@.subrange(start, i as int));
        }
        assert(out@ =~= self@.skip(start));
        out
    }

    /// The first segment and the rest, unless the selector is empty.
    pub fn split_first(&self) -> (r: Option<(SelectorNode, Selector)>)
        ensures
            self@.len() == 0 ==> r is None,
            self@.len() > 0 ==> (r matches Some((head, tail)) && head@ == self@[0] && tail@
                == self@.skip(1)),
    {
        if self.data.len() == 0 {
            None
        } else {
            Some((self.data[0].clone(), self.tail_from(1)))
        }
    }

    /// `self` followed by the segments of `other`.
    pub fn concat(&self, other: &Selector) -> (r: Selector)
        ensures
            r@ == self@ + other@,
    {
        let mut out = self.tail_from(0);
        assert(out@ =~= self@);
        let mut i: usize = 0;
        while i < other.data.len()
            invariant
                i <= other.data.len(),
                out@ == self@ + other@.take(i as int),
            decreases other.data.len() - i,
        {
            out.push(other.data[i].clone());
            i += 1;
            assert(out@ =~= self@ + other@.take(i as int));
        }
        assert(out@ =~= self@ + other@);
        out
    }

    /// The selector that a dotted string such as `hr.employees.name`
    /// denotes: one field per piece between the dots.
    pub fn from_dotted(s: &str) -> (r: Selector)
        ensures
            r@ == dotted_path(s@),
    {
        let chars = to_chars(s);
        let mut out = Selector::new();
        if chars.len() == 0 {
            return out;
        }
        let mut start: usize = 0;
        let mut i: usize = 0;
        assert(chars@.skip(0) =~= chars@);
        assert(out@ + dotted_fields(chars@) =~= dotted_fields(chars@));
        while i < chars.len()
            invariant
                start <= i <= chars.len(),
                forall|j: int| start <= j < i ==> chars@[j] != '.',
                dotted_fields(chars@) == out@ + dotted_fields(chars@.skip(start as int)),
            decreases chars.len() - i,
        {
            if chars[i] == '.' {
                let piece = from_chars(slice_subrange(chars.as_slice(), start, i));
                proof {
                    let rest = chars@.skip(start as int);
                    lemma_first_dot_is(rest, i - start);
                    assert(rest.take(i - start) =~= chars@.subrange(start as int, i as int));
                    assert(rest.skip(i - start + 1) =~= chars@.skip(i + 1));
                }
                let ghost before = out@;
                out.push(SelectorNode::Field(piece));
                assert(out@ + dotted_fields(chars@.skip(i + 1)) =~= before + dotted_fields(chars@.skip(start as int)));
                start = i + 1;
            }
            i += 1;
        }
        let piece = from_chars(slice_subrange(chars.as_slice(), start, i));
        proof {
            let rest = chars@.skip(start as int);
            lemma_first_dot_is(rest, rest.len() as int);
            assert(rest =~= chars@.subrange(start as int, i as int));
        }
        let ghost before = out@;
        out.push(SelectorNode::Field(piece));
        assert(out@ =~= before + dotted_fields(chars@.skip(start as int)));
        out
    }
}

impl Clone for Selector {
    fn clone(&self) -> (r: Self)
        ensures
            r@ == self@,
    {
        let r = self.tail_from(0);
        assert(r@ =~= self@);
        r
    }
}

impl Default for Selector {
    fn default() -> (r: Self)
        ensures
            r@ == Seq::<Segment>::empty(),
    {
        Selector::new()
    }
}

impl<'a> From<&'a str> for Selector {
    /// The selector of a dotted string; see [`Selector::from_dotted`].
    fn from(s: &'a str) -> (r: Selector)
        ensures
            r@ == dotted_path(s@),
    {
        Selector::from_dotted(s)
    }
}

impl<'a> FromSpecImpl<&'a str> for Selector {
    open spec fn obeys_from_spec() -> bool {
        false
    }

    open spec fn from_spec(s: &'a str) -> Self {
        arbitrary()
    }
}

} // verus!
