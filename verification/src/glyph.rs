//! Glyphs: in the caller's coordinates, and as sets of catalog positions.

use crate::bits::{
    bit, lemma_bit_or, lemma_bit_single, lemma_bit_zero, lemma_members_determine, members_of,
};
use crate::stroke::{InternalStroke, Stroke};
use vstd::prelude::*;
use vstd::std_specs::cmp::{PartialEqSpec, PartialEqSpecImpl};

verus! {

/// A combination of strokes in the caller's coordinates.
#[derive(Clone, Debug, PartialEq, Eq)]
pub struct Glyph {
    pub strokes: Vec<Stroke>,
}

/// A set of catalog positions, each below 64: once as a list of its members
/// and once as an identifier whose bit `i` is set when `i` is a member.
#[derive(Debug)]
pub struct InternalGlyph {
    pub strokes: Vec<InternalStroke>,
    pub identifier: u64,
}

impl View for InternalGlyph {
    type V = Set<usize>;

    /// The set of positions that the identifier stands for.
    open spec fn view(&self) -> Set<usize> {
        members_of(self.identifier)
    }
}

/// The members of `x` below `n`, in increasing order.
pub open spec fn members_below(x: u64, n: nat) -> Seq<usize>
    decreases n,
{
    if n == 0 {
        Seq::empty()
    } else if bit(x, (n - 1) as u64) {
        members_below(x, (n - 1) as nat).push((n - 1) as usize)
    } else {
        members_below(x, (n - 1) as nat)
    }
}

/// What `members_below` lists: every member below `n` once, in increasing order.
pub proof fn lemma_members_below(x: u64, n: nat)
    requires
        n <= 64,
    ensures
        forall|k: int|
            0 <= k < members_below(x, n).len() ==> (#[trigger] members_below(x, n)[k]) < n
                && members_of(x).contains(members_below(x, n)[k]),
        forall|j: int, k: int|
            0 <= j < k < members_below(x, n).len() ==> members_below(x, n)[j] < members_below(
                x,
                n,
            )[k],
        forall|i: usize|
            i < n && members_of(x).contains(i) ==> members_below(x, n).contains(i),
    decreases n,
{
    if n > 0 {
        let m = (n - 1) as nat;
        lemma_members_below(x, m);
        let shorter = members_below(x, m);
        let longer = members_below(x, n);
        assert forall|i: usize| i < n && members_of(x).contains(i) implies longer.contains(i) by {
            if i < m {
                let k = choose|k: int| 0 <= k < shorter.len() && shorter[k] == i;
                assert(longer[k] == i);
            } else {
                assert(bit(x, m as u64));
                assert(longer[longer.len() - 1] == i);
            }
        }
    }
}

/// The positions that a list of strokes names, in the order of the list.
pub open spec fn indices_of(strokes: Seq<InternalStroke>) -> Seq<usize> {
    Seq::new(strokes.len(), |k: int| strokes[k].index)
}

/// The list names exactly the members that the identifier stands for, and
/// none of them twice.
pub open spec fn lists(indices: Seq<usize>, identifier: u64) -> bool {
    &&& indices.no_duplicates()
    &&& forall|i: usize| indices.contains(i) <==> members_of(identifier).contains(i)
}

/// A list stays exact when a new member is put at its end and its bit is set.
pub proof fn lemma_lists_push(indices: Seq<usize>, identifier: u64, index: usize)
    requires
        lists(indices, identifier),
        index < 64,
        !members_of(identifier).contains(index),
    ensures
        lists(indices.push(index), identifier | (1u64 << (index as u64))),
        members_of(identifier | (1u64 << (index as u64))) == members_of(identifier).insert(index),
{
    let longer = indices.push(index);
    let grown = identifier | (1u64 << (index as u64));
    assert forall|i: usize| members_of(grown).contains(i) == (members_of(identifier).contains(i)
        || i == index) by {
        if i < 64 {
            lemma_bit_or(identifier, 1u64 << (index as u64), i as u64);
            lemma_bit_single(index as u64, i as u64);
        }
    }
    assert(members_of(grown) =~= members_of(identifier).insert(index));
    assert forall|i: usize| longer.contains(i) <==> members_of(grown).contains(i) by {
        if longer.contains(i) {
            let k = choose|k: int| 0 <= k < longer.len() && longer[k] == i;
            if k < indices.len() {
                assert(indices[k] == i);
                assert(indices.contains(i));
            }
        }
        if members_of(grown).contains(i) {
            if i == index {
                assert(longer[longer.len() - 1] == i);
            } else {
                assert(indices.contains(i));
                let k = choose|k: int| 0 <= k < indices.len() && indices[k] == i;
                assert(longer[k] == i);
            }
        }
    }
    assert forall|a: int, b: int| 0 <= a < longer.len() && 0 <= b < longer.len() && a
        != b implies longer[a] != longer[b] by {
        if a < indices.len() {
            assert(indices.contains(indices[a]));
        }
        if b < indices.len() {
            assert(indices.contains(indices[b]));
        }
    }
}

/// The empty list is exact for the identifier without bits.
pub proof fn lemma_lists_none()
    ensures
        lists(Seq::<usize>::empty(), 0),
        members_of(0) == Set::<usize>::empty(),
{
    assert forall|i: usize| !members_of(0).contains(i) by {
        if i < 64 {
            lemma_bit_zero(i as u64);
        }
    }
    assert(members_of(0) =~= Set::<usize>::empty());
}

/// The increasing list of the members of an identifier is exact.
pub proof fn lemma_lists_members_below(x: u64)
    ensures
        lists(members_below(x, 64), x),
{
    lemma_members_below(x, 64);
    let listed = members_below(x, 64);
    assert forall|i: usize| listed.contains(i) implies members_of(x).contains(i) by {
        let k = choose|k: int| 0 <= k < listed.len() && listed[k] == i;
        assert(members_of(x).contains(listed[k]));
    }
}

impl InternalGlyph {
    /// The listed members, in the order of the list.
    pub open spec fn indices(&self) -> Seq<usize> {
        indices_of(self.strokes@)
    }

    /// The list and the identifier agree, and the list names no member twice.
    pub open spec fn wf(&self) -> bool {
        lists(self.indices(), self.identifier)
    }

    /// The identifier is that of the union of `a` and `b`: their identifiers
    /// joined bit by bit.
    pub open spec fn is_union_of(&self, a: &InternalGlyph, b: &InternalGlyph) -> bool {
        self.identifier == a.identifier | b.identifier
    }

    /// The set without members.
    pub fn empty() -> (r: InternalGlyph)
        ensures
            r.wf(),
            r@ == Set::<usize>::empty(),
            r.identifier == 0,
            r.indices() == Seq::<usize>::empty(),
    {
        let r = InternalGlyph { strokes: Vec::new(), identifier: 0 };
        proof {
            assert forall|i: usize| !r@.contains(i) by {
                if i < 64 {
                    lemma_bit_zero(i as u64);
                }
            }
            assert(r@ =~= Set::<usize>::empty());
            assert(r.indices() =~= Seq::<usize>::empty());
        }
        r
    }

    /// The set whose one member is `index`.
    pub fn single(index: usize) -> (r: InternalGlyph)
        requires
            index < 64,
        ensures
            r.wf(),
            r@ == set![index],
            r.identifier == 1u64 << (index as u64),
            r.indices() == seq![index],
    {
        let mut strokes: Vec<InternalStroke> = Vec::new();
        strokes.push(InternalStroke { index });
        let r = InternalGlyph { strokes, identifier: 1u64 << (index as u64) };
        proof {
            assert forall|i: usize| r@.contains(i) == (i == index) by {
                if i < 64 {
                    lemma_bit_single(index as u64, i as u64);
                }
            }
            assert(r@ =~= set![index]);
            assert(r.indices() =~= seq![index]);
            assert(r.indices()[0] == index);
        }
        r
    }

    /// The set that `identifier` stands for, its members listed in
    /// increasing order.
    pub fn from_identifier(identifier: u64) -> (r: InternalGlyph)
        ensures
            r.wf(),
            r.identifier == identifier,
            r.indices() == members_below(identifier, 64),
    {
        let mut strokes: Vec<InternalStroke> = Vec::new();
        let mut index: usize = 0;
        while index < 64
            invariant
                index <= 64,
                indices_of(strokes@) == members_below(identifier, index as nat),
            decreases 64 - index,
        {
            let ghost shorter = strokes@;
            if (identifier >> (index as u64)) & 1 == 1 {
                strokes.push(InternalStroke { index });
                assert(indices_of(strokes@) =~= indices_of(shorter).push(index));
            }
            index += 1;
        }
        proof {
            lemma_lists_members_below(identifier);
        }
        InternalGlyph { strokes, identifier }
    }

    /// Whether `index` is a member.
    pub fn contains(&self, index: usize) -> (r: bool)
        ensures
            r == self@.contains(index),
    {
        index < 64 && (self.identifier >> (index as u64)) & 1 == 1
    }

    /// The members, in the order in which the set lists them.
    pub fn members(&self) -> (r: Vec<usize>)
        ensures
            r@ == self.indices(),
    {
        let mut r: Vec<usize> = Vec::new();
        let mut k: usize = 0;
        while k < self.strokes.len()
            invariant
                k <= self.strokes.len(),
                r.len() == k,
                forall|j: int| 0 <= j < k ==> r@[j] == self.strokes@[j].index,
            decreases self.strokes.len() - k,
        {
            r.push(self.strokes[k].index);
            k += 1;
        }
        assert(r@ =~= self.indices());
        r
    }

    /// The identifier: bit `i` is set when `i` is a member.
    pub fn identifier(&self) -> (r: u64)
        ensures
            r == self.identifier,
    {
        self.identifier
    }

    /// The set with the members of both sets.
    pub fn union(&self, other: &InternalGlyph) -> (r: InternalGlyph)
        requires
            self.wf(),
            other.wf(),
        ensures
            r.wf(),
            r.is_union_of(self, other),
            r@ == self@.union(other@),
    {
        let mut strokes: Vec<InternalStroke> = Vec::new();
        let mut k: usize = 0;
        while k < self.strokes.len()
            invariant
                k <= self.strokes.len(),
                strokes.len() == k,
                forall|j: int| 0 <= j < k ==> strokes@[j] == self.strokes@[j],
            decreases self.strokes.len() - k,
        {
            strokes.push(self.strokes[k]);
            k += 1;
        }
        assert(indices_of(strokes@) =~= self.indices());
        let mut identifier = self.identifier;
        let ghost theirs = other.indices();
        let mut k: usize = 0;
        while k < other.strokes.len()
            invariant
                k <= other.strokes.len(),
                theirs == other.indices(),
                other.wf(),
                lists(indices_of(strokes@), identifier),
                self@.subset_of(members_of(identifier)),
                members_of(identifier).subset_of(self@.union(other@)),
                forall|j: int| 0 <= j < k ==> members_of(identifier).contains(#[trigger] theirs[j]),
            decreases other.strokes.len() - k,
        {
            let stroke = other.strokes[k];
            let index: usize = stroke.index;
            proof {
                assert(index == theirs[k as int]);
                assert(theirs.contains(index));
            }
            if (identifier >> (index as u64)) & 1 != 1 {
                let ghost shorter = strokes@;
                proof {
                    lemma_lists_push(indices_of(shorter), identifier, index);
                }
                strokes.push(stroke);
                identifier = identifier | (1u64 << (index as u64));
                assert(indices_of(strokes@) =~= indices_of(shorter).push(index));
            }
            k += 1;
        }
        let r = InternalGlyph { strokes, identifier };
        proof {
            let joined = self.identifier | other.identifier;
            assert forall|i: usize| members_of(joined).contains(i) == (self@.contains(i)
                || other@.contains(i)) by {
                if i < 64 {
                    lemma_bit_or(self.identifier, other.identifier, i as u64);
                }
            }
            assert forall|i: usize| other@.contains(i) implies members_of(identifier).contains(
                i,
            ) by {
                assert(theirs.contains(i));
            }
            assert(members_of(identifier) =~= members_of(joined));
            lemma_members_determine(identifier, joined);
            assert(r@ =~= self@.union(other@));
        }
        r
    }
}

/// Two sets are equal when their identifiers are.
impl PartialEq for InternalGlyph {
    fn eq(&self, other: &InternalGlyph) -> (r: bool) {
        self.identifier == other.identifier
    }
}

impl PartialEqSpecImpl for InternalGlyph {
    open spec fn obeys_eq_spec() -> bool {
        true
    }

    open spec fn eq_spec(&self, other: &InternalGlyph) -> bool {
        self.identifier == other.identifier
    }
}

impl Clone for InternalGlyph {
    /// A copy with the same list and the same identifier.
    fn clone(&self) -> (r: InternalGlyph)
        ensures
            r.strokes@ == self.strokes@,
            r.identifier == self.identifier,
    {
        let mut strokes: Vec<InternalStroke> = Vec::new();
        let mut k: usize = 0;
        while k < self.strokes.len()
            invariant
                k <= self.strokes.len(),
                strokes.len() == k,
                forall|j: int| 0 <= j < k ==> strokes@[j] == self.strokes@[j],
            decreases self.strokes.len() - k,
        {
            strokes.push(self.strokes[k]);
            k += 1;
        }
        assert(strokes@ =~= self.strokes@);
        InternalGlyph { strokes, identifier: self.identifier }
    }
}

/// Two sets are equal exactly when they have the same members.
pub proof fn lemma_equal_iff_same_members(a: InternalGlyph, b: InternalGlyph)
    ensures
        PartialEqSpec::eq_spec(&a, &b) <==> a@ == b@,
{
    if a@ == b@ {
        lemma_members_determine(a.identifier, b.identifier);
    }
}

/// The union does not depend on the order of its two arguments.
pub proof fn lemma_union_commutative(
    a: InternalGlyph,
    b: InternalGlyph,
    ab: InternalGlyph,
    ba: InternalGlyph,
)
    requires
        ab.is_union_of(&a, &b),
        ba.is_union_of(&b, &a),
    ensures
        PartialEqSpec::eq_spec(&ab, &ba),
        ab@ == ba@,
{
    let x = a.identifier;
    let y = b.identifier;
    assert(x | y == y | x) by (bit_vector);
}

/// The union of a set with itself is that set.
pub proof fn lemma_union_idempotent(a: InternalGlyph, aa: InternalGlyph)
    requires
        aa.is_union_of(&a, &a),
    ensures
        PartialEqSpec::eq_spec(&aa, &a),
        aa@ == a@,
{
    let x = a.identifier;
    assert(x | x == x) by (bit_vector);
}

/// The union with the empty set, on either side, is the set itself.
pub proof fn lemma_union_empty(
    a: InternalGlyph,
    none: InternalGlyph,
    left: InternalGlyph,
    right: InternalGlyph,
)
    requires
        none@ == Set::<usize>::empty(),
        left.is_union_of(&none, &a),
        right.is_union_of(&a, &none),
    ensures
        PartialEqSpec::eq_spec(&left, &a),
        PartialEqSpec::eq_spec(&right, &a),
        left@ == a@,
        right@ == a@,
{
    assert forall|i: usize| !members_of(0).contains(i) by {
        if i < 64 {
            lemma_bit_zero(i as u64);
        }
    }
    assert(members_of(0) =~= none@);
    lemma_members_determine(0, none.identifier);
    let x = a.identifier;
    assert(x | 0 == x && 0 | x == x) by (bit_vector);
}

/// In a union of three sets it does not matter which two are joined first.
pub proof fn lemma_union_associative(
    a: InternalGlyph,
    b: InternalGlyph,
    c: InternalGlyph,
    ab: InternalGlyph,
    bc: InternalGlyph,
    left: InternalGlyph,
    right: InternalGlyph,
)
    requires
        ab.is_union_of(&a, &b),
        bc.is_union_of(&b, &c),
        left.is_union_of(&ab, &c),
        right.is_union_of(&a, &bc),
    ensures
        PartialEqSpec::eq_spec(&left, &right),
        left@ == right@,
{
    let x = a.identifier;
    let y = b.identifier;
    let z = c.identifier;
    assert((x | y) | z == x | (y | z)) by (bit_vector);
}

} // verus!
