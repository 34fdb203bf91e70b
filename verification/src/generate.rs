//! The generator: a catalog, and the search for the distinct connected
//! glyphs that a palette of its strokes can form.

use crate::bits::{
    lemma_bit_mask, lemma_members_determine, lemma_next_part, lemma_next_part_is_next,
    lemma_order_with_bit, lemma_part_le, lemma_subset_mask, lemma_trivial_parts, lemma_with_bit,
    lemma_without_bit, members_of, next_part,
};
use crate::connected::{connected, lemma_linked_iff_connected};
use crate::glyph::{
    indices_of, lemma_lists_none, lemma_lists_push, lemma_members_below, lists, members_below,
    Glyph, InternalGlyph,
};
use crate::intersect::are_strokes_linked;
use crate::parameters::{ConfigurationError, Parameters};
use crate::stroke::{InternalStroke, Stroke};
use crate::symmetry::{image, inside, lemma_moved_members};
use vstd::prelude::*;

verus! {

/// A catalog that has been checked, ready to answer.
pub struct GlyphGenerator {
    pub parameters: Parameters,
}

/// Why a request is refused.
#[derive(Clone, Copy, Debug, PartialEq, Eq, Structural)]
pub enum LookupError {
    /// A stroke of the request is not in the catalog.
    NotFound,
}

/// The identifiers of a list of sets, in the order of the list.
pub open spec fn identifiers(glyphs: Seq<InternalGlyph>) -> Seq<u64> {
    Seq::new(glyphs.len(), |k: int| glyphs[k].identifier)
}

impl GlyphGenerator {
    /// The catalog is one that `new` accepts.
    pub open spec fn wf(&self) -> bool {
        self.parameters.wf()
    }

    /// The strokes of the catalog, by position.
    pub open spec fn catalog(&self) -> Seq<Stroke> {
        self.parameters.parent_strokes@
    }

    /// `index` is the first position at which the catalog has `stroke`.
    pub open spec fn is_index_of(&self, stroke: Stroke, index: usize) -> bool {
        &&& index < self.catalog().len()
        &&& self.catalog()[index as int] == stroke
        &&& forall|j: int| 0 <= j < index ==> self.catalog()[j] != stroke
    }

    /// The first position at which the catalog has `stroke`, if it has it.
    pub open spec fn position(&self, stroke: Stroke) -> usize {
        choose|index: usize| self.is_index_of(stroke, index)
    }

    /// The set has only strokes of the catalog.
    pub open spec fn holds(&self, glyph: &InternalGlyph) -> bool {
        inside(glyph.identifier, self.catalog().len())
    }

    /// The strokes that the catalog has at the positions listed.
    pub open spec fn strokes_at(&self, indices: Seq<usize>) -> Seq<Stroke> {
        Seq::new(indices.len(), |k: int| self.catalog()[indices[k] as int])
    }

    /// The positions of the strokes of a palette.
    pub open spec fn resolved(&self, strokes: Seq<Stroke>) -> Set<usize> {
        Set::new(
            |i: usize|
                exists|k: int| 0 <= k < strokes.len() && self.is_index_of(#[trigger] strokes[k], i),
        )
    }

    /// The catalog has every stroke of the palette.
    pub open spec fn knows_all(&self, strokes: Seq<Stroke>) -> bool {
        forall|k: int| 0 <= k < strokes.len() ==> self.catalog().contains(#[trigger] strokes[k])
    }

    /// `x` stands for a candidate: a connected set of available strokes that
    /// has the seed.
    pub open spec fn is_candidate(&self, available: Set<usize>, seed: usize, x: u64) -> bool {
        &&& members_of(x).subset_of(available)
        &&& members_of(x).contains(seed)
        &&& connected(self.parameters.adjacency(), members_of(x))
    }

    /// `x` is a candidate, and the first with its canonical form: no
    /// candidate with a smaller identifier has the same.
    pub open spec fn is_kept(&self, available: Set<usize>, seed: usize, x: u64) -> bool {
        &&& self.is_candidate(available, seed, x)
        &&& forall|y: u64|
            y < x && #[trigger] self.is_candidate(available, seed, y) ==> self.parameters.canonical(
                y,
            ) != self.parameters.canonical(x)
    }

    /// The identifiers below `bound` that are kept, in increasing order.
    pub open spec fn kept_below(&self, available: Set<usize>, seed: usize, bound: nat) -> Seq<u64>
        decreases bound,
    {
        if bound == 0 {
            Seq::empty()
        } else {
            let rest = self.kept_below(available, seed, (bound - 1) as nat);
            if self.is_kept(available, seed, (bound - 1) as u64) {
                rest.push((bound - 1) as u64)
            } else {
                rest
            }
        }
    }

    /// All identifiers that are kept, in increasing order.
    pub open spec fn kept(&self, available: Set<usize>, seed: usize) -> Seq<u64> {
        self.kept_below(available, seed, 0x1_0000_0000_0000_0000)
    }

    /// The strokes of the set that `x` stands for, in the order of the catalog.
    pub open spec fn glyph_of(&self, x: u64) -> Seq<Stroke> {
        self.strokes_at(members_below(x, 64))
    }

    /// `glyphs` is what the palette and the seed generate: one glyph for
    /// each kept set, in increasing order of identifiers, each with its
    /// strokes in the order of the catalog.
    ///
    /// The kept sets are exactly the connected sets of strokes of the palette
    /// that have the seed and are the first with their canonical form. So
    /// every glyph has the seed; and where the symmetries are closed under
    /// composition, none is the image of another under a symmetry listed.
    pub open spec fn generates(&self, strokes: Seq<Stroke>, seed: Stroke, glyphs: Seq<Glyph>) -> bool {
        let available = self.resolved(strokes);
        let first = self.position(seed);
        let kept = self.kept(available, first);
        &&& glyphs.len() == kept.len()
        &&& forall|k: int|
            0 <= k < kept.len() ==> (#[trigger] glyphs[k]).strokes@ == self.glyph_of(kept[k])
        &&& forall|k: int| 0 <= k < kept.len() ==> self.is_kept(available, first, #[trigger] kept[k])
        &&& forall|x: u64| self.is_kept(available, first, x) ==> kept.contains(x)
        &&& forall|j: int, k: int| 0 <= j < k < kept.len() ==> kept[j] < kept[k]
        &&& forall|k: int| 0 <= k < kept.len() ==> (#[trigger] glyphs[k]).strokes@.contains(seed)
        &&& self.parameters.symmetries_closed() ==> forall|j: int, k: int, t: int|
            #![trigger kept[k], self.parameters.image_of(t, kept[j])]
            0 <= j < kept.len() && 0 <= k < kept.len() && j != k && 0 <= t
                < self.parameters.symmetry_count() ==> kept[k] != self.parameters.image_of(
                t,
                kept[j],
            )
    }

    /// Where no identifier is a candidate, none is kept.
    proof fn lemma_kept_skip(&self, available: Set<usize>, seed: usize, lo: nat, hi: nat)
        requires
            lo <= hi <= 0x1_0000_0000_0000_0000,
            forall|y: u64| lo <= y < hi ==> !self.is_candidate(available, seed, y),
        ensures
            self.kept_below(available, seed, hi) == self.kept_below(available, seed, lo),
        decreases hi,
    {
        if lo < hi {
            self.lemma_kept_skip(available, seed, lo, (hi - 1) as nat);
            assert(!self.is_candidate(available, seed, (hi - 1) as u64));
        }
    }

    /// What `kept_below` lists: exactly the kept identifiers below the
    /// bound, in increasing order.
    pub proof fn lemma_kept_below(&self, available: Set<usize>, seed: usize, bound: nat)
        requires
            bound <= 0x1_0000_0000_0000_0000,
        ensures
            forall|k: int|
                0 <= k < self.kept_below(available, seed, bound).len() ==> (
                #[trigger] self.kept_below(available, seed, bound)[k]) < bound && self.is_kept(
                    available,
                    seed,
                    self.kept_below(available, seed, bound)[k],
                ),
            forall|j: int, k: int|
                0 <= j < k < self.kept_below(available, seed, bound).len() ==> self.kept_below(
                    available,
                    seed,
                    bound,
                )[j] < self.kept_below(available, seed, bound)[k],
            forall|x: u64|
                x < bound && self.is_kept(available, seed, x) ==> self.kept_below(
                    available,
                    seed,
                    bound,
                ).contains(x),
        decreases bound,
    {
        if bound > 0 {
            let fewer = self.kept_below(available, seed, (bound - 1) as nat);
            let all = self.kept_below(available, seed, bound);
            self.lemma_kept_below(available, seed, (bound - 1) as nat);
            assert forall|x: u64| x < bound && self.is_kept(available, seed, x) implies all.contains(
                x,
            ) by {
                if x < bound - 1 {
                    let k = choose|k: int| 0 <= k < fewer.len() && fewer[k] == x;
                    assert(all[k] == x);
                } else {
                    assert(all[all.len() - 1] == x);
                }
            }
        }
    }

    /// A candidate above the one made of `cur` and the seed is not below the
    /// one made of the next part and the seed.
    proof fn lemma_next_candidate(&self, all: u64, seed: usize, cur: u64, y: u64)
        requires
            seed < 64,
            members_of(all).contains(seed),
            cur & !(all & !(1u64 << (seed as u64))) == 0,
            cur != all & !(1u64 << (seed as u64)),
            self.is_candidate(members_of(all), seed, y),
            y > cur | (1u64 << (seed as u64)),
        ensures
            y >= next_part(cur, all & !(1u64 << (seed as u64))) | (1u64 << (seed as u64)),
    {
        let s = seed as u64;
        let rest = all & !(1u64 << s);
        let next = next_part(cur, rest);
        let part = y & !(1u64 << s);
        lemma_subset_mask(y, all);
        lemma_bit_mask(y, s);
        lemma_bit_mask(all, s);
        lemma_without_bit(y, all, s);
        lemma_with_bit(cur, all, s);
        lemma_order_with_bit(cur, part, s);
        lemma_next_part_is_next(cur, rest, part);
        lemma_next_part(cur, rest);
        lemma_with_bit(next, all, s);
        lemma_order_with_bit(part, next, s);
    }

    /// Every candidate has the seed's bit and no bit that is not available.
    proof fn lemma_candidate_range(&self, all: u64, seed: usize, y: u64)
        requires
            seed < 64,
            self.is_candidate(members_of(all), seed, y),
        ensures
            (1u64 << (seed as u64)) <= y <= all,
    {
        lemma_subset_mask(y, all);
        lemma_bit_mask(y, seed as u64);
        lemma_without_bit(y, all, seed as u64);
    }

    /// Every kept set has the seed among its strokes.
    pub proof fn lemma_kept_has_seed(&self, available: Set<usize>, seed: usize, x: u64)
        requires
            self.is_kept(available, seed, x),
            seed < self.catalog().len(),
        ensures
            self.glyph_of(x).contains(self.catalog()[seed as int]),
    {
        lemma_members_below(x, 64);
        let listed = members_below(x, 64);
        assert(listed.contains(seed));
        let k = choose|k: int| 0 <= k < listed.len() && listed[k] == seed;
        assert(self.glyph_of(x)[k] == self.catalog()[seed as int]);
    }

    /// No kept set is the image of another under a symmetry listed, where
    /// the symmetries are closed under composition.
    pub proof fn lemma_kept_unrelated(
        &self,
        available: Set<usize>,
        seed: usize,
        x: u64,
        y: u64,
        t: int,
    )
        requires
            self.wf(),
            self.parameters.symmetries_closed(),
            forall|i: usize| available.contains(i) ==> i < self.catalog().len(),
            self.is_kept(available, seed, x),
            self.is_kept(available, seed, y),
            x != y,
            0 <= t < self.parameters.symmetry_count(),
        ensures
            y != self.parameters.image_of(t, x),
    {
        if y == self.parameters.image_of(t, x) {
            self.parameters.lemma_image_in_orbit(t, x);
            self.parameters.lemma_canonical_constant(x, y);
            if x < y {
                assert(self.is_candidate(available, seed, x));
            } else {
                assert(self.is_candidate(available, seed, y));
            }
        }
    }

    /// A stroke has one first position.
    pub proof fn lemma_position(&self, stroke: Stroke, index: usize)
        requires
            self.is_index_of(stroke, index),
        ensures
            self.position(stroke) == index,
    {
        let other = self.position(stroke);
        assert(self.is_index_of(stroke, other));
        if other < index {
            assert(self.catalog()[other as int] != stroke);
        } else if index < other {
            assert(self.catalog()[index as int] != stroke);
        }
    }

    /// Builds a generator from a catalog, or says what is wrong with the catalog.
    pub fn new(parameters: Parameters) -> (r: Result<GlyphGenerator, ConfigurationError>)
        ensures
            match r {
                Ok(generator) => generator.parameters == parameters && generator.wf(),
                Err(e) => parameters.validation() == Err::<(), ConfigurationError>(e),
            },
            r is Ok <==> parameters.wf(),
    {
        match parameters.validate() {
            Ok(()) => Ok(GlyphGenerator { parameters }),
            Err(e) => Err(e),
        }
    }

    /// The first position at which the catalog has exactly this stroke.
    pub fn index_of(&self, stroke: &Stroke) -> (r: Result<usize, LookupError>)
        ensures
            match r {
                Ok(index) => self.is_index_of(*stroke, index),
                Err(e) => !self.catalog().contains(*stroke),
            },
            r is Ok <==> self.catalog().contains(*stroke),
    {
        let mut index: usize = 0;
        while index < self.parameters.parent_strokes.len()
            invariant
                index <= self.catalog().len(),
                forall|j: int| 0 <= j < index ==> self.catalog()[j] != *stroke,
            decreases self.parameters.parent_strokes.len() - index,
        {
            if self.parameters.parent_strokes[index] == *stroke {
                return Ok(index);
            }
            index += 1;
        }
        Err(LookupError::NotFound)
    }

    /// The set whose one member is the position of `stroke` in the catalog.
    pub fn from_stroke(&self, stroke: &Stroke) -> (r: Result<InternalGlyph, LookupError>)
        requires
            self.wf(),
        ensures
            match r {
                Ok(glyph) => glyph.wf() && self.holds(&glyph) && glyph.indices()
                    == seq![self.position(*stroke)] && glyph@ == set![self.position(*stroke)]
                    && self.is_index_of(*stroke, self.position(*stroke)),
                Err(e) => !self.catalog().contains(*stroke),
            },
            r is Ok <==> self.catalog().contains(*stroke),
    {
        match self.index_of(stroke) {
            Ok(index) => {
                proof {
                    self.lemma_position(*stroke, index);
                }
                Ok(InternalGlyph::single(index))
            },
            Err(e) => Err(e),
        }
    }

    /// The strokes of a set in the caller's coordinates, in the order in
    /// which the set lists its members.
    pub fn to_glyph(&self, glyph: &InternalGlyph) -> (r: Glyph)
        requires
            forall|k: int|
                0 <= k < glyph.indices().len() ==> (#[trigger] glyph.indices()[k])
                    < self.catalog().len(),
        ensures
            r.strokes@ == self.strokes_at(glyph.indices()),
    {
        let mut strokes: Vec<Stroke> = Vec::new();
        let mut k: usize = 0;
        while k < glyph.strokes.len()
            invariant
                k <= glyph.strokes.len(),
                strokes.len() == k,
                forall|j: int|
                    0 <= j < glyph.indices().len() ==> (#[trigger] glyph.indices()[j])
                        < self.catalog().len(),
                forall|j: int|
                    0 <= j < k ==> strokes@[j] == self.catalog()[glyph.indices()[j] as int],
            decreases glyph.strokes.len() - k,
        {
            let index = glyph.strokes[k].index;
            assert(index == glyph.indices()[k as int]);
            strokes.push(self.parameters.parent_strokes[index]);
            k += 1;
        }
        assert(strokes@ =~= self.strokes_at(glyph.indices()));
        Glyph { strokes }
    }

    /// Whether the strokes of the set hang together: whether a chain of
    /// touching strokes of the set leads from each of them to each other.
    /// The empty set does not.
    pub fn are_strokes_intersecting(&self, glyph: &InternalGlyph) -> (r: bool)
        requires
            self.wf(),
            glyph.wf(),
            self.holds(glyph),
        ensures
            r == connected(self.parameters.adjacency(), glyph@),
    {
        let members = glyph.members();
        proof {
            let matrix = self.parameters.adjacency();
            assert forall|i: int| 0 <= i < members@.len() implies (#[trigger] members@[i])
                < matrix.len() by {
                assert(glyph.indices().contains(members@[i]));
            }
            assert forall|i: int, j: int|
                0 <= i < members@.len() && 0 <= j < members@.len() implies (
            #[trigger] members@[i]) < matrix.len() && (#[trigger] members@[j])
                < matrix[members@[i] as int].len() by {
                assert(matrix[members@[i] as int].len() == matrix.len());
            }
            assert(members@.to_set() =~= glyph@);
            assert(members@.len() == members.len());
            lemma_linked_iff_connected(members@, matrix);
        }
        are_strokes_linked(&members, &self.parameters.intersection_matrix)
    }

    /// The set onto which symmetry `t` moves the set: member by member, in
    /// the order in which the set lists them, so that as many come out as went in.
    pub fn apply(&self, t: usize, glyph: &InternalGlyph) -> (r: InternalGlyph)
        requires
            self.wf(),
            t < self.parameters.symmetry_count(),
            glyph.wf(),
            self.holds(glyph),
        ensures
            r.wf(),
            self.holds(&r),
            r.identifier == self.parameters.image_of(t as int, glyph.identifier),
            r@ == image(self.parameters.symmetry(t as int), glyph@),
            r.indices() == Seq::new(
                glyph.indices().len(),
                |k: int| self.parameters.symmetry(t as int)[glyph.indices()[k] as int],
            ),
    {
        let ghost p = self.parameters.symmetry(t as int);
        let ghost mine = glyph.indices();
        let mut strokes: Vec<InternalStroke> = Vec::new();
        let mut identifier: u64 = 0;
        let mut k: usize = 0;
        proof {
            lemma_lists_none();
            assert(indices_of(strokes@) =~= Seq::<usize>::empty());
        }
        while k < glyph.strokes.len()
            invariant
                k <= glyph.strokes.len(),
                self.wf(),
                t < self.parameters.symmetry_count(),
                glyph.wf(),
                self.holds(glyph),
                p == self.parameters.symmetry(t as int),
                mine == glyph.indices(),
                lists(indices_of(strokes@), identifier),
                indices_of(strokes@).len() == k,
                forall|a: int| 0 <= a < k ==> indices_of(strokes@)[a] == p[mine[a] as int],
            decreases glyph.strokes.len() - k,
        {
            let index = glyph.strokes[k].index;
            proof {
                assert(index == mine[k as int]);
                assert(mine.contains(index));
                assert(self.parameters.images()[index as int].len()
                    == self.parameters.symmetry_count());
            }
            let target = self.parameters.transformation_matrix[index][t];
            let ghost shorter = strokes@;
            proof {
                assert(target == p[index as int]);
                assert(target < 64);
                if members_of(identifier).contains(target) {
                    assert(indices_of(shorter).contains(target));
                    let a = choose|a: int|
                        0 <= a < indices_of(shorter).len() && indices_of(shorter)[a] == target;
                    assert(mine[a] != mine[k as int]);
                    assert(mine.contains(mine[a]));
                    let x = mine[a] as int;
                    let y = index as int;
                    if x < y {
                        assert(p[x] != p[y]);
                    } else {
                        assert(p[y] != p[x]);
                    }
                }
                lemma_lists_push(indices_of(shorter), identifier, target);
            }
            strokes.push(InternalStroke { index: target });
            identifier = identifier | (1u64 << (target as u64));
            assert(indices_of(strokes@) =~= indices_of(shorter).push(target));
            k += 1;
        }
        let r = InternalGlyph { strokes, identifier };
        proof {
            let moved_set = image(p, glyph@);
            assert forall|j: usize| r@.contains(j) implies moved_set.contains(j) by {
                assert(r.indices().contains(j));
                let a = choose|a: int| 0 <= a < r.indices().len() && r.indices()[a] == j;
                let i = mine[a];
                assert(mine.contains(i));
                assert(glyph@.contains(i) && i < p.len() && p[i as int] == j);
            }
            assert forall|j: usize| moved_set.contains(j) implies r@.contains(j) by {
                let i = choose|i: usize| #[trigger]
                    glyph@.contains(i) && i < p.len() && p[i as int] == j;
                assert(mine.contains(i));
                let a = choose|a: int| 0 <= a < mine.len() && mine[a] == i;
                assert(r.indices()[a] == j);
                assert(r.indices().contains(j));
            }
            assert(r@ =~= moved_set);
            assert(r.indices() =~= Seq::new(mine.len(), |k: int| p[mine[k] as int]));
            lemma_moved_members(p, glyph.identifier);
            lemma_members_determine(
                r.identifier,
                self.parameters.image_of(t as int, glyph.identifier),
            );
        }
        r
    }

    /// The orbit of the set: the set itself and its image under every
    /// symmetry listed, each once, the set itself first.
    pub fn transform(&self, glyph: &InternalGlyph) -> (r: Vec<InternalGlyph>)
        requires
            self.wf(),
            glyph.wf(),
            self.holds(glyph),
        ensures
            forall|k: int| 0 <= k < r.len() ==> (#[trigger] r@[k]).wf() && self.holds(&r@[k]),
            identifiers(r@).no_duplicates(),
            identifiers(r@).to_set() == self.parameters.orbit(glyph.identifier),
            r.len() > 0,
            r@[0].strokes@ == glyph.strokes@,
            r@[0].identifier == glyph.identifier,
    {
        let ghost x = glyph.identifier;
        let mut out: Vec<InternalGlyph> = Vec::new();
        out.push(glyph.clone());
        proof {
            assert(identifiers(out@)[0] == x);
            assert(out@[0].indices() =~= glyph.indices());
        }
        let count = self.parameters.symmetries();
        let mut t: usize = 0;
        while t < count
            invariant
                t <= count,
                count == self.parameters.symmetry_count(),
                self.wf(),
                glyph.wf(),
                self.holds(glyph),
                x == glyph.identifier,
                out.len() > 0,
                out@[0].strokes@ == glyph.strokes@,
                out@[0].identifier == x,
                forall|k: int| 0 <= k < out.len() ==> (#[trigger] out@[k]).wf() && self.holds(&out@[k]),
                identifiers(out@).no_duplicates(),
                forall|k: int|
                    0 <= k < out.len() ==> self.parameters.orbit(x).contains(
                        #[trigger] identifiers(out@)[k],
                    ),
                identifiers(out@).contains(x),
                forall|u: int|
                    0 <= u < t ==> identifiers(out@).contains(
                        #[trigger] self.parameters.image_of(u, x),
                    ),
            decreases count - t,
        {
            let moved = self.apply(t, glyph);
            let ghost before = out@;
            if !has_identifier(&out, moved.identifier) {
                out.push(moved);
                proof {
                    assert(identifiers(out@) =~= identifiers(before).push(moved.identifier));
                    lemma_pushed_contains(identifiers(before), moved.identifier);
                }
            }
            t += 1;
        }
        proof {
            let ids = identifiers(out@);
            assert forall|y: u64| self.parameters.orbit(x).contains(y) implies ids.to_set().contains(
                y,
            ) by {
                if y != x {
                    let u = choose|u: int|
                        0 <= u < self.parameters.symmetry_count() && y
                            == #[trigger] self.parameters.image_of(u, x);
                    assert(ids.contains(self.parameters.image_of(u, x)));
                }
            }
            assert(ids.to_set() =~= self.parameters.orbit(x));
        }
        out
    }

    /// The canonical form of the set: the member of its orbit with the
    /// smallest identifier.
    pub fn canonical_form(&self, glyph: &InternalGlyph) -> (r: InternalGlyph)
        requires
            self.wf(),
            glyph.wf(),
            self.holds(glyph),
        ensures
            r.wf(),
            self.holds(&r),
            r.identifier == self.parameters.canonical(glyph.identifier),
    {
        let mut best = glyph.clone();
        assert(best.indices() =~= glyph.indices());
        let count = self.parameters.symmetries();
        let mut t: usize = 0;
        while t < count
            invariant
                t <= count,
                count == self.parameters.symmetry_count(),
                self.wf(),
                glyph.wf(),
                self.holds(glyph),
                best.wf(),
                self.holds(&best),
                best.identifier == self.parameters.least_image(glyph.identifier, t as nat),
            decreases count - t,
        {
            let moved = self.apply(t, glyph);
            if moved.identifier < best.identifier {
                best = moved;
            }
            t += 1;
        }
        best
    }

    /// The sets that are kept of all that the available strokes can form: in
    /// increasing order of their identifiers, every connected set of
    /// available strokes that has the seed and whose canonical form no such
    /// set before it has. Each lists its members in increasing order.
    pub fn enumerate(&self, available: &InternalGlyph, seed: usize) -> (r: Vec<InternalGlyph>)
        requires
            self.wf(),
            self.holds(available),
            available@.contains(seed),
        ensures
            identifiers(r@) == self.kept(available@, seed),
            forall|k: int|
                0 <= k < r.len() ==> (#[trigger] r@[k]).wf() && self.holds(&r@[k])
                    && r@[k].indices() == members_below(r@[k].identifier, 64),
    {
        let ghost a = available@;
        let all = available.identifier;
        let bit_s = 1u64 << (seed as u64);
        let rest = all & !bit_s;
        let mut cur: u64 = 0;
        let mut out: Vec<InternalGlyph> = Vec::new();
        let mut seen: Vec<u64> = Vec::new();
        proof {
            lemma_bit_mask(all, seed as u64);
            lemma_trivial_parts(rest);
            lemma_with_bit(0, all, seed as u64);
            assert(0u64 | bit_s == bit_s) by (bit_vector);
            assert forall|y: u64| 0 <= y < bit_s implies !self.is_candidate(a, seed, y) by {
                if self.is_candidate(a, seed, y) {
                    self.lemma_candidate_range(all, seed, y);
                }
            }
            self.lemma_kept_skip(a, seed, 0, bit_s as nat);
            assert(identifiers(out@) =~= Seq::<u64>::empty());
        }
        loop
            invariant_except_break
                cur & !rest == 0,
                identifiers(out@) == self.kept_below(a, seed, (cur | bit_s) as nat),
                forall|c: u64|
                    seen@.contains(c) ==> exists|y: u64|
                        y < (cur | bit_s) && #[trigger] self.is_candidate(a, seed, y)
                            && self.parameters.canonical(y) == c,
                forall|y: u64|
                    y < (cur | bit_s) && #[trigger] self.is_candidate(a, seed, y) ==> seen@.contains(
                        self.parameters.canonical(y),
                    ),
            invariant
                self.wf(),
                self.holds(available),
                a == available@,
                a == members_of(all),
                a.contains(seed),
                seed < 64,
                bit_s == 1u64 << (seed as u64),
                rest == all & !bit_s,
                forall|k: int|
                    0 <= k < out.len() ==> (#[trigger] out@[k]).wf() && self.holds(&out@[k])
                        && out@[k].indices() == members_below(out@[k].identifier, 64),
            ensures
                identifiers(out@) == self.kept(a, seed),
            decreases rest - cur,
        {
            let x = cur | bit_s;
            let glyph = InternalGlyph::from_identifier(x);
            proof {
                lemma_bit_mask(all, seed as u64);
                lemma_with_bit(cur, all, seed as u64);
                lemma_subset_mask(x, all);
                lemma_bit_mask(x, seed as u64);
            }
            let ghost before = out@;
            let ghost seen_before = seen@;
            if self.are_strokes_intersecting(&glyph) {
                let form = self.canonical_form(&glyph);
                if !has_value(&seen, form.identifier) {
                    seen.push(form.identifier);
                    out.push(glyph);
                    proof {
                        assert(identifiers(out@) =~= identifiers(before).push(x));
                        assert(self.is_kept(a, seed, x));
                    }
                } else {
                    proof {
                        let y = choose|y: u64|
                            y < x && #[trigger] self.is_candidate(a, seed, y)
                                && self.parameters.canonical(y) == form.identifier;
                        assert(!self.is_kept(a, seed, x));
                    }
                }
                proof {
                    lemma_pushed_contains(seen_before, form.identifier);
                }
            }
            proof {
                assert(identifiers(out@) == self.kept_below(a, seed, (x + 1) as nat));
                assert forall|c: u64| seen@.contains(c) implies exists|y: u64|
                    y < x + 1 && #[trigger] self.is_candidate(a, seed, y)
                        && self.parameters.canonical(y) == c by {
                    if seen_before.contains(c) {
                        let y = choose|y: u64|
                            y < x && #[trigger] self.is_candidate(a, seed, y)
                                && self.parameters.canonical(y) == c;
                        assert(y < x + 1 && self.is_candidate(a, seed, y));
                    } else {
                        assert(x < x + 1 && self.is_candidate(a, seed, x));
                    }
                }
                assert forall|y: u64|
                    y < x + 1 && #[trigger] self.is_candidate(a, seed, y) implies seen@.contains(
                    self.parameters.canonical(y),
                ) by {
                    if y < x {
                        assert(seen_before.contains(self.parameters.canonical(y)));
                    }
                }
            }
            if cur == rest {
                proof {
                    lemma_trivial_parts(all);
                    lemma_without_bit(all, all, seed as u64);
                    assert(x == all);
                    assert forall|y: u64|
                        x + 1 <= y < 0x1_0000_0000_0000_0000 implies !self.is_candidate(
                        a,
                        seed,
                        y,
                    ) by {
                        if self.is_candidate(a, seed, y) {
                            self.lemma_candidate_range(all, seed, y);
                        }
                    }
                    self.lemma_kept_skip(a, seed, (x + 1) as nat, 0x1_0000_0000_0000_0000);
                }
                break ;
            }
            proof {
                lemma_next_part(cur, rest);
                lemma_part_le(next_part(cur, rest), rest);
            }
            let next = ((cur | !rest) + 1) & rest;
            proof {
                let bound = next | bit_s;
                lemma_with_bit(next, all, seed as u64);
                lemma_order_with_bit(cur, next, seed as u64);
                assert forall|y: u64| x + 1 <= y < bound implies !self.is_candidate(a, seed, y) by {
                    if self.is_candidate(a, seed, y) {
                        self.lemma_next_candidate(all, seed, cur, y);
                    }
                }
                self.lemma_kept_skip(a, seed, (x + 1) as nat, bound as nat);
                assert forall|c: u64| seen@.contains(c) implies exists|y: u64|
                    y < bound && #[trigger] self.is_candidate(a, seed, y)
                        && self.parameters.canonical(y) == c by {
                    let y = choose|y: u64|
                        y < x + 1 && #[trigger] self.is_candidate(a, seed, y)
                            && self.parameters.canonical(y) == c;
                    assert(y < bound && self.is_candidate(a, seed, y));
                }
            }
            cur = next;
        }
        out
    }

    /// The set of the positions of the strokes of a palette, if the catalog
    /// has them all.
    pub fn resolve(&self, strokes: &Vec<Stroke>) -> (r: Result<InternalGlyph, LookupError>)
        requires
            self.wf(),
        ensures
            r is Ok <==> self.knows_all(strokes@),
            r matches Ok(glyph) ==> glyph.wf() && self.holds(&glyph) && glyph@ == self.resolved(
                strokes@,
            ),
    {
        let mut all = InternalGlyph::empty();
        let mut k: usize = 0;
        proof {
            assert(self.resolved(strokes@.take(0)) =~= Set::<usize>::empty());
        }
        while k < strokes.len()
            invariant
                k <= strokes.len(),
                self.wf(),
                all.wf(),
                self.holds(&all),
                all@ == self.resolved(strokes@.take(k as int)),
                self.knows_all(strokes@.take(k as int)),
            decreases strokes.len() - k,
        {
            let ghost before = strokes@.take(k as int);
            let ghost after = strokes@.take(k + 1);
            match self.from_stroke(&strokes[k]) {
                Ok(one) => {
                    all = all.union(&one);
                },
                Err(e) => {
                    return Err(e);
                },
            }
            proof {
                let found = self.position(strokes@[k as int]);
                assert forall|i: usize|
                    self.resolved(after).contains(i) implies self.resolved(before).insert(
                    found,
                ).contains(i) by {
                    let j = choose|j: int|
                        0 <= j < after.len() && self.is_index_of(#[trigger] after[j], i);
                    if j < k {
                        assert(self.is_index_of(before[j], i));
                    } else {
                        self.lemma_position(after[j], i);
                    }
                }
                assert forall|i: usize|
                    self.resolved(before).insert(found).contains(i) implies self.resolved(
                    after,
                ).contains(i) by {
                    if i == found {
                        assert(self.is_index_of(after[k as int], i));
                    } else {
                        let j = choose|j: int|
                            0 <= j < before.len() && self.is_index_of(#[trigger] before[j], i);
                        assert(self.is_index_of(after[j], i));
                    }
                }
                assert(self.resolved(after) =~= self.resolved(before).insert(found));
                assert(all@ =~= self.resolved(after));
                assert forall|j: int| 0 <= j < after.len() implies self.catalog().contains(
                    #[trigger] after[j],
                ) by {
                    if j < k {
                        assert(before[j] == after[j]);
                    }
                }
            }
            k += 1;
        }
        assert(strokes@.take(k as int) =~= strokes@);
        Ok(all)
    }

    /// Every distinct connected glyph that the palette can form around the
    /// seed, one for each class of glyphs that the symmetries of the grid
    /// move onto each other.
    ///
    /// The glyphs come in increasing order of the identifiers of their sets
    /// of positions; each is the first of its class in that order, and has
    /// its strokes in the order of the catalog. Fails, with nothing
    /// generated, when the catalog lacks a stroke of the palette.
    pub fn generate(&self, strokes: &Vec<Stroke>, seed: &Stroke) -> (r: Result<
        Vec<Glyph>,
        LookupError,
    >)
        requires
            self.wf(),
            strokes@.contains(*seed),
        ensures
            r is Ok <==> self.knows_all(strokes@),
            r matches Ok(glyphs) ==> self.generates(strokes@, *seed, glyphs@),
    {
        let available = match self.resolve(strokes) {
            Ok(available) => available,
            Err(e) => {
                return Err(e);
            },
        };
        let ghost place = choose|k: int| 0 <= k < strokes@.len() && strokes@[k] == *seed;
        let first = match self.index_of(seed) {
            Ok(first) => first,
            Err(e) => {
                proof {
                    assert(self.catalog().contains(strokes@[place]));
                }
                return Err(e);
            },
        };
        proof {
            self.lemma_position(*seed, first);
            assert(self.is_index_of(strokes@[place], first));
        }
        let sets = self.enumerate(&available, first);
        let ghost a = available@;
        let ghost kept = self.kept(a, first);
        let mut glyphs: Vec<Glyph> = Vec::new();
        let mut k: usize = 0;
        proof {
            self.lemma_kept_below(a, first, 0x1_0000_0000_0000_0000);
        }
        while k < sets.len()
            invariant
                k <= sets.len(),
                glyphs.len() == k,
                identifiers(sets@) == kept,
                forall|j: int|
                    0 <= j < sets.len() ==> (#[trigger] sets@[j]).wf() && self.holds(&sets@[j])
                        && sets@[j].indices() == members_below(sets@[j].identifier, 64),
                forall|j: int|
                    0 <= j < k ==> (#[trigger] glyphs@[j]).strokes@ == self.glyph_of(kept[j]),
            decreases sets.len() - k,
        {
            let set = &sets[k];
            proof {
                assert(identifiers(sets@)[k as int] == set.identifier);
                assert forall|j: int| 0 <= j < set.indices().len() implies (
                #[trigger] set.indices()[j]) < self.catalog().len() by {
                    assert(set.indices().contains(set.indices()[j]));
                }
            }
            glyphs.push(self.to_glyph(set));
            k += 1;
        }
        proof {
            assert(glyphs@.len() == kept.len());
            assert forall|j: int| 0 <= j < kept.len() implies (
            #[trigger] glyphs@[j]).strokes@.contains(*seed) by {
                self.lemma_kept_has_seed(a, first, kept[j]);
            }
            if self.parameters.symmetries_closed() {
                assert forall|i: int, j: int, t: int|
                    #![trigger kept[j], self.parameters.image_of(t, kept[i])]
                    0 <= i < kept.len() && 0 <= j < kept.len() && i != j && 0 <= t
                        < self.parameters.symmetry_count() implies kept[j]
                    != self.parameters.image_of(t, kept[i]) by {
                    if i < j {
                        assert(kept[i] < kept[j]);
                    } else {
                        assert(kept[j] < kept[i]);
                    }
                    self.lemma_kept_unrelated(a, first, kept[i], kept[j], t);
                }
            }
        }
        Ok(glyphs)
    }
}

/// Whether the list has this value.
fn has_value(list: &Vec<u64>, value: u64) -> (r: bool)
    ensures
        r == list@.contains(value),
{
    let mut k: usize = 0;
    while k < list.len()
        invariant
            k <= list.len(),
            forall|j: int| 0 <= j < k ==> list@[j] != value,
        decreases list.len() - k,
    {
        if list[k] == value {
            return true;
        }
        k += 1;
    }
    false
}

/// Whether one of the sets listed has this identifier.
fn has_identifier(glyphs: &Vec<InternalGlyph>, identifier: u64) -> (r: bool)
    ensures
        r == identifiers(glyphs@).contains(identifier),
{
    let mut k: usize = 0;
    while k < glyphs.len()
        invariant
            k <= glyphs.len(),
            forall|j: int| 0 <= j < k ==> identifiers(glyphs@)[j] != identifier,
        decreases glyphs.len() - k,
    {
        if glyphs[k].identifier == identifier {
            assert(identifiers(glyphs@)[k as int] == identifier);
            return true;
        }
        k += 1;
    }
    false
}

/// What a list holds after one more item is put at its end.
proof fn lemma_pushed_contains(s: Seq<u64>, y: u64)
    ensures
        forall|z: u64| s.push(y).contains(z) <==> s.contains(z) || z == y,
        s.no_duplicates() && !s.contains(y) ==> s.push(y).no_duplicates(),
{
    let longer = s.push(y);
    assert forall|z: u64| longer.contains(z) <==> s.contains(z) || z == y by {
        if longer.contains(z) {
            let k = choose|k: int| 0 <= k < longer.len() && longer[k] == z;
            if k < s.len() {
                assert(s[k] == z);
            }
        }
        if s.contains(z) {
            let k = choose|k: int| 0 <= k < s.len() && s[k] == z;
            assert(longer[k] == z);
        }
        if z == y {
            assert(longer[s.len() as int] == z);
        }
    }
    if s.no_duplicates() && !s.contains(y) {
        assert forall|a: int, b: int| 0 <= a < longer.len() && 0 <= b < longer.len() && a
            != b implies longer[a] != longer[b] by {
            if a < s.len() {
                assert(s.contains(s[a]));
            }
            if b < s.len() {
                assert(s.contains(s[b]));
            }
        }
    }
}

} // verus!
