//! The catalog: the strokes, which of them touch, and the symmetries of the grid.

use crate::intersect::rows;
use crate::stroke::Stroke;
use vstd::prelude::*;

verus! {

/// What a generator is built from.
///
/// `parent_strokes` are the strokes of the catalog, each known by its
/// position. `intersection_matrix[i][j]` is 1 when strokes `i` and `j` touch.
/// `transformation_matrix[i][t]` is the stroke onto which symmetry `t` of the
/// grid moves stroke `i`; the identity is not among the symmetries listed.
pub struct Parameters {
    pub parent_strokes: Vec<Stroke>,
    pub intersection_matrix: Vec<Vec<u8>>,
    pub transformation_matrix: Vec<Vec<usize>>,
}

/// Why a catalog is refused.
#[derive(Clone, Copy, Debug, PartialEq, Eq, Structural)]
pub enum ConfigurationError {
    /// There are more strokes than an identifier has bits.
    TooManyStrokes,
    /// The intersection matrix has not one row and one column per stroke.
    AdjacencyNotSquare,
    /// Some stroke touches another that does not touch it.
    AdjacencyNotSymmetric,
    /// The transformation matrix has not one row per stroke, or its rows
    /// differ in length.
    PermutationWrongLength,
    /// Some symmetry moves a stroke out of the catalog, or two strokes onto one.
    PermutationNotBijective,
}

/// Every entry of `p` is a position in `p`, and no two entries are equal.
pub open spec fn is_bijection(p: Seq<usize>) -> bool {
    &&& forall|i: int| 0 <= i < p.len() ==> (#[trigger] p[i]) < p.len()
    &&& forall|i: int, j: int| 0 <= i < j < p.len() ==> p[i] != p[j]
}

impl Parameters {
    /// The number of strokes in the catalog.
    pub open spec fn stroke_count(&self) -> nat {
        self.parent_strokes@.len()
    }

    /// The intersection matrix, row by row.
    pub open spec fn adjacency(&self) -> Seq<Seq<u8>> {
        rows(&self.intersection_matrix)
    }

    /// The transformation matrix, row by row: one row of images per stroke.
    pub open spec fn images(&self) -> Seq<Seq<usize>> {
        Seq::new(
            self.transformation_matrix@.len(),
            |i: int| self.transformation_matrix@[i]@,
        )
    }

    /// The number of symmetries listed.
    pub open spec fn symmetry_count(&self) -> nat {
        if self.images().len() == 0 {
            0
        } else {
            self.images()[0].len()
        }
    }

    /// Symmetry `t` as a permutation: where it moves each stroke.
    pub open spec fn symmetry(&self, t: int) -> Seq<usize> {
        Seq::new(self.stroke_count(), |i: int| self.images()[i][t])
    }

    /// Every stroke has a bit in an identifier.
    pub open spec fn fits(&self) -> bool {
        self.stroke_count() <= 64
    }

    /// The intersection matrix has one row and one column per stroke.
    pub open spec fn adjacency_square(&self) -> bool {
        &&& self.adjacency().len() == self.stroke_count()
        &&& forall|i: int|
            0 <= i < self.stroke_count() ==> (#[trigger] self.adjacency()[i]).len()
                == self.stroke_count()
    }

    /// Touching is mutual.
    pub open spec fn adjacency_symmetric(&self) -> bool {
        forall|i: int, j: int|
            0 <= i < self.stroke_count() && 0 <= j < self.stroke_count()
                ==> self.adjacency()[i][j] == self.adjacency()[j][i]
    }

    /// Every symmetry says where it moves every stroke.
    pub open spec fn symmetries_sized(&self) -> bool {
        &&& self.images().len() == self.stroke_count()
        &&& forall|i: int|
            0 <= i < self.stroke_count() ==> (#[trigger] self.images()[i]).len()
                == self.symmetry_count()
    }

    /// Every symmetry permutes the strokes of the catalog.
    pub open spec fn symmetries_bijective(&self) -> bool {
        forall|t: int| 0 <= t < self.symmetry_count() ==> is_bijection(#[trigger] self.symmetry(t))
    }

    /// The catalog is one that a generator can be built from.
    pub open spec fn wf(&self) -> bool {
        &&& self.fits()
        &&& self.adjacency_square()
        &&& self.adjacency_symmetric()
        &&& self.symmetries_sized()
        &&& self.symmetries_bijective()
    }

    /// What `validate` answers: the first requirement that the catalog fails.
    pub open spec fn validation(&self) -> Result<(), ConfigurationError> {
        if !self.fits() {
            Err(ConfigurationError::TooManyStrokes)
        } else if !self.adjacency_square() {
            Err(ConfigurationError::AdjacencyNotSquare)
        } else if !self.adjacency_symmetric() {
            Err(ConfigurationError::AdjacencyNotSymmetric)
        } else if !self.symmetries_sized() {
            Err(ConfigurationError::PermutationWrongLength)
        } else if !self.symmetries_bijective() {
            Err(ConfigurationError::PermutationNotBijective)
        } else {
            Ok(())
        }
    }

    /// The number of strokes in the catalog.
    pub fn strokes(&self) -> (r: usize)
        ensures
            r == self.stroke_count(),
    {
        self.parent_strokes.len()
    }

    /// The number of symmetries listed.
    pub fn symmetries(&self) -> (r: usize)
        ensures
            r == self.symmetry_count(),
    {
        if self.transformation_matrix.len() == 0 {
            0
        } else {
            self.transformation_matrix[0].len()
        }
    }

    fn is_adjacency_square(&self) -> (r: bool)
        ensures
            r == self.adjacency_square(),
    {
        let n = self.parent_strokes.len();
        if self.intersection_matrix.len() != n {
            return false;
        }
        let mut i: usize = 0;
        while i < n
            invariant
                i <= n,
                n == self.stroke_count(),
                self.adjacency().len() == n,
                forall|a: int| 0 <= a < i ==> (#[trigger] self.adjacency()[a]).len() == n,
            decreases n - i,
        {
            if self.intersection_matrix[i].len() != n {
                assert(self.adjacency()[i as int].len() != n);
                return false;
            }
            i += 1;
        }
        true
    }

    fn is_adjacency_symmetric(&self) -> (r: bool)
        requires
            self.adjacency_square(),
        ensures
            r == self.adjacency_symmetric(),
    {
        let n = self.parent_strokes.len();
        let mut i: usize = 0;
        while i < n
            invariant
                i <= n,
                n == self.stroke_count(),
                self.adjacency_square(),
                forall|a: int, b: int|
                    0 <= a < i && 0 <= b < n ==> self.adjacency()[a][b] == self.adjacency()[b][a],
            decreases n - i,
        {
            let mut j: usize = 0;
            while j < n
                invariant
                    i < n,
                    j <= n,
                    n == self.stroke_count(),
                    self.adjacency_square(),
                    forall|b: int|
                        0 <= b < j ==> self.adjacency()[i as int][b] == self.adjacency()[b][i as int],
                decreases n - j,
            {
                proof {
                    assert(self.adjacency()[i as int].len() == n);
                    assert(self.adjacency()[j as int].len() == n);
                }
                if self.intersection_matrix[i][j] != self.intersection_matrix[j][i] {
                    assert(self.adjacency()[i as int][j as int] != self.adjacency()[j as int][i as int]);
                    return false;
                }
                j += 1;
            }
            i += 1;
        }
        true
    }

    fn are_symmetries_sized(&self) -> (r: bool)
        ensures
            r == self.symmetries_sized(),
    {
        let n = self.parent_strokes.len();
        if self.transformation_matrix.len() != n {
            return false;
        }
        if n == 0 {
            return true;
        }
        let m = self.transformation_matrix[0].len();
        let mut i: usize = 0;
        while i < n
            invariant
                i <= n,
                0 < n,
                n == self.stroke_count(),
                self.images().len() == n,
                m == self.symmetry_count(),
                forall|a: int| 0 <= a < i ==> (#[trigger] self.images()[a]).len() == m,
            decreases n - i,
        {
            if self.transformation_matrix[i].len() != m {
                assert(self.images()[i as int].len() != m);
                return false;
            }
            i += 1;
        }
        true
    }

    /// Whether symmetry `t` permutes the strokes.
    fn is_symmetry_bijective(&self, t: usize) -> (r: bool)
        requires
            self.symmetries_sized(),
            t < self.symmetry_count(),
        ensures
            r == is_bijection(self.symmetry(t as int)),
    {
        let n = self.parent_strokes.len();
        let ghost p = self.symmetry(t as int);
        let mut seen: Vec<bool> = Vec::new();
        let mut i: usize = 0;
        while i < n
            invariant
                i <= n,
                seen.len() == i,
                forall|v: int| 0 <= v < i ==> !seen@[v],
            decreases n - i,
        {
            seen.push(false);
            i += 1;
        }
        let ghost mut origin: Seq<int> = Seq::new(n as nat, |v: int| 0int);
        let mut i: usize = 0;
        while i < n
            invariant
                i <= n,
                n == self.stroke_count(),
                self.symmetries_sized(),
                t < self.symmetry_count(),
                p == self.symmetry(t as int),
                seen.len() == n,
                origin.len() == n,
                forall|a: int| 0 <= a < i ==> (#[trigger] p[a]) < n && seen@[p[a] as int],
                forall|v: int|
                    0 <= v < n && #[trigger] seen@[v] ==> 0 <= origin[v] < i && p[origin[v]] == v,
                forall|a: int, b: int| 0 <= a < b < i ==> p[a] != p[b],
            decreases n - i,
        {
            proof {
                assert(self.images()[i as int].len() == self.symmetry_count());
            }
            let image = self.transformation_matrix[i][t];
            assert(image == p[i as int]);
            if image >= n {
                return false;
            }
            if seen[image] {
                proof {
                    let first = origin[image as int];
                    assert(p[first] == p[i as int] && first < i);
                }
                return false;
            }
            seen.set(image, true);
            proof {
                origin = origin.update(image as int, i as int);
            }
            i += 1;
        }
        true
    }

    fn are_symmetries_bijective(&self) -> (r: bool)
        requires
            self.symmetries_sized(),
        ensures
            r == self.symmetries_bijective(),
    {
        if self.transformation_matrix.len() == 0 {
            return true;
        }
        let m = self.transformation_matrix[0].len();
        let mut t: usize = 0;
        while t < m
            invariant
                t <= m,
                m == self.symmetry_count(),
                self.symmetries_sized(),
                forall|u: int| 0 <= u < t ==> is_bijection(#[trigger] self.symmetry(u)),
            decreases m - t,
        {
            if !self.is_symmetry_bijective(t) {
                return false;
            }
            t += 1;
        }
        true
    }

    /// Checks the catalog, and names the first requirement that it fails.
    pub fn validate(&self) -> (r: Result<(), ConfigurationError>)
        ensures
            r == self.validation(),
            r is Ok <==> self.wf(),
    {
        if self.parent_strokes.len() > 64 {
            Err(ConfigurationError::TooManyStrokes)
        } else if !self.is_adjacency_square() {
            Err(ConfigurationError::AdjacencyNotSquare)
        } else if !self.is_adjacency_symmetric() {
            Err(ConfigurationError::AdjacencyNotSymmetric)
        } else if !self.are_symmetries_sized() {
            Err(ConfigurationError::PermutationWrongLength)
        } else if !self.are_symmetries_bijective() {
            Err(ConfigurationError::PermutationNotBijective)
        } else {
            Ok(())
        }
    }
}

} // verus!
