//! How the symmetries of the grid move sets of strokes: images, orbits and
//! canonical forms, all on identifiers.

use crate::bits::{identifier_of, lemma_members_determine, lemma_members_of_identifier, members_of};
use crate::parameters::{is_bijection, Parameters};
use vstd::prelude::*;

verus! {

/// The set onto which the permutation `p` moves the members of `s`.
pub open spec fn image(p: Seq<usize>, s: Set<usize>) -> Set<usize> {
    Set::new(|j: usize| exists|i: usize| #[trigger] s.contains(i) && i < p.len() && p[i as int] == j)
}

/// The identifier of the set onto which `p` moves the set that `x` stands for.
pub open spec fn moved(p: Seq<usize>, x: u64) -> u64 {
    identifier_of(image(p, members_of(x)))
}

/// The permutation that first moves by `q` and then by `p`.
pub open spec fn compose(p: Seq<usize>, q: Seq<usize>) -> Seq<usize> {
    Seq::new(q.len(), |i: int| p[q[i] as int])
}

/// The permutation of `n` strokes that moves none.
pub open spec fn identity(n: nat) -> Seq<usize> {
    Seq::new(n, |i: int| i as usize)
}

/// The set that `x` stands for has only members below `n`.
pub open spec fn inside(x: u64, n: nat) -> bool {
    forall|i: usize| members_of(x).contains(i) ==> i < n
}

/// The identifier of an image stands for that image.
pub proof fn lemma_moved_members(p: Seq<usize>, x: u64)
    requires
        is_bijection(p),
        p.len() <= 64,
    ensures
        members_of(moved(p, x)) == image(p, members_of(x)),
        inside(moved(p, x), p.len()),
{
    lemma_members_of_identifier(image(p, members_of(x)));
}

/// The identity moves no set.
pub proof fn lemma_moved_identity(n: nat, x: u64)
    requires
        n <= 64,
        inside(x, n),
    ensures
        moved(identity(n), x) == x,
{
    let p = identity(n);
    lemma_moved_members(p, x);
    assert forall|j: usize| members_of(x).contains(j) implies image(p, members_of(x)).contains(
        j,
    ) by {
        assert(members_of(x).contains(j) && j < p.len() && p[j as int] == j);
    }
    assert(image(p, members_of(x)) =~= members_of(x));
    lemma_members_determine(moved(p, x), x);
}

/// Moving by `q` and then by `p` is moving by their composition.
pub proof fn lemma_moved_compose(p: Seq<usize>, q: Seq<usize>, x: u64)
    requires
        is_bijection(p),
        is_bijection(q),
        p.len() == q.len(),
        p.len() <= 64,
    ensures
        moved(p, moved(q, x)) == moved(compose(p, q), x),
{
    let pq = compose(p, q);
    let s = members_of(x);
    lemma_compose_bijection(p, q);
    lemma_moved_members(q, x);
    lemma_moved_members(p, moved(q, x));
    lemma_moved_members(pq, x);
    let twice = image(p, image(q, s));
    let once = image(pq, s);
    assert forall|j: usize| twice.contains(j) implies once.contains(j) by {
        let mid = choose|mid: usize| #[trigger]
            image(q, s).contains(mid) && mid < p.len() && p[mid as int] == j;
        let i = choose|i: usize| #[trigger] s.contains(i) && i < q.len() && q[i as int] == mid;
        assert(s.contains(i) && i < pq.len() && pq[i as int] == j);
    }
    assert forall|j: usize| once.contains(j) implies twice.contains(j) by {
        let i = choose|i: usize| #[trigger] s.contains(i) && i < pq.len() && pq[i as int] == j;
        let mid = q[i as int];
        assert(s.contains(i) && i < q.len() && q[i as int] == mid);
        assert(image(q, s).contains(mid) && mid < p.len() && p[mid as int] == j);
    }
    assert(twice =~= once);
    lemma_members_determine(moved(p, moved(q, x)), moved(pq, x));
}

/// The composition of two permutations of the same strokes is one.
pub proof fn lemma_compose_bijection(p: Seq<usize>, q: Seq<usize>)
    requires
        is_bijection(p),
        is_bijection(q),
        p.len() == q.len(),
    ensures
        is_bijection(compose(p, q)),
{
    let pq = compose(p, q);
    assert forall|i: int, j: int| 0 <= i < j < pq.len() implies pq[i] != pq[j] by {
        let a = q[i] as int;
        let b = q[j] as int;
        assert(a != b);
        if a < b {
            assert(p[a] != p[b]);
        } else {
            assert(p[b] != p[a]);
        }
    }
}

impl Parameters {
    /// The identifier of the set onto which symmetry `t` moves the set of `x`.
    pub open spec fn image_of(&self, t: int, x: u64) -> u64 {
        moved(self.symmetry(t), x)
    }

    /// The orbit of `x`: `x` itself and its image under every symmetry listed.
    pub open spec fn orbit(&self, x: u64) -> Set<u64> {
        Set::new(
            |y: u64|
                y == x || exists|t: int|
                    0 <= t < self.symmetry_count() && y == #[trigger] self.image_of(t, x),
        )
    }

    /// The smallest among `x` and its images under the first `m` symmetries.
    pub open spec fn least_image(&self, x: u64, m: nat) -> u64
        decreases m,
    {
        if m == 0 {
            x
        } else {
            let rest = self.least_image(x, (m - 1) as nat);
            let next = self.image_of(m - 1, x);
            if next < rest {
                next
            } else {
                rest
            }
        }
    }

    /// The canonical form of `x`: the smallest identifier in its orbit.
    pub open spec fn canonical(&self, x: u64) -> u64 {
        self.least_image(x, self.symmetry_count())
    }

    /// `p` is the identity or one of the symmetries listed.
    pub open spec fn in_group(&self, p: Seq<usize>) -> bool {
        p == identity(self.stroke_count()) || exists|t: int|
            0 <= t < self.symmetry_count() && p == #[trigger] self.symmetry(t)
    }

    /// The symmetries listed, with the identity, are closed under
    /// composition: moving by one and then by another is the identity or a
    /// symmetry listed.
    pub open spec fn symmetries_closed(&self) -> bool {
        forall|t: int, u: int|
            0 <= t < self.symmetry_count() && 0 <= u < self.symmetry_count() ==> self.in_group(
                #[trigger] compose(self.symmetry(t), self.symmetry(u)),
            )
    }

    proof fn lemma_least_image(&self, x: u64, m: nat)
        requires
            m <= self.symmetry_count(),
        ensures
            self.orbit(x).contains(self.least_image(x, m)),
            self.least_image(x, m) <= x,
            forall|t: int| 0 <= t < m ==> self.least_image(x, m) <= #[trigger] self.image_of(t, x),
        decreases m,
    {
        if m > 0 {
            self.lemma_least_image(x, (m - 1) as nat);
        }
    }

    /// The canonical form is a member of the orbit, and no member is smaller.
    pub proof fn lemma_canonical_is_least(&self, x: u64)
        ensures
            self.orbit(x).contains(self.canonical(x)),
            forall|y: u64| self.orbit(x).contains(y) ==> self.canonical(x) <= y,
    {
        self.lemma_least_image(x, self.symmetry_count());
    }

    /// The image of a set under a symmetry listed belongs to the orbit of the set.
    pub proof fn lemma_image_in_orbit(&self, t: int, x: u64)
        requires
            0 <= t < self.symmetry_count(),
        ensures
            self.orbit(x).contains(self.image_of(t, x)),
    {
    }

    /// Every member of the group permutes the strokes of the catalog.
    proof fn lemma_group_bijection(&self, p: Seq<usize>)
        requires
            self.wf(),
            self.in_group(p),
        ensures
            is_bijection(p),
            p.len() == self.stroke_count(),
    {
    }

    /// The group is closed under composition, the identity included.
    proof fn lemma_group_closed(&self, p: Seq<usize>, q: Seq<usize>)
        requires
            self.wf(),
            self.symmetries_closed(),
            self.in_group(p),
            self.in_group(q),
        ensures
            self.in_group(compose(p, q)),
    {
        let n = self.stroke_count();
        self.lemma_group_bijection(p);
        self.lemma_group_bijection(q);
        if p == identity(n) {
            assert(compose(p, q) =~= q);
        } else if q == identity(n) {
            assert(compose(p, q) =~= p);
        } else {
            let t = choose|t: int| 0 <= t < self.symmetry_count() && p == #[trigger] self.symmetry(t);
            let u = choose|u: int| 0 <= u < self.symmetry_count() && q == #[trigger] self.symmetry(u);
            assert(self.in_group(compose(self.symmetry(t), self.symmetry(u))));
        }
    }

    /// The members of the group, as a set.
    spec fn group(&self) -> Set<Seq<usize>> {
        Set::new(|p: Seq<usize>| self.in_group(p))
    }

    proof fn lemma_group_finite(&self)
        ensures
            self.group().finite(),
    {
        let listed = vstd::set_lib::set_int_range(0, self.symmetry_count() as int);
        vstd::set_lib::lemma_int_range(0, self.symmetry_count() as int);
        let f = |t: int| self.symmetry(t);
        listed.lemma_map_finite(f);
        let all = listed.map(f).insert(identity(self.stroke_count()));
        assert forall|p: Seq<usize>| self.group().contains(p) implies all.contains(p) by {
            if p != identity(self.stroke_count()) {
                let t = choose|t: int|
                    0 <= t < self.symmetry_count() && p == #[trigger] self.symmetry(t);
                assert(listed.contains(t) && f(t) == p);
            }
        }
        assert forall|p: Seq<usize>| all.contains(p) implies self.group().contains(p) by {
            if p != identity(self.stroke_count()) {
                let t = choose|t: int| listed.contains(t) && f(t) == p;
                assert(p == self.symmetry(t));
            }
        }
        assert(self.group() =~= all);
    }

    /// Every member of the group has its inverse in the group.
    pub proof fn lemma_group_inverse(&self, g: Seq<usize>) -> (h: Seq<usize>)
        requires
            self.wf(),
            self.symmetries_closed(),
            self.in_group(g),
        ensures
            self.in_group(h),
            compose(h, g) == identity(self.stroke_count()),
    {
        let n = self.stroke_count();
        let group = self.group();
        let after = |h: Seq<usize>| compose(g, h);
        let images = group.map(after);
        self.lemma_group_finite();
        self.lemma_group_bijection(g);
        assert forall|a: Seq<usize>, b: Seq<usize>|
            group.contains(a) && group.contains(b) && #[trigger] after(a) == #[trigger] after(
                b,
            ) implies a == b by {
            self.lemma_group_bijection(a);
            self.lemma_group_bijection(b);
            assert forall|i: int| 0 <= i < n implies a[i] == b[i] by {
                assert(compose(g, a)[i] == compose(g, b)[i]);
                let x = a[i] as int;
                let y = b[i] as int;
                if x < y {
                    assert(g[x] != g[y]);
                } else if y < x {
                    assert(g[y] != g[x]);
                }
            }
            assert(a =~= b);
        }
        assert(vstd::relations::injective_on(after, group));
        vstd::set_lib::lemma_map_size(group, images, after);
        assert forall|p: Seq<usize>| images.contains(p) implies group.contains(p) by {
            let a = choose|a: Seq<usize>| group.contains(a) && after(a) == p;
            self.lemma_group_closed(g, a);
        }
        vstd::set_lib::lemma_subset_equality(images, group);
        assert(group.contains(identity(n)));
        assert(images.contains(identity(n)));
        let h = choose|h: Seq<usize>| group.contains(h) && after(h) == identity(n);
        self.lemma_group_bijection(h);
        assert forall|i: int| 0 <= i < n implies compose(h, g)[i] == identity(n)[i] by {
            let j = g[i] as int;
            let back = h[j] as int;
            assert(compose(g, h)[j] == identity(n)[j]);
            assert(g[back] == g[i]);
            if back < i {
                assert(g[back] != g[i]);
            } else if i < back {
                assert(g[i] != g[back]);
            }
        }
        assert(compose(h, g) =~= identity(n));
        h
    }

    /// A member of the orbit of `x` is the image of `x` under a member of the group.
    proof fn lemma_orbit_witness(&self, x: u64, y: u64) -> (g: Seq<usize>)
        requires
            self.wf(),
            inside(x, self.stroke_count()),
            self.orbit(x).contains(y),
        ensures
            self.in_group(g),
            y == moved(g, x),
            inside(y, self.stroke_count()),
    {
        let n = self.stroke_count();
        if y == x {
            lemma_moved_identity(n, x);
            identity(n)
        } else {
            let t = choose|t: int|
                0 <= t < self.symmetry_count() && y == #[trigger] self.image_of(t, x);
            lemma_moved_members(self.symmetry(t), x);
            self.symmetry(t)
        }
    }

    /// The image of `x` under a member of the group belongs to the orbit of `x`.
    proof fn lemma_orbit_member(&self, x: u64, g: Seq<usize>)
        requires
            self.wf(),
            inside(x, self.stroke_count()),
            self.in_group(g),
        ensures
            self.orbit(x).contains(moved(g, x)),
    {
        let n = self.stroke_count();
        if g == identity(n) {
            lemma_moved_identity(n, x);
        } else {
            let t = choose|t: int| 0 <= t < self.symmetry_count() && g == #[trigger] self.symmetry(t);
            assert(moved(g, x) == self.image_of(t, x));
        }
    }

    /// All members of one orbit have the same orbit.
    pub proof fn lemma_orbit_constant(&self, x: u64, y: u64)
        requires
            self.wf(),
            self.symmetries_closed(),
            inside(x, self.stroke_count()),
            self.orbit(x).contains(y),
        ensures
            self.orbit(y) == self.orbit(x),
    {
        let n = self.stroke_count();
        let g = self.lemma_orbit_witness(x, y);
        let back = self.lemma_group_inverse(g);
        self.lemma_group_bijection(g);
        self.lemma_group_bijection(back);
        lemma_moved_compose(back, g, x);
        lemma_moved_identity(n, x);
        assert(moved(back, y) == x);
        assert forall|z: u64| self.orbit(y).contains(z) implies self.orbit(x).contains(z) by {
            let h = self.lemma_orbit_witness(y, z);
            self.lemma_group_bijection(h);
            lemma_moved_compose(h, g, x);
            self.lemma_group_closed(h, g);
            self.lemma_orbit_member(x, compose(h, g));
        }
        assert forall|z: u64| self.orbit(x).contains(z) implies self.orbit(y).contains(z) by {
            let h = self.lemma_orbit_witness(x, z);
            self.lemma_group_bijection(h);
            lemma_moved_compose(h, back, y);
            self.lemma_group_closed(h, back);
            self.lemma_orbit_member(y, compose(h, back));
        }
        assert(self.orbit(y) =~= self.orbit(x));
    }

    /// All members of one orbit have the same canonical form.
    pub proof fn lemma_canonical_constant(&self, x: u64, y: u64)
        requires
            self.wf(),
            self.symmetries_closed(),
            inside(x, self.stroke_count()),
            self.orbit(x).contains(y),
        ensures
            self.canonical(y) == self.canonical(x),
    {
        self.lemma_orbit_constant(x, y);
        self.lemma_canonical_is_least(x);
        self.lemma_canonical_is_least(y);
    }
}

} // verus!
