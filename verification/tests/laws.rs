use std::collections::HashSet;

use glyphs_generator::generate::{GlyphGenerator, LookupError};
use glyphs_generator::glyph::{Glyph, InternalGlyph};
use glyphs_generator::intersect::{are_strokes_linked, dfs};
use glyphs_generator::parameters::{ConfigurationError, Parameters};
use glyphs_generator::stroke::{InternalStroke, Stroke};
use glyphs_generator::{compute, Computable};

fn stroke(x0: i64, y0: i64, x1: i64, y1: i64) -> Stroke {
    Stroke { x0, y0, x1, y1 }
}

fn square() -> Parameters {
    Parameters {
        parent_strokes: vec![
            stroke(-1, -1, -1, 1),
            stroke(-1, -1, 1, -1),
            stroke(-1, -1, 1, 1),
            stroke(-1, 1, 1, -1),
            stroke(-1, 1, 1, 1),
            stroke(1, -1, 1, 1),
        ],
        intersection_matrix: vec![
            vec![1, 1, 1, 1, 1, 0],
            vec![1, 1, 1, 1, 0, 1],
            vec![1, 1, 1, 1, 1, 1],
            vec![1, 1, 1, 1, 1, 1],
            vec![1, 0, 1, 1, 1, 1],
            vec![0, 1, 1, 1, 1, 1],
        ],
        transformation_matrix: vec![
            vec![0, 5, 4, 1, 4, 5, 1],
            vec![4, 1, 0, 0, 5, 4, 5],
            vec![3, 3, 3, 2, 2, 2, 3],
            vec![2, 2, 2, 3, 3, 3, 2],
            vec![1, 4, 5, 5, 0, 1, 0],
            vec![5, 0, 1, 4, 1, 0, 4],
        ],
    }
}

fn generator() -> GlyphGenerator {
    GlyphGenerator::new(square()).unwrap()
}

fn set_of(indices: &[usize]) -> InternalGlyph {
    indices
        .iter()
        .fold(InternalGlyph::empty(), |acc, &index| acc.union(&InternalGlyph::single(index)))
}

fn identifiers(glyphs: &[InternalGlyph]) -> Vec<u64> {
    let mut ids: Vec<u64> = glyphs.iter().map(|glyph| glyph.identifier()).collect();
    ids.sort();
    ids
}

fn to_set(generator: &GlyphGenerator, glyph: &Glyph) -> InternalGlyph {
    glyph
        .strokes
        .iter()
        .fold(InternalGlyph::empty(), |acc, stroke| acc.union(&generator.from_stroke(stroke).unwrap()))
}

#[test]
fn union_is_commutative() {
    let a = set_of(&[0, 3, 5]);
    let b = set_of(&[3, 4]);
    assert_eq!(a.union(&b), b.union(&a));
    assert_eq!(a.union(&b).identifier(), 0b111001);
}

#[test]
fn union_is_idempotent() {
    let a = set_of(&[1, 2, 63]);
    assert_eq!(a.union(&a), a);
    assert_eq!(a.union(&a).members().len(), 3);
}

#[test]
fn union_with_empty_is_identity() {
    let a = set_of(&[2, 7]);
    let none = InternalGlyph::empty();
    assert_eq!(a.union(&none), a);
    assert_eq!(none.union(&a), a);
    assert_eq!(none.union(&none).identifier(), 0);
}

#[test]
fn union_is_associative() {
    let a = set_of(&[0]);
    let b = set_of(&[1, 5]);
    let c = set_of(&[5, 9]);
    assert_eq!(a.union(&b).union(&c), a.union(&b.union(&c)));
}

#[test]
fn union_lists_each_member_once() {
    let a = set_of(&[4, 1]);
    let b = set_of(&[1, 9, 4, 0]);
    let mut members = a.union(&b).members();
    members.sort();
    assert_eq!(members, vec![0, 1, 4, 9]);
}

#[test]
fn single_has_one_member_and_one_bit() {
    let one = InternalGlyph::single(5);
    assert_eq!(one.identifier(), 32);
    assert_eq!(one.members(), vec![5]);
    assert!(one.contains(5));
    assert!(!one.contains(4));
    assert!(!one.contains(64));
    assert_eq!(InternalGlyph::single(63).identifier(), 1u64 << 63);
}

#[test]
fn empty_has_no_member() {
    let none = InternalGlyph::empty();
    assert_eq!(none.identifier(), 0);
    assert!(none.members().is_empty());
    assert!(!none.contains(0));
}

#[test]
fn from_identifier_lists_members_in_increasing_order() {
    let glyph = InternalGlyph::from_identifier(0b101001);
    assert_eq!(glyph.members(), vec![0, 3, 5]);
    assert_eq!(glyph.identifier(), 0b101001);
    assert_eq!(InternalGlyph::from_identifier(u64::MAX).members().len(), 64);
    assert!(InternalGlyph::from_identifier(0).members().is_empty());
}

#[test]
fn equality_is_identifier_equality() {
    let a = InternalGlyph {
        strokes: vec![InternalStroke { index: 2 }, InternalStroke { index: 0 }],
        identifier: 5,
    };
    let b = InternalGlyph::from_identifier(5);
    let c = InternalGlyph::from_identifier(6);
    assert!(a == b);
    assert!(a != c);
    let copy = a.clone();
    assert_eq!(copy.strokes, a.strokes);
    assert_eq!(copy.identifier, 5);
}

#[test]
fn single_stroke_is_linked_and_none_is_not() {
    assert!(are_strokes_linked(&vec![0], &vec![vec![0]]));
    assert!(are_strokes_linked(&vec![2], &vec![vec![1, 0, 0], vec![0, 1, 0], vec![0, 0, 0]]));
    assert!(!are_strokes_linked(&vec![], &vec![vec![1]]));
    assert!(!are_strokes_linked(&vec![], &vec![]));
    let generator = generator();
    for index in 0..6 {
        assert!(generator.are_strokes_intersecting(&InternalGlyph::single(index)));
    }
    assert!(!generator.are_strokes_intersecting(&InternalGlyph::empty()));
}

#[test]
fn linked_through_a_third_stroke() {
    let matrix = vec![vec![1, 0, 1], vec![0, 1, 1], vec![1, 1, 1]];
    assert!(are_strokes_linked(&vec![0, 1, 2], &matrix));
    assert!(are_strokes_linked(&vec![1, 2, 0], &matrix));
    assert!(!are_strokes_linked(&vec![0, 1], &matrix));
}

#[test]
fn dfs_visits_what_can_be_reached() {
    let graph = vec![
        vec![0, 1, 0, 0],
        vec![0, 0, 1, 0],
        vec![0, 0, 0, 0],
        vec![1, 0, 0, 0],
    ];
    let mut visited: HashSet<usize> = HashSet::new();
    dfs(0, &mut visited, &graph);
    assert_eq!(visited, HashSet::from([0, 1, 2]));

    let mut visited: HashSet<usize> = HashSet::from([1]);
    dfs(0, &mut visited, &graph);
    assert_eq!(visited, HashSet::from([0, 1]));

    let mut visited: HashSet<usize> = HashSet::from([3]);
    dfs(3, &mut visited, &graph);
    assert_eq!(visited, HashSet::from([0, 1, 2, 3]));
}

#[test]
fn index_of_finds_the_first_exact_match() {
    let mut parameters = square();
    parameters.parent_strokes[4] = stroke(-1, -1, 1, -1);
    let generator = GlyphGenerator::new(parameters).unwrap();
    assert_eq!(generator.index_of(&stroke(-1, -1, 1, -1)), Ok(1));
    assert_eq!(generator.index_of(&stroke(1, -1, 1, 1)), Ok(5));
    // The end points are not put in order.
    assert_eq!(generator.index_of(&stroke(1, 1, 1, -1)), Err(LookupError::NotFound));
    assert_eq!(generator.index_of(&stroke(-1, 1, 1, 1)), Err(LookupError::NotFound));
}

#[test]
fn unknown_stroke_is_not_found() {
    let generator = generator();
    let unknown = stroke(0, 0, 2, 2);
    assert_eq!(generator.index_of(&unknown), Err(LookupError::NotFound));
    assert!(matches!(generator.from_stroke(&unknown), Err(LookupError::NotFound)));
    assert!(matches!(
        generator.resolve(&vec![stroke(-1, -1, -1, 1), unknown]),
        Err(LookupError::NotFound)
    ));
    let strokes = vec![stroke(-1, -1, -1, 1), unknown];
    assert_eq!(generator.generate(&strokes, &strokes[0]), Err(LookupError::NotFound));
    let strokes = vec![unknown, stroke(-1, -1, -1, 1)];
    assert_eq!(generator.generate(&strokes, &strokes[0]), Err(LookupError::NotFound));
    // The catalog stays good for the next call.
    let strokes = vec![stroke(-1, -1, -1, 1)];
    assert_eq!(generator.generate(&strokes, &strokes[0]).unwrap().len(), 1);
}

#[test]
fn from_stroke_and_to_glyph_are_inverse() {
    let generator = generator();
    let glyph = generator.from_stroke(&stroke(-1, 1, 1, -1)).unwrap();
    assert_eq!(glyph.identifier(), 8);
    assert_eq!(glyph.members(), vec![3]);
    let set = InternalGlyph {
        strokes: vec![InternalStroke { index: 5 }, InternalStroke { index: 0 }],
        identifier: 33,
    };
    assert_eq!(
        generator.to_glyph(&set),
        Glyph { strokes: vec![stroke(1, -1, 1, 1), stroke(-1, -1, -1, 1)] }
    );
    assert!(generator.to_glyph(&InternalGlyph::empty()).strokes.is_empty());
}

#[test]
fn resolve_gathers_the_positions() {
    let generator = generator();
    let palette = vec![stroke(1, -1, 1, 1), stroke(-1, -1, 1, 1), stroke(1, -1, 1, 1)];
    let set = generator.resolve(&palette).unwrap();
    assert_eq!(set.identifier(), 0b100100);
    assert_eq!(generator.resolve(&vec![]).unwrap().identifier(), 0);
}

#[test]
fn apply_moves_every_member() {
    let generator = generator();
    let set = set_of(&[1, 5, 2]);
    let moved = generator.apply(5, &set);
    assert_eq!(moved, set_of(&[4, 0, 2]));
    assert_eq!(moved.members(), vec![4, 0, 2]);
    assert_eq!(generator.apply(0, &set_of(&[0, 2])).identifier(), 0b1001);
    assert_eq!(generator.apply(3, &InternalGlyph::empty()).identifier(), 0);
    for t in 0..7 {
        assert_eq!(generator.apply(t, &set).members().len(), 3);
    }
}

#[test]
fn image_belongs_to_the_orbit() {
    let generator = generator();
    for identifier in 0..64u64 {
        let set = InternalGlyph::from_identifier(identifier);
        let orbit = generator.transform(&set);
        assert_eq!(orbit[0], set);
        for t in 0..7 {
            assert!(orbit.contains(&generator.apply(t, &set)));
        }
        let ids = identifiers(&orbit);
        let mut distinct = ids.clone();
        distinct.dedup();
        assert_eq!(ids, distinct);
    }
}

#[test]
fn orbit_is_the_same_for_all_its_members() {
    let generator = generator();
    for identifier in 0..64u64 {
        let set = InternalGlyph::from_identifier(identifier);
        let orbit = generator.transform(&set);
        for member in orbit.iter() {
            assert_eq!(identifiers(&generator.transform(member)), identifiers(&orbit));
            assert_eq!(generator.canonical_form(member), generator.canonical_form(&set));
        }
    }
}

#[test]
fn orbit_of_a_side_and_of_a_diagonal() {
    let generator = generator();
    assert_eq!(identifiers(&generator.transform(&InternalGlyph::single(4))), vec![1, 2, 16, 32]);
    assert_eq!(identifiers(&generator.transform(&InternalGlyph::single(3))), vec![4, 8]);
    assert_eq!(identifiers(&generator.transform(&InternalGlyph::empty())), vec![0]);
    assert_eq!(identifiers(&generator.transform(&set_of(&[2, 3]))), vec![12]);
}

#[test]
fn canonical_form_is_the_smallest_of_the_orbit() {
    let generator = generator();
    assert_eq!(generator.canonical_form(&InternalGlyph::single(4)).identifier(), 1);
    assert_eq!(generator.canonical_form(&InternalGlyph::single(3)).identifier(), 4);
    assert_eq!(generator.canonical_form(&InternalGlyph::single(0)).identifier(), 1);
    // A side with the diagonal at one of its ends: the smallest is side 0 with diagonal 2.
    assert_eq!(generator.canonical_form(&set_of(&[5, 3])).identifier(), 0b101);
    for identifier in 0..64u64 {
        let set = InternalGlyph::from_identifier(identifier);
        let least = identifiers(&generator.transform(&set))[0];
        assert_eq!(generator.canonical_form(&set).identifier(), least);
    }
}

#[test]
fn generate_gives_the_first_of_each_class_in_order() {
    let generator = generator();
    let left = stroke(-1, -1, -1, 1);
    let falling = stroke(-1, 1, 1, -1);
    let right = stroke(1, -1, 1, 1);
    let strokes = vec![left, falling, right];
    let glyphs = generator.generate(&strokes, &strokes[0]).unwrap();
    assert_eq!(
        glyphs,
        vec![
            Glyph { strokes: vec![left] },
            Glyph { strokes: vec![left, falling] },
            Glyph { strokes: vec![left, falling, right] },
        ]
    );
    // The order of the palette does not matter, nor a stroke given twice.
    let strokes = vec![right, left, falling, right];
    assert_eq!(generator.generate(&strokes, &left).unwrap(), glyphs);
}

#[test]
fn generate_with_another_seed() {
    let generator = generator();
    let left = stroke(-1, -1, -1, 1);
    let falling = stroke(-1, 1, 1, -1);
    let right = stroke(1, -1, 1, 1);
    let strokes = vec![left, falling, right];
    let glyphs = generator.generate(&strokes, &falling).unwrap();
    // {falling}, {left, falling}, {left, falling, right}; {falling, right} is the
    // image of {left, falling} under the half turn.
    assert_eq!(
        glyphs,
        vec![
            Glyph { strokes: vec![falling] },
            Glyph { strokes: vec![left, falling] },
            Glyph { strokes: vec![left, falling, right] },
        ]
    );
    let glyphs = generator.generate(&vec![right], &right).unwrap();
    assert_eq!(glyphs, vec![Glyph { strokes: vec![right] }]);
}

#[test]
fn enumerate_keeps_identifiers_in_increasing_order() {
    let generator = generator();
    let available = set_of(&[0, 2, 3, 5]);
    let kept: Vec<u64> =
        generator.enumerate(&available, 0).iter().map(|set| set.identifier()).collect();
    assert_eq!(kept, vec![0b000001, 0b000101, 0b001101, 0b100101, 0b101101]);
    let kept: Vec<u64> =
        generator.enumerate(&InternalGlyph::single(63 - 60), 3).iter().map(|set| set.identifier()).collect();
    assert_eq!(kept, vec![8]);
}

#[test]
fn every_glyph_has_the_seed_and_none_is_an_image_of_another() {
    let generator = generator();
    let palette = square().parent_strokes;
    for seed in palette.iter() {
        let glyphs = generator.generate(&palette, seed).unwrap();
        let sets: Vec<InternalGlyph> =
            glyphs.iter().map(|glyph| to_set(&generator, glyph)).collect();
        for (i, glyph) in glyphs.iter().enumerate() {
            assert!(glyph.strokes.contains(seed));
            assert!(generator.are_strokes_intersecting(&sets[i]));
            for (j, other) in sets.iter().enumerate() {
                if i != j {
                    assert!(sets[i] != *other);
                    for t in 0..7 {
                        assert!(generator.apply(t, &sets[i]) != *other);
                    }
                }
            }
        }
    }
}

#[test]
fn compute_takes_the_first_stroke_as_seed() {
    let generator = generator();
    let strokes = vec![
        stroke(-1, -1, -1, 1),
        stroke(-1, 1, 1, -1),
        stroke(-1, -1, 1, 1),
        stroke(1, -1, 1, 1),
    ];
    let glyphs = compute(&generator, &Computable { strokes: strokes.clone() }).unwrap();
    assert_eq!(glyphs.len(), 5);
    assert_eq!(glyphs, generator.generate(&strokes, &strokes[0]).unwrap());
    let unknown = Computable { strokes: vec![stroke(9, 9, 9, 9)] };
    assert_eq!(compute(&generator, &unknown), Err(LookupError::NotFound));
}

#[test]
fn good_catalog_is_accepted() {
    assert_eq!(square().validate(), Ok(()));
    assert_eq!(square().strokes(), 6);
    assert_eq!(square().symmetries(), 7);
    let none = Parameters {
        parent_strokes: vec![],
        intersection_matrix: vec![],
        transformation_matrix: vec![],
    };
    assert_eq!(none.validate(), Ok(()));
    assert_eq!(none.symmetries(), 0);
    assert!(GlyphGenerator::new(none).is_ok());
}

#[test]
fn too_many_strokes_are_refused() {
    let count = 65;
    let parameters = Parameters {
        parent_strokes: (0..count).map(|i| stroke(i, 0, i, 1)).collect(),
        intersection_matrix: vec![vec![1; 65]; 65],
        transformation_matrix: vec![vec![]; 65],
    };
    assert_eq!(parameters.validate(), Err(ConfigurationError::TooManyStrokes));
    let parameters = Parameters {
        parent_strokes: (0..64).map(|i| stroke(i, 0, i, 1)).collect(),
        intersection_matrix: vec![vec![1; 64]; 64],
        transformation_matrix: vec![vec![]; 64],
    };
    assert_eq!(parameters.validate(), Ok(()));
}

#[test]
fn adjacency_that_is_not_square_is_refused() {
    let mut parameters = square();
    parameters.intersection_matrix.pop();
    assert_eq!(parameters.validate(), Err(ConfigurationError::AdjacencyNotSquare));
    let mut parameters = square();
    parameters.intersection_matrix[3].push(1);
    assert_eq!(parameters.validate(), Err(ConfigurationError::AdjacencyNotSquare));
    assert!(matches!(
        GlyphGenerator::new(parameters),
        Err(ConfigurationError::AdjacencyNotSquare)
    ));
}

#[test]
fn adjacency_that_is_not_symmetric_is_refused() {
    let mut parameters = square();
    parameters.intersection_matrix[0][5] = 1;
    assert_eq!(parameters.validate(), Err(ConfigurationError::AdjacencyNotSymmetric));
}

#[test]
fn permutation_of_wrong_length_is_refused() {
    let mut parameters = square();
    parameters.transformation_matrix.pop();
    assert_eq!(parameters.validate(), Err(ConfigurationError::PermutationWrongLength));
    let mut parameters = square();
    parameters.transformation_matrix[2].pop();
    assert_eq!(parameters.validate(), Err(ConfigurationError::PermutationWrongLength));
}

#[test]
fn permutation_that_is_not_bijective_is_refused() {
    let mut parameters = square();
    parameters.transformation_matrix[0][6] = 0;
    assert_eq!(parameters.validate(), Err(ConfigurationError::PermutationNotBijective));
    let mut parameters = square();
    parameters.transformation_matrix[0][0] = 6;
    assert_eq!(parameters.validate(), Err(ConfigurationError::PermutationNotBijective));
}

#[test]
fn first_failure_is_reported() {
    let mut parameters = square();
    parameters.intersection_matrix[0][5] = 1;
    parameters.transformation_matrix[0][6] = 0;
    assert_eq!(parameters.validate(), Err(ConfigurationError::AdjacencyNotSymmetric));
}
