use georbf::layout::{
    append_section, axis_name, declared_polynomial_term_count, difference_name, planar_dofs,
    polynomial_dofs, section, tangent_dofs, ConstraintLayout, DifferenceKind, IndexRange,
    LayoutDof, LayoutPartitions, LayoutPointRef, LayoutRole, LayoutSectionKind,
    SourceConstraintCounts,
};
use georbf::{Axis, Error, InternalParameters, ModelType, SolverType};

fn sample_layout() -> ConstraintLayout {
    let mut dofs = Vec::new();
    let mut roles = Vec::new();
    let mut sections = Vec::new();
    append_section(
        &mut dofs,
        &mut roles,
        &mut sections,
        LayoutSectionKind::InterfaceValues,
        vec![LayoutDof::InterfaceValue { index: 0 }, LayoutDof::InterfaceValue { index: 1 }],
        LayoutRole::Equality,
    );
    append_section(
        &mut dofs,
        &mut roles,
        &mut sections,
        LayoutSectionKind::SameLevelDifferences,
        vec![LayoutDof::Difference {
            kind: DifferenceKind::SameLevelInterface,
            positive: LayoutPointRef::Interface(1),
            negative: LayoutPointRef::Interface(0),
        }],
        LayoutRole::Equality,
    );
    append_section(
        &mut dofs,
        &mut roles,
        &mut sections,
        LayoutSectionKind::PlanarDerivatives,
        planar_dofs(1),
        LayoutRole::Equality,
    );
    append_section(
        &mut dofs,
        &mut roles,
        &mut sections,
        LayoutSectionKind::Polynomial,
        polynomial_dofs(4),
        LayoutRole::Polynomial,
    );
    let partitions = LayoutPartitions::new(
        IndexRange::new(0, 6),
        IndexRange::new(6, 6),
        IndexRange::new(6, 6),
        IndexRange::new(6, 10),
    );
    ConstraintLayout::new(
        ModelType::SingleSurface,
        SourceConstraintCounts { inequalities: 0, interfaces: 2, planars: 1, tangents: 0 },
        InternalParameters {
            problem_type: SolverType::Linear,
            modified_basis: false,
            restricted_range: true,
            n_inequality: 0,
            n_interface: 2,
            n_planar: 1,
            n_tangent: 0,
            n_constraints: 6,
            n_equality: 6,
            n_poly_terms: 4,
        },
        dofs,
        roles,
        sections,
        partitions,
    )
}

#[test]
fn index_range_arithmetic() {
    let range = IndexRange::new(3, 7);
    assert_eq!(range.start(), 3);
    assert_eq!(range.end(), 7);
    assert_eq!(range.len(), 4);
    assert!(!range.is_empty());
    assert!(range.contains(3));
    assert!(range.contains(6));
    assert!(!range.contains(7));
    assert!(!range.contains(2));
    assert!(IndexRange::new(5, 5).is_empty());
    assert_eq!(IndexRange::new(5, 5).len(), 0);
}

#[test]
fn polynomial_term_counts() {
    assert_eq!(declared_polynomial_term_count(0), Ok(1));
    assert_eq!(declared_polynomial_term_count(1), Ok(4));
    assert_eq!(declared_polynomial_term_count(2), Ok(10));
    assert_eq!(declared_polynomial_term_count(-1), Ok(0));
    assert_eq!(declared_polynomial_term_count(-3), Ok(0));
    assert_eq!(
        declared_polynomial_term_count(-4),
        Err(Error::InterpolationMatrixFailure)
    );
    assert_eq!(
        declared_polynomial_term_count(i32::MIN),
        Err(Error::InterpolationMatrixFailure)
    );
    assert_eq!(
        declared_polynomial_term_count(i32::MAX),
        Err(Error::InterpolationMatrixFailure)
    );
    assert_eq!(declared_polynomial_term_count(2_000_000), Ok(1_333_337_333_337_000_001));
}

#[test]
fn dof_builders_enumerate_rows() {
    assert_eq!(
        planar_dofs(2),
        vec![
            LayoutDof::PlanarDerivative { index: 0, axis: Axis::X },
            LayoutDof::PlanarDerivative { index: 0, axis: Axis::Y },
            LayoutDof::PlanarDerivative { index: 0, axis: Axis::Z },
            LayoutDof::PlanarDerivative { index: 1, axis: Axis::X },
            LayoutDof::PlanarDerivative { index: 1, axis: Axis::Y },
            LayoutDof::PlanarDerivative { index: 1, axis: Axis::Z },
        ]
    );
    assert_eq!(
        tangent_dofs(2),
        vec![LayoutDof::Tangent { index: 0 }, LayoutDof::Tangent { index: 1 }]
    );
    assert!(polynomial_dofs(0).is_empty());
    let built = section(LayoutSectionKind::Tangents, 2, 4);
    assert_eq!(built.kind(), LayoutSectionKind::Tangents);
    assert_eq!(built.range(), IndexRange::new(2, 4));
}

#[test]
fn layout_queries() {
    let layout = sample_layout();
    assert_eq!(layout.model(), ModelType::SingleSurface);
    assert_eq!(layout.matrix_size(), 10);
    assert_eq!(layout.polynomial_dof_count(), 4);
    assert_eq!(layout.constraint_dof_count(), 6);
    assert_eq!(layout.dof(1), Some(&LayoutDof::InterfaceValue { index: 1 }));
    assert_eq!(layout.dof(10), None);
    assert_eq!(layout.role(9), Some(LayoutRole::Polynomial));
    assert_eq!(layout.role(10), None);
    assert_eq!(layout.index_of(&LayoutDof::PolynomialTerm { index: 2 }), Some(8));
    assert_eq!(layout.index_of(&LayoutDof::Tangent { index: 0 }), None);
    assert_eq!(
        layout.section(LayoutSectionKind::PlanarDerivatives),
        Some(IndexRange::new(3, 6))
    );
    assert_eq!(layout.section(LayoutSectionKind::Tangents), None);
    assert_eq!(layout.sections().len(), 4);
    assert_eq!(layout.partitions().polynomial(), IndexRange::new(6, 10));
    assert_eq!(layout.source_counts().interfaces, 2);
    assert_eq!(layout.internal_parameters().n_poly_terms, 4);
    assert_eq!(layout.dofs().len(), 10);
    assert_eq!(layout.clone(), layout);
}

#[test]
fn layout_snapshot_is_exact() {
    let expected = "model=SingleSurface solver=Linear modified=false restricted=true\n\
source inequality=0 interface=2 planar=1 tangent=0\n\
internal inequality=0 interface=2 planar=1 tangent=0 constraints=6 equality=6 polynomial=4\n\
matrix size=10 equality=0..6 inequality=6..6 bounded=6..6 polynomial=6..10\n\
section interface_values=0..2\n\
section same_level_differences=2..3\n\
section planar_derivatives=3..6\n\
section polynomial=6..10\n\
0 equality interface[0]\n\
1 equality interface[1]\n\
2 equality difference.same_level(interface[1]-interface[0])\n\
3 equality planar[0].dx\n\
4 equality planar[0].dy\n\
5 equality planar[0].dz\n\
6 polynomial polynomial[0]\n\
7 polynomial polynomial[1]\n\
8 polynomial polynomial[2]\n\
9 polynomial polynomial[3]";
    assert_eq!(sample_layout().debug_snapshot(), expected);
}

#[test]
fn snapshot_names() {
    assert_eq!(LayoutRole::Bounded.snapshot_name(), "bounded");
    assert_eq!(
        LayoutSectionKind::SequencedInequalityDifferences.snapshot_name(),
        "sequenced_inequality_differences"
    );
    assert_eq!(
        difference_name(DifferenceKind::InequalityBelowUpperInterface),
        "upper_minus_inequality"
    );
    assert_eq!(axis_name(Axis::Z), "z");
}

#[test]
fn index_range_text_is_start_dot_dot_end() {
    assert_eq!(georbf::layout::IndexRange::new(3, 7).text(), "3..7");
    assert_eq!(georbf::layout::IndexRange::new(0, 0).text(), "0..0");
}

#[test]
fn layout_snapshot_has_one_line_per_header_section_and_row() {
    let layout = sample_layout();
    let snapshot = layout.debug_snapshot();
    assert!(layout.matrix_size() > 0);
    assert_eq!(snapshot.lines().count(), 4 + layout.sections().len() + layout.matrix_size());
    assert!(!snapshot.ends_with('\n'));
    assert!(snapshot.lines().next().unwrap().starts_with("model="));
}
