use knot::error::{format_kernel_error, ErrorCode, KernelError};
use knot::id::{hash_deterministic, Id};
use knot::snap::{coincident_indices, merge_lattice_indices, LatticeIndex};

fn li(ix: i64, iy: i64, iz: i64) -> LatticeIndex {
    LatticeIndex { ix, iy, iz }
}

#[test]
fn error_code_numbers_and_labels() {
    assert_eq!(ErrorCode::InvalidKnotVector.code(), 100);
    assert_eq!(ErrorCode::LoopNotClosed.code(), 205);
    assert_eq!(ErrorCode::DegenerateIntersection.code(), 302);
    assert_eq!(ErrorCode::OperationTimeout.code(), 404);
    assert_eq!(ErrorCode::UnsupportedFormat.code(), 501);
    assert_eq!(ErrorCode::InvalidKnotVector.label(), "E100");
    assert_eq!(ErrorCode::MissedBranch.label(), "E301");
    assert_eq!(ErrorCode::MalformedInput.label(), "E500");
}

#[test]
fn kernel_error_messages() {
    let e = KernelError::InvalidGeometry {
        code: ErrorCode::NegativeWeight,
        detail: String::from("weight -1"),
    };
    assert_eq!(e.message(), "invalid geometry (E102): weight -1");
    assert_eq!(e.kind(), "InvalidGeometry");
    assert_eq!(e.detail(), "weight -1");
    assert_eq!(e.code(), Some(ErrorCode::NegativeWeight));

    let io = KernelError::Io { detail: String::from("disk full") };
    assert_eq!(io.message(), "io error: disk full");
    assert_eq!(io.code(), None);

    let d = KernelError::Degenerate { code: ErrorCode::DegenerateCurve, detail: String::from("zero length") };
    assert_eq!(d.message(), "degenerate configuration (E103): zero length");
}

#[test]
fn compact_error_format() {
    let e = KernelError::IntersectionFailure {
        code: ErrorCode::NoConvergence,
        detail: String::from("newton stalled"),
    };
    assert_eq!(format_kernel_error(&e), "E300:IntersectionFailure:newton stalled");
    let io = KernelError::Io { detail: String::from("eof") };
    assert_eq!(format_kernel_error(&io), "E000:Io:eof");
    let t = KernelError::TopoInconsistency { code: ErrorCode::OpenShell, detail: String::new() };
    assert_eq!(format_kernel_error(&t), "E200:TopoInconsistency:");
}

#[test]
fn merge_collapses_equal_indices() {
    let indices = vec![li(0, 0, 0), li(1, 0, 0), li(0, 0, 0), li(2, 5, -1), li(1, 0, 0)];
    let (unique, map) = merge_lattice_indices(&indices);
    assert_eq!(unique, vec![li(0, 0, 0), li(1, 0, 0), li(2, 5, -1)]);
    assert_eq!(map, vec![0, 1, 0, 2, 1]);
}

#[test]
fn merge_keeps_distinct_indices() {
    let indices = vec![li(3, 3, 3), li(-3, 3, 3), li(3, -3, 3)];
    let (unique, map) = merge_lattice_indices(&indices);
    assert_eq!(unique, indices);
    assert_eq!(map, vec![0, 1, 2]);
    let (empty, none) = merge_lattice_indices(&vec![]);
    assert!(empty.is_empty() && none.is_empty());
}

#[test]
fn coincidence_is_index_equality() {
    assert!(coincident_indices(li(1, 2, 3), li(1, 2, 3)));
    assert!(!coincident_indices(li(1, 2, 3), li(1, 2, 4)));
}

#[test]
fn ids_compare_by_hash() {
    let a: Id<u8> = Id::from_hash(42);
    let b: Id<u8> = Id::from_hash(42);
    let c: Id<u8> = Id::from_hash(7);
    assert!(a == b);
    assert!(a != c);
    assert_eq!(a.hash_value(), 42);
    assert_eq!(hash_deterministic(&"edge"), hash_deterministic(&"edge"));
}

/// The lattice index of a point on a grid of the given cell size, rounded
/// as the snap grid rounds.
fn snapped(p: (f64, f64, f64), cell: f64) -> LatticeIndex {
    li((p.0 / cell).round() as i64, (p.1 / cell).round() as i64, (p.2 / cell).round() as i64)
}

#[test]
fn snap_and_merge_collapses_nearby() {
    let points = [(0.0, 0.0, 0.0), (0.03, 0.02, 0.01), (1.0, 0.0, 0.0), (1.01, 0.0, 0.0)];
    let indices: Vec<LatticeIndex> = points.iter().map(|p| snapped(*p, 0.1)).collect();
    let (unique, map) = merge_lattice_indices(&indices);
    assert_eq!(unique.len(), 2, "should collapse to 2 unique points, got {}", unique.len());
    assert_eq!(map[0], map[1], "first two should map to same");
    assert_eq!(map[2], map[3], "last two should map to same");
    assert_ne!(map[0], map[2], "different clusters should differ");
}

#[test]
fn snap_and_merge_preserves_distinct() {
    let points = [(0.0, 0.0, 0.0), (0.5, 0.0, 0.0), (1.0, 0.0, 0.0)];
    let indices: Vec<LatticeIndex> = points.iter().map(|p| snapped(*p, 0.01)).collect();
    let (unique, map) = merge_lattice_indices(&indices);
    assert_eq!(unique.len(), 3);
    assert_eq!(map, vec![0, 1, 2]);
}

#[test]
fn coincident_on_grid() {
    assert!(coincident_indices(snapped((0.1, 0.1, 0.1), 0.5), snapped((0.2, 0.2, 0.2), 0.5)));
    assert!(!coincident_indices(snapped((0.1, 0.1, 0.1), 0.5), snapped((0.6, 0.1, 0.1), 0.5)));
}

#[test]
fn ids_hash_by_their_value() {
    let mut set = std::collections::HashSet::new();
    set.insert(Id::<u8>::from_hash(42));
    set.insert(Id::<u8>::from_hash(42));
    set.insert(Id::<u8>::from_hash(7));
    assert_eq!(set.len(), 2);
}
