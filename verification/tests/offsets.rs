//! A gap buffer of offsets reads as one ascending list wherever its seam is.

use quill_engine::offsets::Offsets;

/// A table of line starts with the seam moved into the middle of it.
fn split() -> Offsets<char> {
    let mut table = Offsets::new(
        vec![(0, 'a'), (10, 'b'), (20, 'c'), (30, 'd'), (40, 'e')],
        50,
    );
    table.seam_to(2);
    table
}

#[test]
fn the_two_halves_read_as_one_ascending_list() {
    let table = split();
    assert_eq!(table.offsets(), vec![0, 10, 20, 30, 40]);
    assert_eq!(table.get(1), Some((10, &'b')));
    assert_eq!(table.get(2), Some((20, &'c')));
    assert_eq!(table.get(4), Some((40, &'e')));
    assert_eq!(table.get(5), None);
    assert_eq!(table.offset(3), Some(30));
    assert_eq!(table.len(), 5);
}

#[test]
fn a_partition_point_lands_the_same_wherever_the_seam_is() {
    let entries = || vec![(0, ()), (10, ()), (20, ()), (30, ()), (40, ())];
    let plain = Offsets::new(entries(), 50);
    let mut moved = Offsets::new(entries(), 50);
    for seam in 0..=5 {
        moved.seam_to(seam);
        for offset in [0, 5, 10, 25, 40, 45, 60] {
            assert_eq!(
                moved.partition_point(|start| start <= offset),
                plain.partition_point(|start| start <= offset),
                "offset {offset} with the seam at {seam}"
            );
        }
    }
}

#[test]
fn a_partition_point_is_the_count_of_the_entries_the_predicate_holds_for() {
    let mut table = split();
    assert_eq!(table.partition_point(|start| start <= 25), 3);
    assert_eq!(table.partition_point(|start| start < 20), 2);
    assert_eq!(table.partition_point(|_| true), 5);
    table.seam_to(0);
    assert_eq!(table.partition_point(|_| false), 0);
}

#[test]
fn a_splice_moves_what_is_below_it_without_touching_it() {
    let mut table = split();
    table.splice(2..2, Vec::new(), 3);
    assert_eq!(table.offsets(), vec![0, 10, 23, 33, 43]);
    table.splice(2..2, vec![(13, 'n')], 1);
    assert_eq!(table.offsets(), vec![0, 10, 13, 24, 34, 44]);
    assert_eq!(table.get(2), Some((13, &'n')));
    table.splice(2..4, Vec::new(), -18);
    assert_eq!(table.offsets(), vec![0, 10, 16, 26]);
}

#[test]
fn a_removal_closes_the_gap_and_the_rest_stay_where_they_were() {
    let mut table = split();
    assert_eq!(table.remove(3), Some((30, 'd')));
    assert_eq!(table.offsets(), vec![0, 10, 20, 40]);
    assert_eq!(table.remove(0), Some((0, 'a')));
    assert_eq!(table.offsets(), vec![10, 20, 40]);
    assert_eq!(table.remove(9), None);
}

#[test]
fn iter_walks_both_halves_in_order_with_their_tags() {
    let table = split();
    assert_eq!(
        table.iter(),
        vec![(0, &'a'), (10, &'b'), (20, &'c'), (30, &'d'), (40, &'e')]
    );
}
