use equart::buffer::FrameBuffer;
use equart::equart::CircleField;
use equart::equart::Equart;
use equart::fixel::Fixel;
use equart::fixel::Mood;
use equart::fixel::RootType;
use equart::fixel::Sample;
use equart::fixel::Sign;
use equart::partition::slice;
use equart::partition::span;
use equart::pixel::Pixel;
use equart::pixel::color_of;

#[test]
fn partition_tiles_domain_exactly() {
    // Three slices of [-6_000_000, 6_000_000] on the common denominator 3:
    // contiguous, equal size, covering the whole extent.
    let s0 = slice(-6_000_000, 6_000_000, 0, 3);
    let s1 = slice(-6_000_000, 6_000_000, 1, 3);
    let s2 = slice(-6_000_000, 6_000_000, 2, 3);
    assert_eq!(s0.0, -18_000_000);
    assert_eq!(s2.1, 18_000_000);
    assert_eq!(s0.1, s1.0);
    assert_eq!(s1.1, s2.0);
    assert_eq!(s0.1 - s0.0, 12_000_000);
    assert_eq!(s1.1 - s1.0, 12_000_000);
    assert_eq!(s2.1 - s2.0, 12_000_000);
}

#[test]
fn span_is_exact_fraction() {
    assert_eq!(span(1, 4), (1, 4));
    assert_eq!(span(0, 1), (0, 1));
}

#[test]
fn empty_cell_classifies_no_data() {
    let f = Fixel::new();
    assert_eq!(f.root_type(), RootType::NoRoot);
    assert_eq!(f.mood, Mood::NoData);
    assert_eq!(f.probes.len(), 0);
}

#[test]
fn classification_from_probe_signs() {
    let mk = |sign| Sample { dx: 0, dy: 0, depth: 1, sign };
    let mut pos = Fixel::new();
    pos.transfer_probe(mk(Sign::Positive));
    pos.search_roots();
    assert_eq!(pos.root_type(), RootType::NoRoot);
    assert_eq!(pos.mood, Mood::Positive);

    let mut mixed = Fixel::new();
    mixed.transfer_probe(mk(Sign::Positive));
    mixed.transfer_probe(mk(Sign::Negative));
    mixed.search_roots();
    assert_eq!(mixed.root_type(), RootType::Root);

    let mut zero = Fixel::new();
    zero.transfer_probe(mk(Sign::Zero));
    zero.search_roots();
    assert_eq!(zero.root_type(), RootType::Root);

    let mut ood = Fixel::new();
    ood.transfer_probe(mk(Sign::Positive));
    ood.transfer_probe(mk(Sign::NonFinite));
    ood.search_roots();
    assert_eq!(ood.root_type(), RootType::OutOfDomain);
}

#[test]
fn color_mapping_exact_values() {
    assert_eq!(
        color_of(RootType::Root, Mood::NoData),
        Pixel { r: 0, g: 0, b: 0, a: 255 },
    );
    assert_eq!(
        color_of(RootType::OutOfDomain, Mood::Positive),
        Pixel { r: 255, g: 0, b: 0, a: 255 },
    );
    assert_eq!(
        color_of(RootType::NoRoot, Mood::NoData),
        Pixel { r: 255, g: 255, b: 255, a: 255 },
    );
    assert_eq!(
        color_of(RootType::NoRoot, Mood::Positive),
        Pixel { r: 255, g: 255, b: 200, a: 255 },
    );
    assert_eq!(
        color_of(RootType::NoRoot, Mood::Negative),
        Pixel { r: 200, g: 255, b: 255, a: 255 },
    );
}

#[test]
fn buffer_scale_preserves_overlap() {
    let mut b = FrameBuffer::new(4, 3);
    let red = Pixel { r: 255, g: 0, b: 0, a: 255 };
    b.put_pixel(1, 1, red);
    let bigger = b.scale(6, 5);
    assert_eq!(bigger.width, 6);
    assert_eq!(bigger.height, 5);
    assert_eq!(bigger.get_pixel(1, 1), red);
    assert_eq!(bigger.get_pixel(5, 4), Pixel { r: 255, g: 255, b: 255, a: 255 });
    let smaller = b.scale(2, 2);
    assert_eq!(smaller.get_pixel(1, 1), red);
    assert_eq!(smaller.get_pixel(0, 0), Pixel { r: 255, g: 255, b: 255, a: 255 });
}

#[test]
fn depth_is_monotone_and_capped() {
    // The depth sequence over frames never decreases, never passes 16, and
    // at the cap a frame refines nothing.
    let mut app = Equart::with_field(CircleField, 0, 1, 8, 8);
    assert_eq!(app.min_achived_depth, 4);
    let mut last = app.min_achived_depth;
    for _ in 0..20 {
        app.advance_frame();
        assert!(app.min_achived_depth >= last);
        assert!(app.min_achived_depth <= 16);
        last = app.min_achived_depth;
    }
    assert_eq!(app.min_achived_depth, 16);
    let probes_before: usize = (0..8)
        .map(|x| (0..8).map(|y| app.fixels.get(x, y).unwrap().probes.len()).sum::<usize>())
        .sum();
    app.advance_frame();
    let probes_after: usize = (0..8)
        .map(|x| (0..8).map(|y| app.fixels.get(x, y).unwrap().probes.len()).sum::<usize>())
        .sum();
    assert_eq!(probes_before, probes_after);
}

#[test]
fn refinement_fills_every_cell() {
    let mut app = Equart::with_field(CircleField, 0, 1, 8, 8);
    app.advance_frame();
    // Each cell is brought from depth 0 to depth 5: five probes.
    for x in 0..8 {
        for y in 0..8 {
            assert_eq!(app.fixels.get(x, y).unwrap().probes.len(), 5);
        }
    }
}

#[test]
fn cell_colors_follow_the_field() {
    let mut app = Equart::with_field(CircleField, 0, 1, 16, 16);
    app.advance_frame();
    // The corner is far outside the circle of radius four: positive tint.
    assert_eq!(app.cell_color(0, 0), Pixel { r: 255, g: 255, b: 200, a: 255 });
    // The center is inside it: negative tint.
    assert_eq!(app.cell_color(8, 8), Pixel { r: 200, g: 255, b: 255, a: 255 });
    // Out-of-grid coordinates give the background.
    assert_eq!(app.cell_color(99, 99), Pixel { r: 255, g: 255, b: 255, a: 255 });
}

#[test]
fn probe_destination_mapping() {
    // A probe at 60% of the width and about 21% of the height of a window
    // maps to the cell its offsets fall into under the new cell size.
    let s = Sample { dx: 7_200_000, dy: 2_500_000, depth: 3, sign: Sign::Negative };
    let locs = s.gen_locations(12_000_000, 12_000_000, 20, 5);
    assert_eq!(locs, vec![(12, 1)]);
    // A probe on the window's far edge maps one past the last cell.
    let edge = Sample { dx: 0, dy: 12_000_000, depth: 3, sign: Sign::Positive };
    let locs2 = edge.gen_locations(12_000_000, 12_000_000, 20, 5);
    assert_eq!(locs2, vec![(0, 5)]);
}

#[test]
fn reflow_moves_and_drops_probes() {
    // Reflow from 10x10 to 20x5: a probe on the window's vertical edge maps
    // outside the new grid and is dropped; a probe inside lands in exactly
    // the one cell its offsets select, and the destination reclassifies from
    // the survivors alone.
    let mut app = Equart::with_field(CircleField, 0, 1, 10, 10);
    let mut cell = app.fixels.get(3, 3).unwrap().duplicate();
    let surviving = Sample { dx: 600_000, dy: 2_500_000, depth: 2, sign: Sign::Negative };
    let edge = Sample { dx: 600_000, dy: 12_000_000, depth: 2, sign: Sign::NonFinite };
    cell.transfer_probe(surviving);
    cell.transfer_probe(edge);
    cell.search_roots();
    assert_eq!(cell.root_type(), RootType::OutOfDomain);
    app.fixels.set(3, 3, cell).unwrap();
    app.redistribute(20, 5);
    assert_eq!(app.nx, 20);
    assert_eq!(app.ny, 5);
    // dx 600_000 of 12_000_000 over 20 cells: column 1; dy 2_500_000 over 5
    // cells: row 1. The edge probe's row is 5: out of bounds, dropped.
    let mut total = 0;
    for x in 0..20 {
        for y in 0..5 {
            let c = app.fixels.get(x, y).unwrap();
            total += c.probes.len();
            if x == 1 && y == 1 {
                assert_eq!(c.probes.len(), 1);
                assert_eq!(c.probes[0], surviving);
                assert_eq!(c.root_type(), RootType::NoRoot);
                assert_eq!(c.mood, Mood::Negative);
            } else {
                assert_eq!(c.probes.len(), 0);
                assert_eq!(c.root_type(), RootType::NoRoot);
                assert_eq!(c.mood, Mood::NoData);
            }
        }
    }
    assert_eq!(total, 1);
}

#[test]
fn reflow_conserves_in_bounds_probes() {
    // Probes with in-bounds destinations are neither lost nor duplicated.
    let mut app = Equart::with_field(CircleField, 0, 1, 4, 4);
    app.advance_frame();
    let before: usize = (0..4)
        .map(|x| (0..4).map(|y| app.fixels.get(x, y).unwrap().probes.len()).sum::<usize>())
        .sum();
    assert_eq!(before, 16 * 5);
    app.redistribute(8, 2);
    let after: usize = (0..8)
        .map(|x| (0..2).map(|y| app.fixels.get(x, y).unwrap().probes.len()).sum::<usize>())
        .sum();
    // Every probe sits strictly inside the window (cell midpoints), so
    // nothing is dropped.
    assert_eq!(after, before);
}
