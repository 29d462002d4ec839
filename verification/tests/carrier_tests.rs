use carrier_net::Point3Bits;
use carrier_net::carrier::Carrier;
use carrier_net::carrier::is_hop_ready;
use carrier_net::graph::GraphStore;
use carrier_net::pool::CarrierPool;
use carrier_net::pool::StepInput;

const RED: (u32, u32, u32) = (0x3F80_0000, 0x3DCC_CCCD, 0x3DCC_CCCD);

fn p(x: f32, y: f32, z: f32) -> Point3Bits {
    Point3Bits { x: x.to_bits(), y: y.to_bits(), z: z.to_bits() }
}

fn square() -> GraphStore {
    GraphStore::new(
        vec![p(0.0, 0.0, 0.0), p(1.0, 0.0, 0.0), p(1.0, 1.0, 0.0), p(0.0, 1.0, 0.0)],
        &vec![(0, 1), (1, 2), (2, 3), (3, 0)],
    )
}

#[test]
fn hop_snaps_position_bit_exactly() {
    let g = square();
    let mut c = Carrier::spawn_at(&g, 0, 0, RED);
    let old_dest = c.dest;
    let old_dest_pos = c.dest_pos;
    c.progress_bits = 0.75f32.to_bits();
    c.hop_to(&g, 0);
    assert_eq!(c.src, old_dest);
    assert_eq!(c.pos, old_dest_pos);
    assert_eq!(c.progress_bits, 0);
    assert!(g.neighbors[c.src].contains(&c.dest));
    assert_eq!(c.dest_pos, g.node_positions[c.dest]);
}

#[test]
fn spawn_at_starts_on_its_source_node() {
    let g = square();
    let c = Carrier::spawn_at(&g, 2, 1, RED);
    assert_eq!(c.src, 2);
    assert_eq!(c.dest, g.neighbors[2][1]);
    assert_eq!(c.pos, g.node_positions[2]);
    assert_eq!(c.progress_bits, 0.0f32.to_bits());
    assert_eq!(c.color, RED);
}

#[test]
fn spawn_random_is_adjacency_constrained() {
    let g = square();
    for _ in 0..20 {
        let c = Carrier::spawn_random(&g, RED);
        assert!(c.src < 4);
        assert!(g.neighbors[c.src].contains(&c.dest));
        assert_eq!(c.pos, g.node_positions[c.src]);
        assert_eq!(c.progress_bits, 0);
    }
}

#[test]
fn hop_is_skipped_when_destination_has_no_neighbors() {
    let g = GraphStore::new(
        vec![p(0.0, 0.0, 0.0), p(1.0, 0.0, 0.0), p(2.0, 0.0, 0.0)],
        &vec![(0, 1)],
    );
    let stranded = Carrier {
        pos: p(0.5, 0.5, 0.0),
        dest_pos: p(2.0, 0.0, 0.0),
        src: 0,
        dest: 2,
        progress_bits: 0.6f32.to_bits(),
        color: RED,
    };
    let mut pool = CarrierPool { carriers: vec![stranded] };
    let mut g = g;
    let input = StepInput { progress_bits: 0.61f32.to_bits(), pos: p(0.9, 0.6, 0.0) };
    pool.advance(&mut g, &vec![input]);
    let c = &pool.carriers[0];
    // No hop: the carrier keeps interpolating past its nominal target.
    assert_eq!(c.src, 0);
    assert_eq!(c.dest, 2);
    assert_eq!(c.pos, input.pos);
    assert_eq!(c.progress_bits, input.progress_bits);
}

#[test]
fn no_hop_below_the_half_threshold() {
    // The largest progress value strictly below one half: no hop, and the
    // stored progress is approximately 0.5.
    let g = square();
    let mut pool = CarrierPool { carriers: vec![Carrier::spawn_at(&g, 0, 0, RED)] };
    let mut g = g;
    let just_below = f32::from_bits(0.5f32.to_bits() - 1);
    assert!(just_below < 0.5);
    let input = StepInput { progress_bits: just_below.to_bits(), pos: p(0.49, 0.0, 0.0) };
    pool.advance(&mut g, &vec![input]);
    let c = &pool.carriers[0];
    assert_eq!(c.src, 0);
    assert_eq!(c.dest, 1);
    assert_eq!(c.progress_bits, just_below.to_bits());
    assert!((f32::from_bits(c.progress_bits) - 0.5).abs() < 1e-6);
}

#[test]
fn hop_triggers_at_exactly_one_half() {
    let g = square();
    let mut pool = CarrierPool { carriers: vec![Carrier::spawn_at(&g, 0, 0, RED)] };
    let mut g = g;
    let input = StepInput { progress_bits: 0.5f32.to_bits(), pos: p(0.5, 0.0, 0.0) };
    pool.advance(&mut g, &vec![input]);
    let c = &pool.carriers[0];
    assert_eq!(c.src, 1);
    assert_eq!(c.progress_bits, 0);
}

#[test]
fn hop_threshold_matches_float_comparison() {
    for v in [0.0f32, 0.25, 0.4999999, 0.49f32 + 0.01f32, 0.5, 0.51, 1.0, 7.25] {
        assert_eq!(is_hop_ready(v.to_bits()), v >= 0.5);
    }
}

#[test]
fn hop_increments_edge_counts_in_both_present_directions() {
    // A two-node graph loaded in both directions: whichever way the
    // carrier hops, both directed edges get counted.
    let mut g = GraphStore::new(
        vec![p(0.0, 0.0, 0.0), p(1.0, 0.0, 0.0)],
        &vec![(0, 1), (1, 0)],
    );
    let mut pool = CarrierPool { carriers: vec![Carrier::spawn_at(&g, 0, 0, RED)] };
    let input = StepInput { progress_bits: 0.6f32.to_bits(), pos: p(0.8, 0.0, 0.0) };
    pool.advance(&mut g, &vec![input]);
    for e in g.edges.iter() {
        assert_eq!(e.hop_count, 1);
    }
}

#[test]
fn progress_is_monotone_until_the_hop() {
    // The numeric step outside the library only ever adds the positive
    // speed constant; the stored progress must mirror that sequence.
    let g = square();
    let mut pool = CarrierPool { carriers: vec![Carrier::spawn_at(&g, 0, 0, RED)] };
    let mut g = g;
    let mut progress = 0.0f32;
    let mut pos = f32::from_bits(pool.carriers[0].pos.x);
    loop {
        let prev = progress;
        progress += 0.01;
        assert!(progress >= prev);
        pos += progress * (1.0 - pos);
        if progress >= 0.5 {
            break;
        }
        let input = StepInput {
            progress_bits: progress.to_bits(),
            pos: Point3Bits { x: pos.to_bits(), y: 0, z: 0 },
        };
        pool.advance(&mut g, &vec![input]);
        assert_eq!(pool.carriers[0].progress_bits, progress.to_bits());
        assert!(f32::from_bits(pool.carriers[0].progress_bits) >= prev);
    }
}
