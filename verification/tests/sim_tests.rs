use carrier_net::Point3Bits;
use carrier_net::pool::StepInput;
use carrier_net::sim::Simulation;
use carrier_net::view::ViewState;
use nalgebra::geometry::Point3;
use nalgebra::geometry::Rotation3;

const RED: (u32, u32, u32) = (0x3F80_0000, 0x3DCC_CCCD, 0x3DCC_CCCD);
const IDLE_Y: u32 = 0x3BA3_D70A; // 0.005 in single precision

fn p(x: f32, y: f32, z: f32) -> Point3Bits {
    Point3Bits { x: x.to_bits(), y: y.to_bits(), z: z.to_bits() }
}

fn square_sim(carriers: usize) -> Simulation {
    Simulation::new(
        vec![p(0.0, 0.0, 0.0), p(1.0, 0.0, 0.0), p(1.0, 1.0, 0.0), p(0.0, 1.0, 0.0)],
        &vec![(0, 1), (1, 2), (2, 3), (3, 0)],
        carriers,
        RED,
    )
}

#[test]
fn new_spawns_the_requested_pool() {
    let s = square_sim(3);
    assert_eq!(s.pool.carriers.len(), 3);
    assert_eq!(s.graph.node_positions.len(), 4);
    assert_eq!(s.graph.edges.len(), 4);
    assert!(!s.view.dragging);
    for c in s.pool.carriers.iter() {
        assert!(c.src < 4 && c.dest < 4);
        assert_eq!(c.progress_bits, 0);
        assert_eq!(c.color, RED);
    }
}

#[test]
fn square_scenario_sweep_replaces_the_congested_edge() {
    // Drive one edge's hop count to the break threshold, sweep, and the
    // edge is gone while fresh synthetic edges touch its old endpoints.
    let mut s = square_sim(1);
    for _ in 0..5 {
        s.graph.increment_hop(0, 1);
    }
    s.congestion_sweep(5);
    // The congested record is gone: if the key survived a colliding draw
    // at all, it is a fresh synthetic edge.
    assert!(!s.graph.edges.iter().any(|e| e.src == 0 && e.dest == 1 && !e.synthetic));
    for e in s.graph.edges.iter() {
        assert!(e.hop_count < 5);
        if e.synthetic {
            assert_eq!(e.hop_count, 0);
            assert!(e.src == 0 || e.src == 1);
        }
    }
    assert!(s.graph.edges.iter().any(|e| e.synthetic && e.src == 0));
    assert!(s.graph.edges.iter().any(|e| e.synthetic && e.src == 1));
}

#[test]
fn rotation_choice_follows_the_drag_state() {
    let mut s = square_sim(1);
    assert_eq!(s.rotation_for_tick(IDLE_Y), (0, IDLE_Y, 0));
    s.view.pointer_pressed();
    s.view.pointer_moved((10, 20), (7, 9));
    assert_eq!(s.rotation_for_tick(IDLE_Y), (7, 9, 0));
    s.view.pointer_released();
    assert_eq!(s.rotation_for_tick(IDLE_Y), (0, IDLE_Y, 0));
}

#[test]
fn pointer_moves_update_delta_only_while_dragging() {
    let mut v = ViewState::new();
    v.pointer_moved((3, 4), (1, 2));
    assert_eq!(v.last_bits, (3, 4));
    assert_eq!(v.delta_bits, (0, 0));
    v.pointer_pressed();
    assert!(v.dragging);
    v.pointer_moved((5, 6), (11, 12));
    assert_eq!(v.last_bits, (5, 6));
    assert_eq!(v.delta_bits, (11, 12));
    v.pointer_released();
    assert!(!v.dragging);
    v.pointer_moved((7, 8), (13, 14));
    assert_eq!(v.delta_bits, (11, 12));
}

#[test]
fn set_positions_moves_nodes_and_carriers_together() {
    let mut s = square_sim(2);
    let rotated: Vec<Point3Bits> =
        vec![p(0.1, 0.0, 0.0), p(1.1, 0.0, 0.0), p(1.1, 1.0, 0.0), p(0.1, 1.0, 0.0)];
    let carrier_positions: Vec<(Point3Bits, Point3Bits)> =
        vec![(p(0.2, 0.0, 0.0), p(0.3, 0.0, 0.0)), (p(0.4, 0.0, 0.0), p(0.5, 0.0, 0.0))];
    let before: Vec<(usize, usize)> =
        s.pool.carriers.iter().map(|c| (c.src, c.dest)).collect();
    s.set_positions(rotated.clone(), &carrier_positions);
    assert_eq!(s.graph.node_positions, rotated);
    for (i, c) in s.pool.carriers.iter().enumerate() {
        assert_eq!(c.pos, carrier_positions[i].0);
        assert_eq!(c.dest_pos, carrier_positions[i].1);
        assert_eq!((c.src, c.dest), before[i]);
    }
}

#[test]
fn rotation_round_trip_restores_positions() {
    // Rotate the whole state by some angles, then by their negation; every
    // node and carrier position comes back within floating-point
    // tolerance. The numeric rotation is the front end's; the library
    // stores what it is handed, nodes and carriers together.
    let mut s = square_sim(2);
    let originals: Vec<Point3Bits> = s.graph.node_positions.clone();
    let carrier_originals: Vec<(Point3Bits, Point3Bits)> =
        s.pool.carriers.iter().map(|c| (c.pos, c.dest_pos)).collect();
    let to_point =
        |b: Point3Bits| Point3::new(f32::from_bits(b.x), f32::from_bits(b.y), f32::from_bits(b.z));
    let to_bits =
        |q: Point3<f32>| Point3Bits { x: q.x.to_bits(), y: q.y.to_bits(), z: q.z.to_bits() };
    let forward = Rotation3::from_euler_angles(0.3f32, -0.7f32, 0.0);
    for r in [forward, forward.inverse()] {
        let nodes: Vec<Point3Bits> =
            s.graph.node_positions.iter().map(|&b| to_bits(r * to_point(b))).collect();
        let carriers: Vec<(Point3Bits, Point3Bits)> = s
            .pool
            .carriers
            .iter()
            .map(|c| (to_bits(r * to_point(c.pos)), to_bits(r * to_point(c.dest_pos))))
            .collect();
        s.set_positions(nodes, &carriers);
    }
    for (b, o) in s.graph.node_positions.iter().zip(originals.iter()) {
        assert!((f32::from_bits(b.x) - f32::from_bits(o.x)).abs() < 1e-4);
        assert!((f32::from_bits(b.y) - f32::from_bits(o.y)).abs() < 1e-4);
        assert!((f32::from_bits(b.z) - f32::from_bits(o.z)).abs() < 1e-4);
    }
    for (c, (op, od)) in s.pool.carriers.iter().zip(carrier_originals.iter()) {
        assert!((f32::from_bits(c.pos.x) - f32::from_bits(op.x)).abs() < 1e-4);
        assert!((f32::from_bits(c.dest_pos.x) - f32::from_bits(od.x)).abs() < 1e-4);
    }
}

#[test]
fn a_full_tick_in_order() {
    let mut s = square_sim(4);
    s.congestion_sweep(5);
    let angles = s.rotation_for_tick(IDLE_Y);
    assert_eq!(angles, (0, IDLE_Y, 0));
    // The numeric rotation is the caller's job; identity here.
    let nodes = s.graph.node_positions.clone();
    let carrier_positions: Vec<(Point3Bits, Point3Bits)> =
        s.pool.carriers.iter().map(|c| (c.pos, c.dest_pos)).collect();
    s.set_positions(nodes, &carrier_positions);
    let inputs: Vec<StepInput> = s
        .pool
        .carriers
        .iter()
        .map(|c| StepInput { progress_bits: 0.01f32.to_bits(), pos: c.pos })
        .collect();
    s.advance_carriers(&inputs);
    for c in s.pool.carriers.iter() {
        assert_eq!(c.progress_bits, 0.01f32.to_bits());
        assert!(c.src < 4 && c.dest < 4);
    }
}
