use terrain_water::heightmap::HeightMap;
use terrain_water::water::WaterSimulator;
use terrain_water::ONE;

#[test]
fn flat_terrain_redistributes_exact_quarters() {
    // 5x5 flat terrain, source at (2,2) with depth 0.1, inflow 0.1/s,
    // one step of one second: the source rises to 0.2, sends a quarter
    // of the level difference to each of its four neighbours, and ends
    // dry-but-wet at depth 0; each neighbour holds 0.05.
    let mut sim = WaterSimulator::new(vec![0; 25], 5, 2, 2, 100_000, 100_000);
    let changes = sim.step(1000);
    assert_eq!(sim.depth_at(2, 2), 0);
    assert_eq!(sim.depth_at(1, 2), 50_000);
    assert_eq!(sim.depth_at(3, 2), 50_000);
    assert_eq!(sim.depth_at(2, 1), 50_000);
    assert_eq!(sim.depth_at(2, 3), 50_000);
    for x in 0..5usize {
        for z in 0..5usize {
            let adjacent = (x == 2 && z == 2)
                || (x == 1 && z == 2) || (x == 3 && z == 2)
                || (x == 2 && z == 1) || (x == 2 && z == 3);
            if !adjacent {
                assert_eq!(sim.depth_at(x, z), 0);
                assert!(!sim.is_wet(x, z));
            }
        }
    }
    // the source stays wet at zero depth; the four receivers turned wet
    assert!(sim.is_wet(2, 2));
    assert!(sim.is_wet(1, 2));
    // exactly those five cells changed, reported in row-major order
    assert_eq!(changes.len(), 5);
    let idx: Vec<usize> = changes.iter().map(|c| c.x * 5 + c.z).collect();
    assert_eq!(idx, vec![7, 11, 12, 13, 17]);
    for c in &changes {
        assert_eq!(c.depth, sim.depth_at(c.x, c.z));
    }
}

#[test]
fn mass_is_conserved_without_inflow() {
    // inflow 0: over several steps the summed depth never moves.
    let mut sim = WaterSimulator::new(vec![0; 25], 5, 2, 2, 0, 300_000);
    assert_eq!(sim.total_depth(), 300_000);
    for _ in 0..5 {
        sim.step(1000);
        assert_eq!(sim.total_depth(), 300_000);
    }
}

#[test]
fn mass_grows_by_exactly_the_injection() {
    let mut sim = WaterSimulator::new(vec![0; 9], 3, 1, 1, 100_000, 0);
    sim.step(500);
    // injection = 100_000 * 500 / 1000
    assert_eq!(sim.total_depth(), 50_000);
    sim.step(500);
    assert_eq!(sim.total_depth(), 100_000);
}

#[test]
fn injection_fills_a_pit() {
    // the source sits in a pit: no outflow, so its depth grows by
    // exactly inflow_rate * elapsed.
    let mut heights = vec![10 * ONE; 9];
    heights[4] = 0; // cell (1,1)
    let mut sim = WaterSimulator::new(heights, 3, 1, 1, 100_000, 0);
    let changes = sim.step(1000);
    assert_eq!(sim.depth_at(1, 1), 100_000);
    assert_eq!(changes.len(), 1);
    assert_eq!((changes[0].x, changes[0].z), (1, 1));
}

#[test]
fn water_spreads_to_lower_neighbours() {
    // 2x2 flat terrain, one unit of water at (0,0): both orthogonal
    // neighbours receive depth and turn wet; the diagonal stays dry.
    let mut sim = WaterSimulator::new(vec![0; 4], 2, 0, 0, 0, ONE);
    let changes = sim.step(1000);
    assert_eq!(sim.depth_at(0, 1), 250_000);
    assert_eq!(sim.depth_at(1, 0), 250_000);
    assert_eq!(sim.depth_at(0, 0), 500_000);
    assert!(sim.is_wet(0, 1));
    assert!(sim.is_wet(1, 0));
    assert!(!sim.is_wet(1, 1));
    assert_eq!(changes.len(), 3);
}

#[test]
fn overdraining_clamps_depth_at_zero() {
    // a thin film on a clifftop next to deep drops: the computed
    // outflow exceeds the stored depth, and the chosen policy clamps
    // the source at zero instead of going negative.
    let mut heights = vec![-100 * ONE; 4];
    heights[0] = 0; // cell (0,0)
    let mut sim = WaterSimulator::new(heights, 2, 0, 0, 0, 100_000);
    sim.step(4000);
    assert_eq!(sim.depth_at(0, 0), 0);
    assert!(sim.depth_at(0, 1) > 0);
    assert!(sim.depth_at(1, 0) > 0);
}

#[test]
fn no_water_means_no_changes() {
    let mut sim = WaterSimulator::new(vec![0; 9], 3, 0, 0, 0, 0);
    let changes = sim.step(1000);
    assert_eq!(changes.len(), 0);
    assert_eq!(sim.total_depth(), 0);
}

#[test]
fn simulator_takes_the_height_map_surface() {
    // a 3x3 map gives a 2x2 simulated surface: the extra row and
    // column are synthesis scratch space only.
    let hm = HeightMap { width: 3, cells: vec![10, 20, 99, 30, 40, 99, 99, 99, 99] };
    let sim = WaterSimulator::from_height_map(&hm, 0, 0, 0, 0);
    assert_eq!(sim.side, 2);
    assert_eq!(sim.heights, vec![10, 20, 30, 40]);
}

#[test]
fn elapsed_time_scales_the_flow() {
    // half the elapsed time moves half the depth difference share.
    let mut sim = WaterSimulator::new(vec![0; 4], 2, 0, 0, 0, ONE);
    sim.step(500);
    assert_eq!(sim.depth_at(0, 1), 125_000);
}
