use graph_puzzle::level::generate_level;
use graph_puzzle::rng::draw_words;

#[test]
fn generator_is_deterministic_for_seeds_1_to_100() {
    for seed in 1..=100u64 {
        let g1 = generate_level(seed);
        let g2 = generate_level(seed);
        assert_eq!(g1.vertices.len(), g2.vertices.len());
        for (v1, v2) in g1.vertices.iter().zip(g2.vertices.iter()) {
            assert_eq!(v1.pos, v2.pos);
            assert_eq!(v1.start_pos, v2.start_pos);
            assert_eq!(v1.required_edges, v2.required_edges);
            assert_eq!(v1.edges.len(), 0);
            assert_eq!(v2.edges.len(), 0);
        }
    }
}

#[test]
fn generated_vertices_keep_minimum_spacing() {
    for seed in 1..=50u64 {
        let g = generate_level(seed);
        for i in 0..g.vertices.len() {
            for j in i + 1..g.vertices.len() {
                let dx = g.vertices[i].pos.x - g.vertices[j].pos.x;
                let dy = g.vertices[i].pos.y - g.vertices[j].pos.y;
                assert!(dx * dx + dy * dy > 19_600, "seed {} pair {} {}", seed, i, j);
            }
        }
    }
}

#[test]
fn generated_degree_sums_are_even_and_positive() {
    for seed in 1..=100u64 {
        let g = generate_level(seed);
        let mut sum = 0usize;
        for v in g.vertices.iter() {
            assert!(v.required_edges >= 1, "seed {}", seed);
            sum += v.required_edges;
        }
        assert_eq!(sum % 2, 0, "seed {}", seed);
    }
}

#[test]
fn generated_vertices_lie_in_the_square() {
    for seed in 1..=50u64 {
        let g = generate_level(seed);
        for v in g.vertices.iter() {
            assert!(-620 <= v.pos.x && v.pos.x <= 620);
            assert!(-620 <= v.pos.y && v.pos.y <= 620);
            assert_eq!(v.pos, v.start_pos);
        }
    }
}

#[test]
fn early_levels_are_small() {
    // Level 1 draws its count from min(seed + 1, 4)..=min(seed + 1, 25),
    // so it aims for exactly two vertices and can only lose some.
    let g = generate_level(1);
    assert!(g.vertices.len() <= 2);
}

#[test]
fn word_stream_is_deterministic_and_varied() {
    let a = draw_words(7, 16);
    let b = draw_words(7, 16);
    assert_eq!(a, b);
    // A real stream is not constant.
    assert!(a.windows(2).any(|w| w[0] != w[1]));
    // Different seeds give different streams.
    let c = draw_words(8, 16);
    assert_ne!(a, c);
}
