use symmetrix::commands::{calibration_tier, predict_active_neurons, ACTIVE_NEURONS, HIDDEN_SIZE};

/// The prediction as the control plane states it: draw with the generator, keep the
/// new neurons in order, sort.
fn reference_prediction(layer_id: u32, input_hash: &str) -> Vec<u32> {
    let hash_bytes = input_hash.as_bytes();
    let seed: u64 = hash_bytes
        .iter()
        .enumerate()
        .fold(0u64, |acc, (i, &b)| acc.wrapping_add((b as u64) << (i % 8 * 8)));
    let num_active = 102;
    let mut active: Vec<u32> = Vec::new();
    let mut state = seed.wrapping_add(layer_id as u64);
    for _ in 0..num_active {
        state = state.wrapping_mul(6364136223846793005).wrapping_add(1442695040888963407);
        let idx = ((state >> 32) as u32) % 2048;
        if !active.contains(&idx) {
            active.push(idx);
        }
    }
    while active.len() < num_active {
        state = state.wrapping_mul(6364136223846793005).wrapping_add(1442695040888963407);
        let idx = ((state >> 32) as u32) % 2048;
        if !active.contains(&idx) {
            active.push(idx);
        }
    }
    active.sort();
    active
}

#[test]
fn prediction_picks_102_sorted_neurons() {
    let r = predict_active_neurons(0, "hash_of_input");
    assert_eq!(r.len(), ACTIVE_NEURONS);
    assert!(r.windows(2).all(|w| w[0] < w[1]));
    assert!(r.iter().all(|&n| n < HIDDEN_SIZE));
}

#[test]
fn prediction_matches_the_generator() {
    for (layer, hash) in [(0u32, ""), (1, "a"), (7, "hash_of_input"), (383, "0123456789abcdef0123"), (u32::MAX, "ü")] {
        assert_eq!(predict_active_neurons(layer, hash), reference_prediction(layer, hash), "layer {} hash {:?}", layer, hash);
    }
}

#[test]
fn prediction_is_deterministic_and_depends_on_layer() {
    let a = predict_active_neurons(3, "abc");
    let b = predict_active_neurons(3, "abc");
    assert_eq!(a, b);
    assert_ne!(a, predict_active_neurons(4, "abc"));
}

#[test]
fn calibration_tiers() {
    let (name, t) = calibration_tier(None);
    assert_eq!(name, "professional");
    assert_eq!((t.code, t.compression_ratio), (3, 1250));
    let (name, t) = calibration_tier(Some("BASIC".to_string()));
    assert_eq!(name, "BASIC");
    assert_eq!((t.code, t.compression_ratio), (1, 10));
    let (_, t) = calibration_tier(Some("none".to_string()));
    assert_eq!((t.code, t.compression_ratio), (0, 1));
    let (_, t) = calibration_tier(Some("Standard".to_string()));
    assert_eq!((t.code, t.compression_ratio), (2, 100));
    let (_, t) = calibration_tier(Some("enterPRISE".to_string()));
    assert_eq!((t.code, t.compression_ratio), (4, 10000));
    let (name, t) = calibration_tier(Some("gold".to_string()));
    assert_eq!(name, "gold");
    assert_eq!((t.code, t.compression_ratio), (3, 1250));
    let (_, t) = calibration_tier(Some("basics".to_string()));
    assert_eq!((t.code, t.compression_ratio), (3, 1250));
}

#[test]
fn prediction_reply_for_a_layer() {
    let r = symmetrix::commands::prediction_reply(12, "hash_of_input");
    assert!(r.success);
    assert_eq!(r.message, "GFEF prediction for layer 12");
    assert_eq!(r.active_neurons, predict_active_neurons(12, "hash_of_input"));
    assert_eq!(r.active_neurons.len(), 102);
}
