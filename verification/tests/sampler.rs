//! Picking tokens.
use dwim::sampler::{top, Greedy, Rng, Sample};

fn bits(values: &[f32]) -> Vec<u32> {
    values.iter().map(|v| v.to_bits()).collect()
}

#[test]
fn picks_from_the_top_k_in_order() {
    let mut logits = vec![0.0; 1000];
    logits[7] = 5.0;
    logits[300] = 4.0;
    logits[999] = 3.0;
    let logits = bits(&logits);
    let mut greedy = Greedy {};
    assert_eq!(greedy.sample(&logits, &[]), 7);
    // With k of one, the top token is the only one kept.
    assert_eq!(top(&logits, 1), [(7, 5.0f32.to_bits())]);
    // With k of two, the third never comes up.
    let picks: Vec<u32> = top(&logits, 2).iter().map(|c| c.0).collect();
    assert!(picks.contains(&7) && picks.contains(&300) && !picks.contains(&999));
    assert_eq!(picks, [7, 300]);
}

#[test]
fn keeps_at_least_one_and_at_most_all() {
    let logits = bits(&[-1.0, -2.0, 0.5]);
    let ids = |k: usize| -> Vec<u32> { top(&logits, k).iter().map(|c| c.0).collect() };
    assert_eq!(ids(0), [2]);
    assert_eq!(ids(3), [2, 0, 1]);
    assert_eq!(ids(100), [2, 0, 1]);
}

#[test]
fn agrees_with_sorting() {
    let mut rng = Rng::new(5);
    let values: Vec<f32> = (0..500).map(|_| rng.next() as f32 / 16_777_216.0 - 0.5).collect();
    let mut order: Vec<u32> = (0..500).collect();
    order.sort_by(|&a, &b| values[b as usize].partial_cmp(&values[a as usize]).unwrap());
    let picked: Vec<u32> = top(&bits(&values), 20).iter().map(|c| c.0).collect();
    assert_eq!(picked, order[..20]);
}

#[test]
fn earlier_tokens_win_ties() {
    let logits = bits(&[0.0, 1.0, 1.0, -0.0, 0.0]);
    let ids: Vec<u32> = top(&logits, 5).iter().map(|c| c.0).collect();
    assert_eq!(ids, [1, 2, 0, 3, 4]);
}

#[test]
fn passes_over_masked_tokens() {
    let logits = bits(&[0.0, 5.0, 3.0]);
    let mut greedy = Greedy {};
    assert_eq!(greedy.sample(&logits, &[1]), 2);
    assert_eq!(greedy.sample(&logits, &[1, 2]), 0);
}

#[test]
fn draws_as_xorshift_does() {
    let mut rng = Rng::new(0);
    let mut state = 1u64;
    for _ in 0..10 {
        state ^= state >> 12;
        state ^= state << 25;
        state ^= state >> 27;
        assert_eq!(rng.next() as u64, state.wrapping_mul(0x2545F4914F6CDD1D) >> 40);
    }
    let mut rng = Rng::new(1);
    assert_eq!(rng.next(), 4_711_630);
}
