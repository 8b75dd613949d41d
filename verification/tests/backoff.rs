use seq_agent::backoff::Backoff;

#[test]
fn delays_double_up_to_five_seconds() {
    let mut b = Backoff::new();
    let delays: Vec<u64> = (0..8).map(|_| b.on_failure()).collect();
    assert_eq!(delays, vec![200, 400, 800, 1600, 3200, 5000, 5000, 5000]);
}
