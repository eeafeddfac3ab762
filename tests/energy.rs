use freq_buffer::energy::{energy_receive, energy_send, ENERGY_BUFFER_LIMIT};
use freq_buffer::{Frequency, Registry};

#[test]
fn energy_cap_clamp() {
    let mut reg = Registry::new();
    let f = Frequency("A".into());
    reg.merge_energy(f.clone(), 4_000_000_000);
    assert_eq!(reg.receive_energy(&f, 1_000_000_000), Some(705_032_705));
    assert_eq!(reg.energy_buffers().to_vec(), vec![(f, 4_294_967_295)]);
    assert_eq!(energy_receive(4_000_000_000, 1_000_000_000), (4_294_967_295, 705_032_705));
}

#[test]
fn energy_drain() {
    let mut reg = Registry::new();
    let f = Frequency("A".into());
    reg.merge_energy(f.clone(), 50);
    assert_eq!(reg.send_energy(&f, 100), 50);
    assert!(reg.energy_buffers().is_empty());
}

#[test]
fn energy_stays_in_range() {
    let mut reg = Registry::new();
    let f = Frequency("B".into());
    for offer in [0, 7, ENERGY_BUFFER_LIMIT, 3] {
        reg.receive_energy(&f, offer).unwrap();
        let v = reg.energy_buffers().first().map(|e| e.1).unwrap_or(0);
        assert!((0..=ENERGY_BUFFER_LIMIT).contains(&v));
    }
    assert_eq!(reg.send_energy(&f, 10), 10);
    assert_eq!(reg.energy_buffers()[0].1, ENERGY_BUFFER_LIMIT - 10);
}

#[test]
fn energy_negative_offer_is_accepted_as_zero() {
    assert_eq!(energy_receive(10, -4), (10, 0));
    assert_eq!(energy_receive(0, -1), (0, 0));
    assert_eq!(energy_send(10, -4), (10, 0));
    let mut reg = Registry::new();
    let f = Frequency("N".into());
    reg.merge_energy(f.clone(), 10);
    assert_eq!(reg.receive_energy(&f, -4), Some(0));
    assert_eq!(reg.energy_buffers().to_vec(), vec![(f, 10)]);
}

#[test]
fn energy_zero_entries_are_not_kept() {
    let mut reg = Registry::new();
    let f = Frequency("Z".into());
    assert_eq!(reg.receive_energy(&f, 0), Some(0));
    assert!(reg.energy_buffers().is_empty());
    assert_eq!(reg.receive_energy(&f, -7), Some(0));
    assert!(reg.energy_buffers().is_empty());
    reg.merge_energy(f.clone(), 0);
    assert!(reg.energy_buffers().is_empty());
    reg.merge_energy(f.clone(), 5);
    reg.merge_energy(f.clone(), -5);
    assert!(reg.energy_buffers().is_empty());
}

#[test]
fn energy_send_to_unknown_frequency() {
    let mut reg = Registry::new();
    assert_eq!(reg.send_energy(&Frequency("none".into()), 5), 0);
    assert!(reg.energy_buffers().is_empty());
}

#[test]
fn energy_overflow_is_reported() {
    let mut reg = Registry::new();
    let f = Frequency("A".into());
    reg.merge_energy(f.clone(), i64::MIN + 1);
    assert_eq!(reg.receive_energy(&f, 1), None);
    assert_eq!(reg.energy_buffers()[0].1, i64::MIN + 1);
}
