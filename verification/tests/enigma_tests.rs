use relvar::enigma::EnigmaMachine;

fn wiring(f: impl Fn(i64) -> i64) -> Vec<(i64, i64)> {
    (0..26).map(|i| (i, f(i))).collect()
}

fn rotor(offset: i64) -> Vec<(i64, i64)> {
    wiring(|i| (i * 3 + offset) % 26)
}

fn machine() -> EnigmaMachine {
    EnigmaMachine::new(
        wiring(|i| if i % 2 == 0 { i + 1 } else { i - 1 }),
        rotor(1),
        rotor(2),
        rotor(3),
        wiring(|i| (i + 13) % 26),
    )
}

#[test]
fn test_enigma_encryption_and_decryption() {
    let m = machine();
    let message = vec![(0, 10), (1, 11), (2, 12)];
    let ciphertext = m.encrypt(&message);
    assert!(ciphertext.iter().any(|&(pos, c)| c != pos + 10));
    let mut decrypted = m.encrypt(&ciphertext);
    decrypted.sort();
    assert_eq!(decrypted.len(), 3);
    for &(pos, c) in &decrypted {
        assert_eq!(c, pos + 10);
    }
}

#[test]
fn enigma_no_character_maps_to_itself() {
    let m = machine();
    let message: Vec<(i64, i64)> = (0..700).map(|p| (p, p % 26)).collect();
    let ciphertext = m.encrypt(&message);
    assert_eq!(ciphertext.len(), message.len());
    for &(pos, c) in &ciphertext {
        assert_ne!(c, pos % 26);
    }
    let mut back = m.encrypt(&ciphertext);
    back.sort();
    assert_eq!(back, message);
}

#[test]
fn enigma_negative_positions_use_truncating_offsets() {
    let m = machine();
    let message = vec![(-27, 5), (-1, 0)];
    let mut back = m.encrypt(&m.encrypt(&message));
    back.sort();
    assert_eq!(back, vec![(-27, 5), (-1, 0)]);
}

#[test]
fn enigma_empty_wiring_drops_everything() {
    let m = EnigmaMachine::new(vec![], vec![], vec![], vec![], vec![]);
    assert!(m.encrypt(&vec![(0, 1)]).is_empty());
}

#[test]
fn test_encrypt_keeps_positions_and_alphabet() {
    let m = machine();
    let message = vec![(0, 3), (5, 25), (9, 0), (40, 12)];
    let mut out = m.encrypt(&message);
    out.sort();
    let positions: Vec<i64> = out.iter().map(|p| p.0).collect();
    assert_eq!(positions, vec![0, 5, 9, 40]);
    assert!(out.iter().all(|&(_, c)| (0..26).contains(&c)));
}
