use enigma::engine::{Enigma, RotorConfig};
use enigma::errors::EnigmaError;
use enigma::wheel::Wheel;

fn cfg(name: &str, position: usize) -> RotorConfig {
    RotorConfig { name: String::from(name), position }
}

fn standard(positions: [usize; 3]) -> Enigma {
    let configs = vec![
        cfg("I", positions[0]),
        cfg("II", positions[1]),
        cfg("III", positions[2]),
        cfg("Reflector B", 0),
    ];
    Enigma::configure(&configs, &Vec::new()).unwrap()
}

fn steps(e: &Enigma) -> Vec<usize> {
    e.wheels.iter().map(|w| w.step).collect()
}

#[test]
fn by_name_known_rotor() {
    let w = Wheel::by_name("I").unwrap();
    assert_eq!(w.name, "I");
    assert_eq!(w.wiring, "JGDQOXUSCAMIFRVTPNEWKBLZYH");
    assert_eq!(w.notch, "Q");
    assert_eq!(w.step, 0);
    assert!(!w.fixed);
}

#[test]
fn by_name_reflector() {
    let w = Wheel::by_name("Reflector B").unwrap();
    assert_eq!(w.wiring, "YRUHQSLDPXNGOKMIEBFZCWVJAT");
    assert_eq!(w.notch, "");
    assert!(w.fixed);
}

#[test]
fn by_name_every_catalog_entry() {
    let names = [
        "IC", "IIC", "IIIC", "I", "II", "III", "IV", "V", "VI", "VII", "VIII", "Reflector A",
        "Reflector B", "Reflector C", "Reflector B Thin", "Reflector C Thin",
    ];
    for name in names {
        let w = Wheel::by_name(name).unwrap();
        assert_eq!(w.name, name);
        assert_eq!(w.wiring.len(), 26);
    }
}

#[test]
fn by_name_unknown_rotor() {
    assert_eq!(Wheel::by_name("IX").unwrap_err(), EnigmaError::UnknownRotor);
    assert_eq!(Wheel::by_name("").unwrap_err(), EnigmaError::UnknownRotor);
}

#[test]
fn modulo_values() {
    assert_eq!(Wheel::modulo(30, 26), 4);
    assert_eq!(Wheel::modulo(-5, 26), 21);
    assert_eq!(Wheel::modulo(0, 26), 0);
    assert_eq!(Wheel::modulo(25, 26), 25);
    assert_eq!(Wheel::modulo(26, 26), 0);
}

#[test]
fn send_right_values() {
    let w = Wheel::by_name("I").unwrap();
    assert_eq!(w.send_right('A'), 'J');
    let mut w = w;
    w.step = 1;
    assert_eq!(w.send_right('A'), 'G');
}

#[test]
fn send_left_inverts_send_right() {
    let mut w = Wheel::by_name("I").unwrap();
    w.step = 7;
    for c in 'A'..='Z' {
        assert_eq!(w.send_left(w.send_right(c)), c);
        assert_eq!(w.send_right(w.send_left(c)), c);
    }
}

#[test]
fn on_notch_at_notch_letter() {
    let mut w = Wheel::by_name("I").unwrap();
    assert!(!w.on_notch());
    w.step = 16; // 'Q'
    assert!(w.on_notch());
}

#[test]
fn golden_single_letter() {
    let mut e = standard([0, 0, 0]);
    assert_eq!(e.encrypt("A").unwrap(), "S");
}

#[test]
fn golden_line() {
    let mut e = standard([0, 0, 0]);
    assert_eq!(e.encrypt("HELLOWORLD").unwrap(), "RUKZWEAQOE");
}

#[test]
fn lowercase_is_folded() {
    let mut e = standard([0, 0, 0]);
    assert_eq!(e.encrypt("hello").unwrap(), "RUKZW");
}

#[test]
fn route_is_a_bijection_at_a_snapshot() {
    let mut outputs = Vec::new();
    for c in 'A'..='Z' {
        let mut e = standard([0, 0, 0]);
        let out = e.encrypt(&c.to_string()).unwrap();
        outputs.push(out.chars().next().unwrap());
    }
    for i in 0..26 {
        assert!(outputs[i].is_ascii_uppercase());
        for j in 0..i {
            assert_ne!(outputs[i], outputs[j]);
        }
    }
}

#[test]
fn non_letters_pass_through_without_stepping() {
    let mut e = standard([0, 0, 0]);
    let out = e.encrypt("AB-CD").unwrap();
    assert_eq!(out, "SN-BR");
    assert_eq!(out.chars().nth(2).unwrap(), '-');
    // four letters were routed, so the first wheel advanced four times
    assert_eq!(steps(&e), vec![4, 0, 0, 0]);
}

#[test]
fn single_step_advances_only_first_wheel() {
    let mut e = standard([0, 0, 0]);
    e.encrypt("A").unwrap();
    assert_eq!(steps(&e), vec![1, 0, 0, 0]);
}

#[test]
fn middle_wheel_on_notch_steps_itself_and_the_next() {
    // wheel II's notch letter 'E' is position 4: standing there, it advances
    // itself and pushes wheel III in the same cycle (the double-stepping
    // anomaly); off its notch afterwards, it rests again
    let mut e = standard([0, 4, 0]);
    e.encrypt("A").unwrap();
    assert_eq!(steps(&e), vec![1, 5, 1, 0]);
    e.encrypt("A").unwrap();
    assert_eq!(steps(&e), vec![2, 5, 1, 0]);
}

#[test]
fn landing_on_notch_carries_the_neighbour_once() {
    // wheel I's notch letter 'Q' is position 16: landing there hands the
    // carry on, and wheel II advances exactly once, not twice
    let mut e = standard([15, 0, 0]);
    e.encrypt("A").unwrap();
    assert_eq!(steps(&e), vec![16, 1, 0, 0]);
}

#[test]
fn double_stepping_across_two_calls() {
    // wheel II one letter before its notch 'E', wheel I about to land on its
    // notch 'Q': the first letter carries wheel II onto its notch, and on
    // the second letter wheel II steps again, together with wheel III
    let mut e = standard([15, 3, 0]);
    e.encrypt("A").unwrap();
    assert_eq!(steps(&e), vec![16, 4, 1, 0]);
    e.encrypt("A").unwrap();
    assert_eq!(steps(&e), vec![17, 5, 2, 0]);
}

#[test]
fn wheel_offset_wraps_around() {
    let mut e = standard([25, 0, 0]);
    assert_eq!(e.encrypt("A").unwrap(), "J");
    assert_eq!(steps(&e), vec![0, 0, 0, 0]);
}

#[test]
fn plugboard_swaps_configured_pair() {
    let configs = vec![cfg("I", 0), cfg("Reflector B", 0)];
    let plugs = vec![('A', 'B')];
    let e = Enigma::configure(&configs, &plugs).unwrap();
    assert_eq!(e.apply_plugboard('A'), 'B');
    assert_eq!(e.apply_plugboard('B'), 'A');
    assert_eq!(e.apply_plugboard('C'), 'C');
    assert_eq!(e.apply_plugboard('-'), '-');
}

#[test]
fn plugboard_changes_cipher() {
    let configs = vec![
        cfg("I", 0),
        cfg("II", 0),
        cfg("III", 0),
        cfg("Reflector B", 0),
    ];
    let plugs = vec![('A', 'B')];
    let mut e = Enigma::configure(&configs, &plugs).unwrap();
    assert_eq!(e.encrypt("A").unwrap(), "J");
}

#[test]
fn plug_pair_outside_alphabet_is_rejected() {
    let configs = vec![cfg("I", 0), cfg("Reflector B", 0)];
    let plugs = vec![('A', '1')];
    assert_eq!(
        Enigma::configure(&configs, &plugs).unwrap_err(),
        EnigmaError::InvalidPlug
    );
}

#[test]
fn plug_pair_reusing_a_letter_is_rejected() {
    let configs = vec![cfg("I", 0), cfg("Reflector B", 0)];
    let plugs = vec![('A', 'B'), ('B', 'C')];
    assert_eq!(
        Enigma::configure(&configs, &plugs).unwrap_err(),
        EnigmaError::InvalidPlug
    );
}

#[test]
fn plug_pair_of_one_letter_is_rejected() {
    let configs = vec![cfg("I", 0), cfg("Reflector B", 0)];
    let plugs = vec![('A', 'A')];
    assert_eq!(
        Enigma::configure(&configs, &plugs).unwrap_err(),
        EnigmaError::InvalidPlug
    );
}

#[test]
fn configure_rejects_unknown_rotor() {
    let configs = vec![cfg("I", 0), cfg("Nonesuch", 0)];
    assert_eq!(
        Enigma::configure(&configs, &Vec::new()).unwrap_err(),
        EnigmaError::UnknownRotor
    );
}

#[test]
fn configure_rejects_reflector_away_from_zero() {
    let configs = vec![cfg("I", 0), cfg("Reflector B", 3)];
    assert_eq!(
        Enigma::configure(&configs, &Vec::new()).unwrap_err(),
        EnigmaError::InvalidPosition
    );
}

#[test]
fn configure_rejects_offset_outside_alphabet() {
    let configs = vec![cfg("I", 26)];
    assert_eq!(
        Enigma::configure(&configs, &Vec::new()).unwrap_err(),
        EnigmaError::InvalidPosition
    );
}

#[test]
fn empty_stack_fails_on_letters_only() {
    let mut e = Enigma::new();
    assert_eq!(e.send('A').unwrap_err(), EnigmaError::EmptyStack);
    assert_eq!(e.encrypt("AB").unwrap_err(), EnigmaError::EmptyStack);
    assert_eq!(e.encrypt("- -").unwrap(), "- -");
    assert_eq!(e.encrypt("").unwrap(), "");
}

#[test]
fn reciprocity_after_restoring_offsets() {
    let mut e = standard([3, 7, 1]);
    let cipher = e.encrypt("HELLO WORLD").unwrap();
    assert_eq!(cipher, "XSMKU FFLXU");
    e.restore();
    assert_eq!(e.encrypt(&cipher).unwrap(), "HELLO WORLD");
}

#[test]
fn reciprocity_with_plugboard() {
    let configs = vec![
        cfg("IV", 5),
        cfg("V", 20),
        cfg("III", 11),
        cfg("Reflector C", 0),
    ];
    let plugs = vec![('A', 'Z'), ('Q', 'M')];
    let mut e = Enigma::configure(&configs, &plugs).unwrap();
    let cipher = e.encrypt("ATTACK AT DAWN").unwrap();
    e.restore();
    assert_eq!(e.encrypt(&cipher).unwrap(), "ATTACK AT DAWN");
}

#[test]
fn reset_zeroes_offsets_and_restore_brings_them_back() {
    let mut e = standard([3, 7, 1]);
    assert_eq!(e.positions(), "DHB");
    e.encrypt("SOMETEXT").unwrap();
    e.reset();
    assert_eq!(e.positions(), "AAA");
    assert_eq!(steps(&e), vec![0, 0, 0, 0]);
    e.restore();
    assert_eq!(e.positions(), "DHB");
    assert_eq!(steps(&e), vec![3, 7, 1, 0]);
}

#[test]
fn positions_skip_the_reflector() {
    let mut e = standard([0, 0, 0]);
    assert_eq!(e.positions(), "AAA");
    e.encrypt("A").unwrap();
    assert_eq!(e.positions(), "BAA");
}

#[test]
fn second_encrypt_differs_without_reset() {
    let mut e = standard([0, 0, 0]);
    let first = e.encrypt("AAAA").unwrap();
    let second = e.encrypt("AAAA").unwrap();
    assert_ne!(first, second);
}

#[test]
fn setup_plugboard_replaces_earlier_table() {
    let mut e = standard([0, 0, 0]);
    e.setup_plugboard(&vec![('A', 'B')]).unwrap();
    assert_eq!(e.apply_plugboard('A'), 'B');
    e.setup_plugboard(&vec![('C', 'D')]).unwrap();
    assert_eq!(e.apply_plugboard('A'), 'A');
    assert_eq!(e.apply_plugboard('C'), 'D');
}
