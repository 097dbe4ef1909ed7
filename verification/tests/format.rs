//! Timecode formats.

use dub::timecode::format::Format;

const ALL: [Format; 3] = [Format::SeratoCv02, Format::TraktorMk1, Format::TraktorMk2];

fn hz(f: Format) -> f32 {
    f32::from_bits(f.carrier_hz().bits)
}

#[test]
fn carriers_distinct() {
    for (i, a) in ALL.iter().enumerate() {
        for b in &ALL[i + 1..] {
            assert!((hz(*a) - hz(*b)).abs() > 1.0, "{a:?} and {b:?} share carrier {}", hz(*a));
        }
    }
}

#[test]
fn traktor_mk1_is_2khz_mk2_is_25khz() {
    assert!((hz(Format::TraktorMk1) - 2000.0).abs() < f32::EPSILON);
    assert!((hz(Format::TraktorMk2) - 2500.0).abs() < f32::EPSILON);
}

#[test]
fn serato_carrier_is_1khz() {
    assert_eq!(hz(Format::SeratoCv02), 1000.0);
}

#[test]
fn position_bits_sane() {
    for f in ALL {
        assert!(f.position_bits() >= 16 && f.position_bits() <= 32);
    }
}

#[test]
fn code_lengths() {
    assert_eq!(Format::SeratoCv02.position_bits(), 20);
    assert_eq!(Format::TraktorMk1.position_bits(), 23);
    assert_eq!(Format::TraktorMk2.position_bits(), 23);
    assert_eq!(Format::SeratoCv02.side_a_bits(), 712_000);
    assert_eq!(Format::TraktorMk1.side_a_bits(), 1_500_000);
    assert_eq!(Format::TraktorMk2.side_a_bits(), 1_500_000);
}

#[test]
fn cli_arg_round_trips_every_format() {
    for f in ALL {
        let parsed = Format::from_cli_arg(f.cli_name())
            .expect("cli_name → from_cli_arg must round-trip");
        assert_eq!(parsed, f, "{} did not round-trip", f.cli_name());
    }
}

#[test]
fn cli_arg_accepts_aliases() {
    assert_eq!(
        Format::from_cli_arg("serato"),
        Some(Format::SeratoCv02),
        "'serato' is the friendly alias (only one Serato format supported)"
    );
    assert_eq!(Format::from_cli_arg("cv02"), Some(Format::SeratoCv02));
    assert_eq!(Format::from_cli_arg("mk1"), Some(Format::TraktorMk1));
    assert_eq!(Format::from_cli_arg("mk2"), Some(Format::TraktorMk2));
}

#[test]
fn bare_traktor_is_rejected_to_avoid_ambiguity() {
    assert_eq!(Format::from_cli_arg("traktor"), None);
}

#[test]
fn cli_arg_rejects_unknown() {
    assert_eq!(Format::from_cli_arg("rekordbox"), None);
    assert_eq!(Format::from_cli_arg(""), None);
    assert_eq!(
        Format::from_cli_arg("Serato"),
        None,
        "case-sensitive: SHOUTING is not a real DJ format"
    );
}

#[test]
fn side_a_at_least_5_minutes() {
    for f in ALL {
        let secs = f64::from(f.side_a_bits()) / f64::from(hz(f));
        assert!(secs >= 300.0, "{f:?} side-A only {secs:.0}s");
    }
}
