use noisegen::config::{build_config, parse_volume, ConfigError, GeneratorConfig};
use noisegen::generator::Mode;

#[test]
fn whole_numerals_parse_exactly() {
    assert_eq!(parse_volume(b"0"), Ok(0));
    assert_eq!(parse_volume(b"1"), Ok(10_000_000));
    assert_eq!(parse_volume(b"001"), Ok(10_000_000));
}

#[test]
fn fractional_numerals_parse_exactly() {
    assert_eq!(parse_volume(b"1.0"), Ok(10_000_000));
    assert_eq!(parse_volume(b"0.5"), Ok(5_000_000));
    assert_eq!(parse_volume(b"0.25"), Ok(2_500_000));
    assert_eq!(parse_volume(b"0.9999999"), Ok(9_999_999));
    assert_eq!(parse_volume(b"1.0000000"), Ok(10_000_000));
    assert_eq!(parse_volume(b"0.0000001"), Ok(1));
}

#[test]
fn eighth_fractional_digit_is_truncated() {
    assert_eq!(parse_volume(b"0.00000009"), Ok(0));
    assert_eq!(parse_volume(b"0.12345678"), Ok(1_234_567));
    assert_eq!(parse_volume(b"1.00000000"), Ok(10_000_000));
}

#[test]
fn volumes_above_one_are_out_of_range() {
    assert_eq!(parse_volume(b"1.5"), Err(ConfigError::OutOfRange));
    assert_eq!(parse_volume(b"1.0000001"), Err(ConfigError::OutOfRange));
    assert_eq!(parse_volume(b"2"), Err(ConfigError::OutOfRange));
    assert_eq!(parse_volume(b"10"), Err(ConfigError::OutOfRange));
    assert_eq!(parse_volume(b"007"), Err(ConfigError::OutOfRange));
}

#[test]
fn malformed_numerals_are_rejected() {
    assert_eq!(parse_volume(b""), Err(ConfigError::Malformed));
    assert_eq!(parse_volume(b"."), Err(ConfigError::Malformed));
    assert_eq!(parse_volume(b"1."), Err(ConfigError::Malformed));
    assert_eq!(parse_volume(b".5"), Err(ConfigError::Malformed));
    assert_eq!(parse_volume(b"-0.5"), Err(ConfigError::Malformed));
    assert_eq!(parse_volume(b"abc"), Err(ConfigError::Malformed));
    assert_eq!(parse_volume(b"0.5.1"), Err(ConfigError::Malformed));
    assert_eq!(parse_volume(b"1,0"), Err(ConfigError::Malformed));
    assert_eq!(parse_volume(b" 1.0"), Err(ConfigError::Malformed));
}

// The command-line scenario: an out-of-range volume is a configuration
// error and no stream may start; a valid volume with the white flag gives
// a white-mode configuration at that volume.
#[test]
fn build_config_follows_the_cli_contract() {
    assert_eq!(build_config(false, b"1.5"), Err(ConfigError::OutOfRange));
    assert_eq!(build_config(true, b"x"), Err(ConfigError::Malformed));
    assert_eq!(
        build_config(true, b"0.5"),
        Ok(GeneratorConfig { mode: Mode::White, volume: 5_000_000 })
    );
    assert_eq!(
        build_config(false, b"1.0"),
        Ok(GeneratorConfig { mode: Mode::Pink, volume: 10_000_000 })
    );
}
