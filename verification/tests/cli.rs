use pngoptim::cli::{check_argument_rules, parse_quality_range, ApngMode, QualityRange};
use pngoptim::error::AppError;

#[test]
fn parse_quality_ok() {
    let range = parse_quality_range("55-80").expect("parse quality");
    assert_eq!(range.min, 55);
    assert_eq!(range.max, 80);
    assert_eq!(range.requested(), "55-80");
    assert_eq!(range.effective(), "55-80");
}

#[test]
fn parse_quality_single_value_uses_pngquant_defaults() {
    let range = parse_quality_range("70").expect("parse quality");
    assert_eq!(range.min, 63);
    assert_eq!(range.max, 70);
    assert_eq!(range.requested(), "70");
    assert_eq!(range.effective(), "63-70");
}

#[test]
fn parse_quality_supports_open_ranges() {
    let upper_only = parse_quality_range("-80").expect("parse quality");
    assert_eq!(upper_only.min, 0);
    assert_eq!(upper_only.max, 80);

    let lower_only = parse_quality_range("65-").expect("parse quality");
    assert_eq!(lower_only.min, 65);
    assert_eq!(lower_only.max, 100);
}

#[test]
fn parse_quality_invalid() {
    assert!(parse_quality_range("80-55").is_err());
    assert!(parse_quality_range("hello").is_err());
    assert!(parse_quality_range("30-300").is_err());
}

#[test]
fn parse_quality_error_messages() {
    assert_eq!(parse_quality_range("   ").unwrap_err(), "quality must not be empty");
    assert_eq!(parse_quality_range("80-55").unwrap_err(), "quality minimum must be <= quality target");
    assert_eq!(parse_quality_range("hello").unwrap_err(), "quality target must be 0..100");
    assert_eq!(parse_quality_range("30-300").unwrap_err(), "quality target must be 0..100");
    assert_eq!(parse_quality_range("x-30").unwrap_err(), "quality minimum must be 0..100");
    assert_eq!(parse_quality_range("101-").unwrap_err(), "quality minimum must be 0..100");
    assert_eq!(parse_quality_range("--5").unwrap_err(), "quality target must be 0..100");
    assert_eq!(parse_quality_range("-").unwrap_err(), "quality target must be 0..100");
}

#[test]
fn parse_quality_trims_and_accepts_plus_sign() {
    let range = parse_quality_range("  \t+90 \n").expect("parse quality");
    assert_eq!(range.min, 81);
    assert_eq!(range.max, 90);
    assert_eq!(range.requested(), "+90");
    assert_eq!(range.effective(), "81-90");

    let range = parse_quality_range("007-0100").expect("parse quality");
    assert_eq!((range.min, range.max), (7, 100));
}

#[test]
fn parse_quality_splits_at_first_dash_only() {
    // "10-20-30": the target part "20-30" is not a number.
    assert_eq!(parse_quality_range("10-20-30").unwrap_err(), "quality target must be 0..100");
}

#[test]
fn single_value_minimum_rounds_down() {
    let r = parse_quality_range("99").expect("parse quality");
    assert_eq!((r.min, r.max), (89, 99));
    let r = parse_quality_range("0").expect("parse quality");
    assert_eq!((r.min, r.max), (0, 0));
    let r = parse_quality_range("100").expect("parse quality");
    assert_eq!((r.min, r.max), (90, 100));
}

#[test]
fn effective_formats_numbers() {
    let r = QualityRange { raw: "x".to_string(), min: 5, max: 100 };
    assert_eq!(r.effective(), "5-100");
    assert_eq!(r.requested(), "x");
}

#[test]
fn apng_mode_defaults_to_safe() {
    assert_eq!(ApngMode::default(), ApngMode::Safe);
}

fn strings(v: &[&str]) -> Vec<String> {
    v.iter().map(|s| s.to_string()).collect()
}

#[test]
fn argument_rules() {
    let msg = |r: Result<(), AppError>| match r {
        Err(AppError::Arg(m)) => m,
        other => panic!("unexpected {other:?}"),
    };
    assert!(check_argument_rules(&strings(&["a.png"]), Some("out.png"), "-mvp.png", '/').is_ok());
    assert!(check_argument_rules(&strings(&["a.png", "b.png"]), None, "-mvp.png", '/').is_ok());
    assert!(check_argument_rules(&strings(&["-"]), Some("-"), "-mvp.png", '/').is_ok());
    assert_eq!(
        msg(check_argument_rules(&strings(&["a.png", "b.png"]), Some("o.png"), "-x.png", '/')),
        "--output can only be used with a single input"
    );
    assert_eq!(
        msg(check_argument_rules(&strings(&["a.png", "-"]), None, "-x.png", '/')),
        "stdin input ('-') cannot be mixed with multiple inputs"
    );
    assert_eq!(
        msg(check_argument_rules(&strings(&[]), Some("-"), "-x.png", '/')),
        "stdout output ('--output -') requires a single input"
    );
    assert_eq!(
        msg(check_argument_rules(&strings(&["a.png"]), None, "out/x.png", '/')),
        "--ext must be a filename suffix, not a path"
    );
    assert!(check_argument_rules(&strings(&["a.png"]), None, "out\\x.png", '/').is_ok());
}
