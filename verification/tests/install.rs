use installer_gui::install::{backend_args, split_progress_line, BACKEND};
use installer_gui::wizard::Rotation;

fn parts(line: &str) -> Option<(String, String)> {
    split_progress_line(line)
}

/// The progress line as the program reads it: the library splits it, and the
/// fraction is then parsed as an `f32` and clamped to `0..=1`.
fn parse_progress(line: &str) -> Option<(f32, String)> {
    let (frac, phase) = split_progress_line(line)?;
    let frac: f32 = frac.parse().ok()?;
    Some((frac.clamp(0.0, 1.0), phase))
}

#[test]
fn parses_progress_control_line() {
    let (frac, phase) = parse_progress("@@P 0.4375 Copying system to disk — 45%").unwrap();
    assert!((frac - 0.4375).abs() < 1e-6);
    assert_eq!(phase, "Copying system to disk — 45%");
}

#[test]
fn clamps_out_of_range_fraction() {
    assert_eq!(parse_progress("@@P 1.5 Done").unwrap().0, 1.0);
    assert_eq!(parse_progress("@@P -0.2 Odd").unwrap().0, 0.0);
}

#[test]
fn ordinary_log_lines_are_not_progress() {
    assert!(parse_progress("[3/6] Copying system to disk ...").is_none());
    assert!(parse_progress("Architecture  : amd64").is_none());
    assert!(parse_progress("@@P").is_none());
    assert!(parse_progress("@@P 0.5").is_none());
    assert!(parse_progress("@@P notanumber Phase").is_none());
}

#[test]
fn splits_progress_control_line() {
    let (frac, phase) = parts("@@P 0.4375 Copying system to disk — 45%").unwrap();
    assert_eq!(frac, "0.4375");
    let value: f32 = frac.parse().unwrap();
    assert!((value - 0.4375).abs() < 1e-6);
    assert_eq!(phase, "Copying system to disk — 45%");
}

#[test]
fn splits_out_of_range_fractions_as_written() {
    assert_eq!(parts("@@P 1.5 Done").unwrap().0, "1.5");
    assert_eq!(parts("@@P -0.2 Odd").unwrap().0, "-0.2");
    assert_eq!(parts("@@P 1.5 Done").unwrap().1, "Done");
}

#[test]
fn ordinary_log_lines_have_no_progress_parts() {
    assert!(parts("[3/6] Copying system to disk ...").is_none());
    assert!(parts("Architecture  : amd64").is_none());
    assert!(parts("@@P").is_none());
    assert!(parts("@@P 0.5").is_none());
    assert!(parts("@@P0.5 Phase").is_none());
}

#[test]
fn a_non_number_still_splits() {
    let (frac, phase) = parts("@@P notanumber Phase").unwrap();
    assert_eq!(frac, "notanumber");
    assert_eq!(phase, "Phase");
    assert!(frac.parse::<f32>().is_err());
}

#[test]
fn white_space_around_the_parts_is_dropped() {
    let (frac, phase) = parts("  \t@@P   0.25\tPartitioning   ").unwrap();
    assert_eq!(frac, "0.25");
    assert_eq!(phase, "Partitioning");
    let (frac, phase) = parts("@@P 0.9 ").unwrap();
    assert_eq!(frac, "0.9");
    assert_eq!(phase, "");
}

#[test]
fn backend_arguments() {
    assert_eq!(
        backend_args("sdb", false, Rotation::Normal),
        vec!["-n", BACKEND, "--rotate", "normal", "sdb"]
    );
    assert_eq!(
        backend_args("nvme0n1", true, Rotation::Inverted),
        vec!["-n", BACKEND, "--dry-run", "--rotate", "inverted", "nvme0n1"]
    );
}
