use proply_rs::design::{
    cli_design_loop, default_chord_spline_n, keep_mechanical_redesign, mechanical_fallback_warning,
    session_design_loop, station_coverage, step_filename, DesignLoop,
};
use proply_rs::design::specified_operating_point;
use proply_rs::step_out::{check_blade_stations, err};

const NOTE: &str = "the mechanical-thickness re-design at this operating point was not achievable; this design uses the geometric thickness law";

#[test]
fn chord_spline_default() {
    assert_eq!(default_chord_spline_n(), 3);
}

#[test]
fn loop_selection() {
    assert_eq!(cli_design_loop(true, false).unwrap(), DesignLoop::Bem);
    assert_eq!(cli_design_loop(false, true).unwrap(), DesignLoop::LiftingLine);
    assert_eq!(cli_design_loop(true, true).unwrap(), DesignLoop::LiftingLine);
    assert_eq!(
        cli_design_loop(false, false).unwrap_err(),
        "select a design loop (set `bem` or `lifting_line`, or pass --bem / --lifting-line)"
    );
}

#[test]
fn session_refuses_two_foil_families() {
    assert_eq!(
        session_design_loop(false, false, true, true).unwrap_err(),
        "select a design loop (set `bem` or `lifting_line` in the design JSON)"
    );
    assert_eq!(
        session_design_loop(true, false, true, true).unwrap_err(),
        "choose one foil family (naca, cst or arad)"
    );
    assert_eq!(session_design_loop(true, false, true, false).unwrap(), DesignLoop::Bem);
    assert_eq!(session_design_loop(true, true, false, true).unwrap(), DesignLoop::LiftingLine);
}

#[test]
fn step_output_path() {
    assert_eq!(step_filename("build/out", "honda", ""), "build/out/honda.step");
    assert_eq!(step_filename("build/out", "honda", "x.step"), "x.step");
    assert_eq!(step_filename(".", "hello world", ""), "./hello world.step");
}

#[test]
fn coverage_counts_converged_stations() {
    assert_eq!(station_coverage(&vec![true, false, true, true]), (3, 4));
    assert_eq!(station_coverage(&vec![]), (0, 0));
    assert_eq!(station_coverage(&vec![false, false]), (0, 2));
}

#[test]
fn mechanical_redesign_decision_and_note() {
    assert!(keep_mechanical_redesign(true, true));
    assert!(keep_mechanical_redesign(false, false));
    assert!(!keep_mechanical_redesign(false, true));
    assert_eq!(mechanical_fallback_warning(None), NOTE);
    assert_eq!(mechanical_fallback_warning(Some(String::new())), NOTE);
    assert_eq!(
        mechanical_fallback_warning(Some("thrust short".to_string())),
        format!("thrust short ({NOTE})")
    );
}

#[test]
fn step_errors_are_prefixed() {
    assert_eq!(err("need at least two stations"), "step: need at least two stations");
}

#[test]
fn operating_point_needs_both_values() {
    assert_eq!(specified_operating_point(Some(1.2), Some(7000.0)), Some((1.2, 7000.0)));
    assert_eq!(specified_operating_point(Some(1.2), None::<f64>), None);
    assert_eq!(specified_operating_point(None, Some(7000.0)), None);
}

#[test]
fn step_writer_errors_with_single_station() {
    let res = check_blade_stations(1);
    assert!(res.is_err(), "single station should be rejected");
    assert_eq!(res.unwrap_err(), "need at least two blade stations for a STEP solid");
    assert!(check_blade_stations(0).is_err());
    assert!(check_blade_stations(2).is_ok());
    assert!(check_blade_stations(31).is_ok());
}
