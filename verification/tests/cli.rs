use proply_rs::cli::{parse_args, RunOptions};

fn args(list: &[&str]) -> Vec<String> {
    list.iter().map(|s| s.to_string()).collect()
}

#[test]
fn defaults_when_nothing_is_passed() {
    let a = parse_args(&args(&[])).unwrap();
    assert_eq!(a.param, "prop_design.json");
    assert_eq!(a.n, None);
    assert_eq!(a.bem, None);
    assert_eq!(a.lifting_line, None);
    assert_eq!(a.ar, None);
    assert!(!a.help);
}

#[test]
fn values_and_flags() {
    let a = parse_args(&args(&[
        "--bem",
        "--n",
        "40",
        "--param=props/test_prop.json",
        "--dir=build/out",
        "--resolution",
        "30",
        "--ar",
        "4.5",
        "--camber=0.02",
        "--chord-spline-n",
        "5",
        "--naca",
        "--cst",
        "--plate",
        "--lifting-line",
        "--auto",
        "--step-file",
        "x.step",
        "-h",
    ]))
    .unwrap();
    assert_eq!(a.bem, Some(true));
    assert_eq!(a.n, Some(40));
    assert_eq!(a.param, "props/test_prop.json");
    assert_eq!(a.dir, Some("build/out".to_string()));
    assert_eq!(a.resolution, Some(30));
    assert_eq!(a.ar, Some("4.5".to_string()));
    assert_eq!(a.camber, Some("0.02".to_string()));
    assert_eq!(a.chord_spline_n, Some(5));
    assert_eq!(a.cst, Some(true));
    assert_eq!(a.plate, Some(true));
    assert_eq!(a.lifting_line, Some(true));
    assert_eq!(a.auto, Some(true));
    assert_eq!(a.step_file, Some("x.step".to_string()));
    assert!(a.help);
}

#[test]
fn argument_errors() {
    assert_eq!(parse_args(&args(&["--n", "forty"])).unwrap_err(), "bad --n");
    assert_eq!(parse_args(&args(&["--ar", "wide"])).unwrap_err(), "bad --ar");
    assert_eq!(parse_args(&args(&["--camber=x"])).unwrap_err(), "bad --camber");
    assert_eq!(parse_args(&args(&["--dir"])).unwrap_err(), "--dir needs a value");
    assert_eq!(parse_args(&args(&["--frob"])).unwrap_err(), "unknown argument: --frob");
    assert_eq!(
        parse_args(&args(&["--mesh"])).unwrap_err(),
        "--mesh (GMSH) is not yet available"
    );
    assert_eq!(
        parse_args(&args(&["--arad"])).unwrap_err(),
        "--arad (ARA-D foils) is not yet available"
    );
}

#[test]
fn numbers_follow_the_standard_parsers() {
    assert_eq!(parse_args(&args(&["--n", "+7"])).unwrap().n, Some(7));
    assert_eq!(parse_args(&args(&["--ar=inf"])).unwrap().ar, Some("inf".to_string()));
    assert_eq!(parse_args(&args(&["--ar", "1e3"])).unwrap().ar, Some("1e3".to_string()));
    assert!(parse_args(&args(&["--n", " 7"])).is_err());
}

#[test]
fn command_line_overrides_the_design_file() {
    let mut opts: RunOptions<f64> = RunOptions::defaults();
    assert!(opts.bem && !opts.lifting_line);
    assert_eq!((opts.resolution, opts.n, opts.chord_spline_n), (40, 40, 3));
    assert_eq!(opts.dir, ".");
    // The design file's values.
    opts.n = 60;
    opts.dir = "out".to_string();
    opts.ar = Some(3.0);
    // Only what the command line gives replaces them.
    let a = parse_args(&args(&["--lifting-line", "--resolution", "24", "--step-file=x.step"])).unwrap();
    opts.override_with(&a, None, Some(0.02));
    assert!(opts.bem && opts.lifting_line);
    assert_eq!(opts.resolution, 24);
    assert_eq!(opts.n, 60);
    assert_eq!(opts.dir, "out");
    assert_eq!(opts.step_file, "x.step");
    assert_eq!(opts.ar, Some(3.0));
    assert_eq!(opts.camber, Some(0.02));
}

#[test]
fn both_value_spellings_read_the_same() {
    for (name, value) in [("--n", "5"), ("--dir", "a=b"), ("--ar", "bad"), ("--camber", "0.03")] {
        let joined = parse_args(&args(&[&format!("{name}={value}"), "--bem"]));
        let split = parse_args(&args(&[name, value, "--bem"]));
        match (joined, split) {
            (Ok(a), Ok(b)) => {
                assert_eq!((a.n, a.dir, a.ar, a.camber, a.bem), (b.n, b.dir, b.ar, b.camber, b.bem));
            }
            (Err(a), Err(b)) => assert_eq!(a, b),
            _ => panic!("the spellings disagree for {name}"),
        }
    }
}
