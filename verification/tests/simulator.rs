use proply_rs::simulator::{
    after_simulation, bad_keys, bad_keys_sidecar, bucket_cache_key, bucket_source, polar_usable,
    sim_keys, sweep_failed, BucketSource, CachedPolar, KeySet, SidecarAction, MIN_FIT_POINTS,
    MIN_SWEEP_POINTS,
};

#[test]
fn bad_key_sidecar_round_trips() {
    let probe = "proply-probe-bad-key|12345.6|0.05";
    let mut set = bad_keys();
    // A hand-written sidecar loads into the session set...
    set.load_persisted(&format!(r#"["{probe}"]"#));
    assert!(set.contains(probe));
    // ...and saving persists it.
    let text = match set.persisted() {
        SidecarAction::Write(t) => t,
        _ => panic!("sidecar written"),
    };
    let parsed: Vec<String> = serde_json::from_str(&text).expect("sidecar parses");
    assert!(parsed.contains(&probe.to_string()), "probe key persisted");
    set.remove(probe);
    assert!(!set.contains(probe));
}

#[test]
fn sidecar_path_and_bucket_keys() {
    assert_eq!(bad_keys_sidecar("foil_cache.json"), "foil_cache.bad.json");
    assert_eq!(bad_keys_sidecar("build/cache.json"), "build/cache.bad.json");
    assert_eq!(bad_keys_sidecar("cache"), "cache.bad.json");
    assert_eq!(bad_keys_sidecar(".json"), ".bad.json");
    assert_eq!(bad_keys_sidecar("x.JSON"), "x.JSON.bad.json");
    assert_eq!(bucket_cache_key("h|50000|0.05".to_string(), true), "h|50000|0.05|n5");
    assert_eq!(bucket_cache_key("h|50000|0.05".to_string(), false), "h|50000|0.05");
}

#[test]
fn empty_set_removes_the_sidecar() {
    let set = bad_keys();
    assert!(matches!(set.persisted(), SidecarAction::Remove));
}

#[test]
fn persisted_keys_are_sorted_and_unique() {
    let mut set = KeySet::new();
    set.insert("b".to_string());
    set.insert("a".to_string());
    set.insert("b".to_string());
    set.insert("c".to_string());
    assert_eq!(set.sorted_keys(), vec!["a".to_string(), "b".to_string(), "c".to_string()]);
    match set.persisted() {
        SidecarAction::Write(t) => assert_eq!(t, r#"["a","b","c"]"#),
        _ => panic!("sidecar written"),
    }
}

#[test]
fn a_sidecar_that_is_not_a_string_list_adds_nothing() {
    let mut set = KeySet::new();
    set.insert("x".to_string());
    set.load_persisted("not json");
    set.load_persisted("[1, 2]");
    assert_eq!(set.sorted_keys(), vec!["x".to_string()]);
    set.load_persisted(r#"["y", "x"]"#);
    assert_eq!(set.sorted_keys(), vec!["x".to_string(), "y".to_string()]);
}

#[test]
fn a_key_is_swept_by_one_claimant_at_a_time() {
    let mut gate = sim_keys();
    assert!(gate.try_claim("k".to_string()), "the first claimant sweeps");
    assert!(!gate.try_claim("k".to_string()), "a second claimant waits");
    assert!(gate.try_claim("other".to_string()));
    gate.remove("k");
    assert!(gate.try_claim("k".to_string()), "released keys can be claimed again");
}

#[test]
fn stored_degenerate_sweep_takes_the_flat_plate() {
    // A stored sweep with too few points (or an unphysical one) falls back
    // to the flat-plate model without a new sweep, and marks the key bad.
    assert_eq!(
        bucket_source(false, CachedPolar::Degenerate),
        BucketSource::FlatPlate { mark_bad: true }
    );
    assert_eq!(bucket_source(false, CachedPolar::Usable), BucketSource::Fit);
    assert_eq!(bucket_source(false, CachedPolar::Missing), BucketSource::Simulate);
    // A key already known bad never reaches the store.
    assert_eq!(
        bucket_source(true, CachedPolar::Missing),
        BucketSource::FlatPlate { mark_bad: false }
    );
    assert_eq!(after_simulation(CachedPolar::Usable), BucketSource::Fit);
    assert_eq!(
        after_simulation(CachedPolar::Missing),
        BucketSource::FlatPlate { mark_bad: true }
    );
}

#[test]
fn sweep_point_thresholds() {
    assert!(polar_usable(MIN_FIT_POINTS + 1, true));
    assert!(!polar_usable(MIN_FIT_POINTS, true));
    assert!(!polar_usable(41, false));
    assert!(sweep_failed(MIN_SWEEP_POINTS - 1));
    assert!(!sweep_failed(MIN_SWEEP_POINTS));
}
