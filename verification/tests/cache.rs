use proply_rs::cache::{default_cache_path, journal_path, PolarStore, FULL_SAVE_EVERY};

#[derive(Clone, Debug, PartialEq)]
struct StoredPolar {
    alpha: Vec<f64>,
    cl: Vec<f64>,
    cd: Vec<f64>,
}

fn sample(key_cl: f64) -> StoredPolar {
    StoredPolar {
        alpha: vec![0.0, 0.1],
        cl: vec![key_cl, key_cl + 0.1],
        cd: vec![0.01, 0.02],
    }
}

fn one(alpha: f64, cl: f64, cd: f64) -> StoredPolar {
    StoredPolar {
        alpha: vec![alpha],
        cl: vec![cl],
        cd: vec![cd],
    }
}

#[test]
fn missing_file_is_empty() {
    // A missing cache file and a missing journal contribute no records.
    let store: PolarStore<StoredPolar> = PolarStore::load("/nonexistent/dir/cache.json", vec![], vec![]);
    assert!(store.get("anything").is_none());
}

#[test]
fn each_insert_is_journaled_immediately_and_reloads() {
    let path = "/tmp/proply_rs_cache_journal/cache.json";
    let mut journal: Vec<(String, StoredPolar)> = Vec::new();
    {
        let mut store: PolarStore<StoredPolar> = PolarStore::load(path, vec![], vec![]);
        let out = store.insert("k1".into(), sample(0.1));
        assert!(out.journal, "the first insert must be journaled immediately");
        journal.push(("k1".into(), sample(0.1)));
        assert!(store.needs_save(), "the whole file waits for the next compaction");
        assert!(!out.compact);
        let out = store.insert("k2".into(), sample(0.2));
        assert!(out.journal);
        journal.push(("k2".into(), sample(0.2)));
    }
    // The main file was never rewritten, yet a fresh load replays the
    // journal and sees both polars.
    let reloaded: PolarStore<StoredPolar> = PolarStore::load(path, vec![], journal);
    assert_eq!(reloaded.len(), 2);
    assert_eq!(reloaded.get("k1").cloned(), Some(sample(0.1)));
    assert_eq!(reloaded.get("k2").cloned(), Some(sample(0.2)));
}

/// The host's reading of a journal: one record per line, a line that does
/// not parse (a torn tail) skipped.
fn journal_records(text: &str) -> Vec<(String, StoredPolar)> {
    let floats = |v: &serde_json::Value| -> Vec<f64> {
        v.as_array().unwrap().iter().map(|x| x.as_f64().unwrap()).collect()
    };
    let mut out = Vec::new();
    for line in text.lines() {
        if let Ok(rec) = serde_json::from_str::<serde_json::Value>(line) {
            out.push((
                rec["key"].as_str().unwrap().to_string(),
                StoredPolar {
                    alpha: floats(&rec["alpha"]),
                    cl: floats(&rec["cl"]),
                    cd: floats(&rec["cd"]),
                },
            ));
        }
    }
    out
}

#[test]
fn journal_replay_tolerates_a_torn_tail_and_duplicates() {
    // The file holds k1; the journal repeats k1 (a crashed compaction's
    // duplicate), adds k2, and ends in a torn k3 line.
    let file = vec![("k1".to_string(), one(0.0, 0.1, 0.01))];
    let journal_text = r#"{"key":"k1","alpha":[0.0],"cl":[0.1],"cd":[0.01]}
{"key":"k2","alpha":[0.2],"cl":[0.3],"cd":[0.02]}
{"key":"k3","alpha":[0.4],"cl":[0.5],"cd":[0.03]
"#;
    let journal = journal_records(journal_text);
    let store = PolarStore::load("/tmp/proply_rs_cache_journal_torn/cache.json", file, journal);
    assert_eq!(store.len(), 2, "file + journal; the torn tail line is skipped");
    assert_eq!(store.get("k1").unwrap().cl, vec![0.1], "journal re-apply is idempotent");
    assert_eq!(store.get("k2").unwrap().cl, vec![0.3]);
    assert!(store.get("k3").is_none(), "the torn line must not parse");
}

#[test]
fn compaction_rewrites_the_whole_file_and_drops_the_journal() {
    let mut store: PolarStore<StoredPolar> =
        PolarStore::load("/tmp/proply_rs_cache_compact/cache.json", vec![], vec![]);
    let mut compacted = 0;
    for i in 0..FULL_SAVE_EVERY {
        let out = store.insert(format!("k{i}"), sample(i as f64 * 0.01));
        assert!(out.journal);
        if out.compact {
            compacted += 1;
            assert_eq!(i, FULL_SAVE_EVERY - 1, "the threshold insert compacts");
            // The host rewrote the file and dropped the journal.
            store.save(true);
        }
    }
    assert_eq!(compacted, 1);
    assert!(!store.needs_save(), "the threshold insert compacts");

    // The rewritten file holds every entry in first-insert order.
    let file: Vec<(String, StoredPolar)> = store
        .keys()
        .iter()
        .map(|k| (k.clone(), store.get(k).unwrap().clone()))
        .collect();
    let reloaded = PolarStore::load("/tmp/proply_rs_cache_compact/cache.json", file, vec![]);
    assert_eq!(reloaded.len(), FULL_SAVE_EVERY);
    assert_eq!(
        reloaded.get(&format!("k{}", FULL_SAVE_EVERY - 1)).cloned(),
        Some(sample((FULL_SAVE_EVERY as f64 - 1.0) * 0.01))
    );
}

#[test]
fn take_new_entries_returns_only_inserted() {
    let mut store = PolarStore::in_memory();
    store.hydrate("old".into(), sample(0.1));
    store.insert("new".into(), sample(0.2));

    let drained = store.take_new_entries();
    assert_eq!(drained.len(), 1);
    assert_eq!(drained[0], ("new".to_string(), sample(0.2)));

    // The store keeps everything; the drain is one-shot.
    assert_eq!(store.len(), 2);
    assert!(store.take_new_entries().is_empty());
}

#[test]
fn in_memory_store_does_not_persist() {
    let mut store = PolarStore::in_memory();
    let out = store.insert("k".into(), sample(0.1));
    assert!(!out.journal && !out.compact);
    assert!(!store.needs_save());
    store.save(false); // no path: nothing to record
    assert_eq!(store.len(), 1);
}

#[test]
fn failed_sweep_marker_round_trips_the_web_persistence_chain() {
    let marker = StoredPolar {
        alpha: Vec::new(),
        cl: Vec::new(),
        cd: Vec::new(),
    };
    let mut session = PolarStore::in_memory();
    session.insert("h|bucket|mach".into(), marker.clone());
    assert_eq!(session.len(), 1, "marker cached in the session");

    let drained = session.take_new_entries();
    assert_eq!(drained.len(), 1, "marker reported for persistence");
    assert!(drained[0].1.alpha.is_empty());

    // A fresh page session hydrates what the host stored.
    let mut reload = PolarStore::from_entries(drained);
    let got = reload.get("h|bucket|mach").expect("marker hydrated");
    assert!(got.alpha.is_empty(), "empty marker survives the round trip");
    assert!(reload.take_new_entries().is_empty());
}

#[test]
fn repeated_inserts_drain_once_with_the_latest_value() {
    let mut store = PolarStore::in_memory();
    store.insert("a".into(), sample(0.1));
    store.insert("b".into(), sample(0.2));
    store.insert("a".into(), sample(0.3));
    let drained = store.take_new_entries();
    assert_eq!(
        drained,
        vec![("a".to_string(), sample(0.3)), ("b".to_string(), sample(0.2))]
    );
    assert_eq!(store.keys(), &vec!["a".to_string(), "b".to_string()]);
}

#[test]
fn journal_record_wins_over_the_file_copy() {
    let file = vec![("k".to_string(), sample(0.1)), ("only_file".to_string(), sample(0.5))];
    let journal = vec![("k".to_string(), sample(0.2)), ("k".to_string(), sample(0.4))];
    let store = PolarStore::load("c.json", file, journal);
    assert_eq!(store.get("k").cloned(), Some(sample(0.4)));
    assert_eq!(store.get("only_file").cloned(), Some(sample(0.5)));
    assert_eq!(store.len(), 2);
    assert_eq!(store.path(), "c.json");
    assert!(!store.needs_save());
}

#[test]
fn failed_rewrite_keeps_the_store_dirty() {
    let mut store = PolarStore::load("c.json", vec![], vec![]);
    store.insert("k".into(), sample(0.1));
    assert!(store.needs_save());
    store.save(false);
    assert!(store.needs_save());
    store.save(true);
    assert!(!store.needs_save());
}

#[test]
fn hydrate_does_not_dirty_the_store() {
    let mut store = PolarStore::load("c.json", vec![], vec![]);
    store.hydrate("k".into(), sample(0.1));
    assert!(!store.needs_save());
    assert!(!store.is_empty());
}

#[test]
fn cache_paths() {
    assert_eq!(default_cache_path(), "foil_cache.json");
    assert_eq!(journal_path("foil_cache.json"), "foil_cache.json.journal");
}

#[test]
fn round_trips_through_disk() {
    let path = "/tmp/proply_rs_cache_test/cache.json";
    let file: Vec<(String, StoredPolar)>;
    {
        let mut store: PolarStore<StoredPolar> = PolarStore::load(path, vec![], vec![]);
        assert!(store.get("k").is_none());
        store.insert(
            "k".into(),
            StoredPolar {
                alpha: vec![0.0, 0.1],
                cl: vec![0.1, 0.2],
                cd: vec![0.01, 0.02],
            },
        );
        assert!(store.needs_save());
        // The host writes the whole document and reports the rewrite.
        file = store
            .keys()
            .iter()
            .map(|k| (k.clone(), store.get(k).unwrap().clone()))
            .collect();
        store.save(true);
        assert!(!store.needs_save());
    }
    let store = PolarStore::load(path, file, vec![]);
    let polar = store.get("k").expect("cached polar");
    assert_eq!(polar.alpha, vec![0.0, 0.1]);
    assert_eq!(polar.cl, vec![0.1, 0.2]);
}

#[test]
fn cache_keys_join_hash_reynolds_and_mach() {
    assert_eq!(proply_rs::cache::cache_key("naca2412", "50000", "0.05"), "naca2412|50000|0.05");
}
