use proply_rs::design_log::{close, is_open, TraceSink};

#[test]
fn closed_sink_is_a_noop() {
    let mut sink = TraceSink::new();
    close(&mut sink);
    assert!(!is_open(&sink));
    assert_eq!(proply_rs::design_log::write(&sink, "this goes nowhere"), None);
    assert_eq!(proply_rs::design_log::write(&sink, "this goes nowhere"), None);
}

#[test]
fn open_mirrors_lines_and_closes() {
    let mut sink = TraceSink::new();
    sink.open();
    assert!(is_open(&sink));
    assert_eq!(
        proply_rs::design_log::write(&sink, "proply design trace marker 42"),
        Some("proply design trace marker 42\n".to_string())
    );
    close(&mut sink);
    assert!(!is_open(&sink));
    assert_eq!(proply_rs::design_log::write(&sink, "after close"), None);
}
