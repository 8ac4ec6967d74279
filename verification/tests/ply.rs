use proply_rs::ply::{load_ply, usize_decimal};

const HEADER: &str = "ply\nformat ascii 1.0\nelement vertex 3\nproperty float x\nproperty float y\nproperty float z\nproperty float u\nproperty float v\nproperty int part\nelement face 1\nproperty list uchar int vertex_indices\nend_header\n";

#[test]
fn reads_a_textured_mesh() {
    let text = format!(
        "{HEADER}0.000000 0.000000 0.000000 0.000000 0.000000 0\n1.000000 0.000000 -0.500000 0.500000 0.250000 1\n0.0 1.0 0.0 1.0 1.0 1\n3 0 1 2\n"
    );
    let mesh = load_ply(&text).unwrap();
    assert_eq!(mesh.vertices.len(), 3);
    assert_eq!(mesh.faces, vec![(0, 1, 2)]);
    let v = &mesh.vertices[1];
    assert_eq!((v.x.as_str(), v.y.as_str(), v.z.as_str()), ("1.000000", "0.000000", "-0.500000"));
    assert_eq!(v.uv, Some(("0.500000".to_string(), "0.250000".to_string())));
    assert_eq!(v.part, 1);
    assert_eq!(mesh.vertices[0].part, 0);
}

#[test]
fn untextured_mesh_and_crlf_lines() {
    let text = "ply\r\nelement vertex 1\r\nproperty float x\r\nelement face 0\r\nend_header\r\n  1 2 3  \r\n\r\n";
    let mesh = load_ply(text).unwrap();
    assert_eq!(mesh.vertices.len(), 1);
    // Three properties beyond the implicit three: u, v are not read, nor
    // the part, with fewer than five properties counted.
    assert!(mesh.vertices[0].uv.is_none());
    assert!(mesh.faces.is_empty());
}

#[test]
fn trailing_lines_after_the_mesh_are_ignored() {
    let text = "element vertex 1\nend_header\n1 2 3\nnot a vertex\n";
    let mesh = load_ply(text).unwrap();
    assert_eq!(mesh.vertices.len(), 1);
}

#[test]
fn ply_errors() {
    assert_eq!(load_ply("element vertex x\n").unwrap_err(), "bad vertex count");
    assert_eq!(load_ply("element face -1\n").unwrap_err(), "bad face count");
    assert_eq!(load_ply("element vertex 1\nend_header\n1 2\n").unwrap_err(), "bad vertex");
    assert_eq!(load_ply("element vertex 1\nend_header\nq 2 3\n").unwrap_err(), "bad x");
    assert_eq!(
        load_ply("element face 1\nend_header\n4 0 1 2\n").unwrap_err(),
        "only triangle faces are supported (got 4)"
    );
    assert_eq!(load_ply("element face 1\nend_header\n3 0 1\n").unwrap_err(), "bad face");
    assert_eq!(load_ply("element face 1\nend_header\n3 0 -1 2\n").unwrap_err(), "bad b");
    assert_eq!(
        load_ply("element vertex 2\nelement face 1\nend_header\n1 2 3\n").unwrap_err(),
        "short mesh: 1/2 vertices, 0/1 faces"
    );
}

#[test]
fn decimal_text_of_counts() {
    assert_eq!(usize_decimal(0), "0");
    assert_eq!(usize_decimal(1207), "1207");
}
