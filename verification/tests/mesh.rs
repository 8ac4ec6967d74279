use proply_rs::mesh::{blade_into, face_lines, hub_into, ply_header, Mesh, HUB_RINGS, HUB_SEGMENTS};
use proply_rs::ply::load_ply;

/// A vertex label: (station, point, 0 = upper / 1 = lower / 2 = centre).
type Label = (usize, usize, u8);

fn tables(n_st: usize, n: usize) -> (Vec<Vec<Label>>, Vec<Vec<Label>>, Vec<Label>) {
    let upper = (0..n_st).map(|i| (0..n).map(|j| (i, j, 0)).collect()).collect();
    let lower = (0..n_st).map(|i| (0..n).map(|j| (i, j, 1)).collect()).collect();
    let centres = (0..n_st).map(|i| (i, 0, 2)).collect();
    (upper, lower, centres)
}

#[test]
fn blade_topology_of_two_stations() {
    let (upper, lower, centres) = tables(2, 2);
    let mut mesh = Mesh::new();
    mesh.push((9, 9, 9));
    blade_into(&mut mesh, &upper, &lower, &centres);
    let v = mesh.vertices();
    let t = mesh.triangles();
    // 3 loft quads (upper, lower, trailing edge) and two caps of 1 + 2*4.
    assert_eq!(v.len(), 1 + 12 + 18);
    assert_eq!(t.len(), 6 + 8);
    // The upper skin quad.
    assert_eq!(&v[1..5], &[(0, 0, 0), (0, 1, 0), (1, 1, 0), (1, 0, 0)]);
    // The lower skin quad.
    assert_eq!(&v[5..9], &[(0, 0, 1), (1, 0, 1), (1, 1, 1), (0, 1, 1)]);
    // The trailing-edge quad.
    assert_eq!(&v[9..13], &[(0, 1, 0), (1, 1, 0), (1, 1, 1), (0, 1, 1)]);
    assert_eq!(t[0], (1, 2, 3));
    assert_eq!(t[1], (1, 3, 4));
    assert_eq!(t[5], (9, 11, 12));
    // The root cap: centre, then the loop upper 0, 1, lower 1, 0.
    assert_eq!(v[13], (0, 0, 2));
    assert_eq!(&v[14..22], &[
        (0, 0, 0), (0, 1, 0),
        (0, 1, 0), (0, 1, 1),
        (0, 1, 1), (0, 0, 1),
        (0, 0, 1), (0, 0, 0),
    ]);
    assert_eq!(t[6], (14, 13, 15));
    assert_eq!(t[9], (20, 13, 21));
    // The tip cap.
    assert_eq!(v[22], (1, 0, 2));
    assert_eq!(t[13], (29, 22, 30));
    assert!(t.iter().all(|&(a, b, c)| a < v.len() && b < v.len() && c < v.len()));
}

#[test]
fn blade_counts_grow_with_stations_and_points() {
    let (upper, lower, centres) = tables(5, 7);
    let mut mesh = Mesh::new();
    blade_into(&mut mesh, &upper, &lower, &centres);
    // 4 gaps of 13 quads; caps of 1 + 28 vertices and 14 triangles.
    assert_eq!(mesh.vertices().len(), 4 * 4 * 13 + 2 * 29);
    assert_eq!(mesh.triangles().len(), 2 * 4 * 13 + 28);
}

#[test]
fn hub_topology() {
    let rings: Vec<usize> = (0..(HUB_RINGS + 1) * HUB_SEGMENTS).collect();
    let mut mesh = Mesh::new();
    mesh.push(1000);
    hub_into(&mut mesh, &rings, (2000, 3000));
    let v = mesh.vertices();
    let t = mesh.triangles();
    assert_eq!(v.len(), 1 + 13 * 56 + 2);
    assert_eq!(t.len(), 2 * 12 * 56 + 2 * 56);
    assert_eq!(v[1 + 13 * 56], 2000);
    assert_eq!(v[2 + 13 * 56], 3000);
    // The first side quad, and the one that wraps around the ring.
    assert_eq!(t[0], (1, 2, 58));
    assert_eq!(t[1], (1, 58, 57));
    assert_eq!(t[2 * 55], (56, 1, 57));
    assert_eq!(t[2 * 55 + 1], (56, 57, 112));
    // The end caps fan around their centres.
    assert_eq!(t[2 * 12 * 56], (1, 2, 1 + 13 * 56));
    assert_eq!(t[2 * 12 * 56 + 56], (1 + 12 * 56, 2 + 12 * 56, 2 + 13 * 56));
    assert_eq!(t[2 * 12 * 56 + 111], (56 + 12 * 56, 1 + 12 * 56, 2 + 13 * 56));
}

#[test]
fn written_mesh_reads_back() {
    let (upper, lower, centres) = tables(3, 4);
    let mut mesh = Mesh::new();
    blade_into(&mut mesh, &upper, &lower, &centres);
    let mut text = ply_header(mesh.vertices().len(), mesh.triangles().len());
    for (i, j, side) in mesh.vertices() {
        text.push_str(&format!("{:.6} {:.6} {:.6} {:.6} {:.6} {}\n", *i as f64, *j as f64, 0.0, 0.5, 0.25, side % 2));
    }
    text.push_str(&face_lines(mesh.triangles()));
    let back = load_ply(&text).unwrap();
    assert_eq!(back.vertices.len(), mesh.vertices().len());
    let faces: Vec<(usize, usize, usize)> = back
        .faces
        .iter()
        .map(|&(a, b, c)| (a as usize, b as usize, c as usize))
        .collect();
    assert_eq!(&faces, mesh.triangles());
}

#[test]
fn header_and_face_text() {
    assert_eq!(
        ply_header(3, 1),
        "ply\nformat ascii 1.0\nelement vertex 3\nproperty float x\nproperty float y\nproperty float z\nproperty float u\nproperty float v\nproperty int part\nelement face 1\nproperty list uchar int vertex_indices\nend_header\n"
    );
    assert_eq!(face_lines(&vec![(0, 1, 2), (10, 2, 0)]), "3 0 1 2\n3 10 2 0\n");
}
